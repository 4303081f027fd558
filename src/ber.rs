use vstd::prelude::*;

use crate::de::Decode;
use crate::error::Error;
use crate::parser::{
    base128_value, identifier_of, parse_base128_upto, parse_identifier, parse_value, spec_parse_identifier,
    spec_parse_value, spec_scan_parts, Identifier, Tlv, MAX_DEPTH,
};
use crate::tag::{self, universal, Tag};
use crate::types::{
    bits_of, integer_from_signed_bytes, Any, octets_from_slice, octets_of, signed_be_integer, BitString,
    Integer, ObjectIdentifier, OctetString,
};

verus! {

/// The contents octets of the unit `t` parsed from `s`.
pub open spec fn contents_of(s: Seq<u8>, t: (Identifier, nat, nat, nat)) -> Seq<u8> {
    s.subrange(t.1 as int, (t.1 + t.2) as int)
}

/// One TLV unit of `s` whose tag must be `tag`.
pub open spec fn spec_parse_tagged(s: Seq<u8>, tag: Tag) -> Result<(Identifier, nat, nat, nat), Error> {
    match spec_parse_value(s, MAX_DEPTH as nat) {
        Err(e) => Err(e),
        Ok(t) => if t.0.tag != tag {
            Err(Error::MismatchedTag { expected: tag, actual: t.0.tag })
        } else {
            Ok(t)
        },
    }
}

/// Parses one TLV unit of `s` and checks its tag against `tag`.
pub fn parse_tagged(s: &[u8], tag: Tag) -> (r: Result<Tlv, Error>)
    ensures
        match r {
            Ok(t) => spec_parse_tagged(s@, tag) == Ok::<(Identifier, nat, nat, nat), Error>(crate::parser::tlv_model(t))
                && 0 < t.consumed <= s@.len() && t.start + t.len <= t.consumed,
            Err(e) => spec_parse_tagged(s@, tag) == Err::<(Identifier, nat, nat, nat), Error>(e),
        },
{
    let t = match parse_value(s) {
        Ok(t) => t,
        Err(e) => return Err(e),
    };
    if t.identifier.tag != tag {
        return Err(Error::MismatchedTag { expected: tag, actual: t.identifier.tag });
    }
    Ok(t)
}

/// The tag of the unit at the front of `s`.
pub open spec fn spec_peek_tag(s: Seq<u8>) -> Result<Tag, Error> {
    match spec_parse_identifier(s) {
        Ok((id, _)) => Ok(id.tag),
        Err(e) => Err(e),
    }
}

/// Reads the tag of the unit at the front of `s` without consuming anything.
pub fn peek_tag(s: &[u8]) -> (r: Result<Tag, Error>)
    ensures
        r == spec_peek_tag(s@),
{
    match parse_identifier(s) {
        Ok((id, _)) => Ok(id.tag),
        Err(e) => Err(e),
    }
}

/// `BOOLEAN`: exactly one contents octet, true when it is not zero.
pub open spec fn spec_decode_bool(s: Seq<u8>, tag: Tag) -> Result<bool, Error> {
    match spec_parse_tagged(s, tag) {
        Err(e) => Err(e),
        Ok(t) => if t.2 != 1 {
            Err(Error::MismatchedLength { expected: 1, actual: t.2 as usize })
        } else {
            Ok(s[t.1 as int] != 0)
        },
    }
}

pub fn decode_bool(s: &[u8], tag: Tag) -> (r: Result<bool, Error>)
    ensures
        r == spec_decode_bool(s@, tag),
{
    let t = match parse_tagged(s, tag) {
        Ok(t) => t,
        Err(e) => return Err(e),
    };
    if t.len != 1 {
        return Err(Error::MismatchedLength { expected: 1, actual: t.len });
    }
    Ok(s[t.start] != 0)
}

/// `NULL`: no contents octets.
pub open spec fn spec_decode_null(s: Seq<u8>, tag: Tag) -> Result<(), Error> {
    match spec_parse_tagged(s, tag) {
        Err(e) => Err(e),
        Ok(t) => if t.2 != 0 {
            Err(Error::MismatchedLength { expected: 0, actual: t.2 as usize })
        } else {
            Ok(())
        },
    }
}

pub fn decode_null(s: &[u8], tag: Tag) -> (r: Result<(), Error>)
    ensures
        r == spec_decode_null(s@, tag),
{
    let t = match parse_tagged(s, tag) {
        Ok(t) => t,
        Err(e) => return Err(e),
    };
    if t.len != 0 {
        return Err(Error::MismatchedLength { expected: 0, actual: t.len });
    }
    Ok(())
}

/// `OCTET STRING`: the contents octets as they stand. A constructed octet
/// string is not reassembled: its contents are the nested units' octets.
pub open spec fn spec_decode_octets(s: Seq<u8>, tag: Tag) -> Result<Seq<u8>, Error> {
    match spec_parse_tagged(s, tag) {
        Err(e) => Err(e),
        Ok(t) => Ok(contents_of(s, t)),
    }
}

/// The contents of one unit tagged `tag`, copied into a `Vec`.
pub fn decode_octets(s: &[u8], tag: Tag) -> (r: Result<Vec<u8>, Error>)
    ensures
        match r {
            Ok(v) => spec_decode_octets(s@, tag) == Ok::<Seq<u8>, Error>(v@),
            Err(e) => spec_decode_octets(s@, tag) == Err::<Seq<u8>, Error>(e),
        },
{
    let t = match parse_tagged(s, tag) {
        Ok(t) => t,
        Err(e) => return Err(e),
    };
    let c = vstd::slice::slice_subrange(s, t.start, t.start + t.len);
    Ok(vstd::slice::slice_to_vec(c))
}

pub fn decode_octet_string(s: &[u8], tag: Tag) -> (r: Result<OctetString, Error>)
    ensures
        match r {
            Ok(v) => spec_decode_octets(s@, tag) == Ok::<Seq<u8>, Error>(octets_of(v)),
            Err(e) => spec_decode_octets(s@, tag) == Err::<Seq<u8>, Error>(e),
        },
{
    let t = match parse_tagged(s, tag) {
        Ok(t) => t,
        Err(e) => return Err(e),
    };
    let c = vstd::slice::slice_subrange(s, t.start, t.start + t.len);
    Ok(octets_from_slice(c))
}

/// The value of big-endian two's-complement octets.
pub open spec fn twos_value(b: Seq<u8>) -> int
    decreases b.len(),
{
    if b.len() == 0 {
        0
    } else if b.len() == 1 {
        if b[0] < 128 {
            b[0] as int
        } else {
            b[0] - 256
        }
    } else {
        twos_value(b.drop_last()) * 256 + b.last() as int
    }
}

/// `INTEGER`: the contents read as an arbitrary-precision two's-complement
/// number. Empty contents encode no number and are a parse error.
pub open spec fn spec_decode_integer(s: Seq<u8>, tag: Tag) -> Result<Integer, Error> {
    match spec_parse_tagged(s, tag) {
        Err(e) => Err(e),
        Ok(t) => if t.2 == 0 {
            Err(Error::Parser)
        } else {
            Ok(signed_be_integer(contents_of(s, t)))
        },
    }
}

pub fn decode_integer(s: &[u8], tag: Tag) -> (r: Result<Integer, Error>)
    ensures
        r == spec_decode_integer(s@, tag),
{
    let t = match parse_tagged(s, tag) {
        Ok(t) => t,
        Err(e) => return Err(e),
    };
    if t.len == 0 {
        return Err(Error::Parser);
    }
    let c = vstd::slice::slice_subrange(s, t.start, t.start + t.len);
    Ok(integer_from_signed_bytes(c))
}

/// Once a prefix of at least one octet is out of the range of `i64`, so is
/// the whole.
proof fn lemma_twos_out_of_range(b: Seq<u8>, i: int)
    requires
        1 <= i <= b.len(),
        twos_value(b.take(i)) > i64::MAX || twos_value(b.take(i)) < i64::MIN,
    ensures
        twos_value(b) > i64::MAX || twos_value(b) < i64::MIN,
    decreases b.len() - i,
{
    if i == b.len() {
        assert(b.take(i) =~= b);
    } else {
        let x = twos_value(b.take(i));
        let d = b[i] as int;
        assert(b.take(i + 1).drop_last() =~= b.take(i));
        assert(twos_value(b.take(i + 1)) == x * 256 + d);
        assert(x * 256 + d > i64::MAX || x * 256 + d < i64::MIN) by (nonlinear_arith)
            requires x > i64::MAX || x < i64::MIN, 0 <= d < 256;
        lemma_twos_out_of_range(b, i + 1);
    }
}

/// The two's-complement value of `b` if it fits an `i64`.
pub fn i64_from_signed_bytes(b: &[u8]) -> (r: Option<i64>)
    requires
        b@.len() > 0,
    ensures
        r == (if i64::MIN <= twos_value(b@) <= i64::MAX {
            Some(twos_value(b@) as i64)
        } else {
            None::<i64>
        }),
{
    let first = b[0];
    let mut acc: i64 = if first < 128 { first as i64 } else { first as i64 - 256 };
    proof {
        assert(b@.take(1).len() == 1 && b@.take(1)[0] == first);
    }
    let mut i: usize = 1;
    while i < b.len()
        invariant
            1 <= i <= b@.len(),
            acc as int == twos_value(b@.take(i as int)),
        decreases b@.len() - i,
    {
        let d = b[i];
        let v: i128 = acc as i128 * 256 + d as i128;
        proof {
            assert(b@.take(i + 1).drop_last() =~= b@.take(i as int));
            assert(twos_value(b@.take(i + 1)) == v);
        }
        if v > i64::MAX as i128 || v < i64::MIN as i128 {
            proof {
                lemma_twos_out_of_range(b@, i + 1);
            }
            return None;
        }
        acc = v as i64;
        i = i + 1;
    }
    proof {
        assert(b@.take(i as int) =~= b@);
    }
    Some(acc)
}

/// `INTEGER` into an `i64`: too large a value is an overflow.
pub open spec fn spec_decode_i64(s: Seq<u8>, tag: Tag) -> Result<i64, Error> {
    match spec_parse_tagged(s, tag) {
        Err(e) => Err(e),
        Ok(t) => {
            let v = twos_value(contents_of(s, t));
            if t.2 == 0 {
                Err(Error::Parser)
            } else if i64::MIN <= v <= i64::MAX {
                Ok(v as i64)
            } else {
                Err(Error::NumericOverflow)
            }
        },
    }
}

pub fn decode_i64(s: &[u8], tag: Tag) -> (r: Result<i64, Error>)
    ensures
        r == spec_decode_i64(s@, tag),
{
    let t = match parse_tagged(s, tag) {
        Ok(t) => t,
        Err(e) => return Err(e),
    };
    if t.len == 0 {
        return Err(Error::Parser);
    }
    let c = vstd::slice::slice_subrange(s, t.start, t.start + t.len);
    match i64_from_signed_bytes(c) {
        Some(v) => Ok(v),
        None => Err(Error::NumericOverflow),
    }
}

/// `INTEGER` into an `i32`: too large a value is an overflow.
pub open spec fn spec_decode_i32(s: Seq<u8>, tag: Tag) -> Result<i32, Error> {
    match spec_decode_i64(s, tag) {
        Err(e) => Err(e),
        Ok(v) => if i32::MIN <= v <= i32::MAX {
            Ok(v as i32)
        } else {
            Err(Error::NumericOverflow)
        },
    }
}

pub fn decode_i32(s: &[u8], tag: Tag) -> (r: Result<i32, Error>)
    ensures
        r == spec_decode_i32(s@, tag),
{
    match decode_i64(s, tag) {
        Err(e) => Err(e),
        Ok(v) => if i32::MIN as i64 <= v && v <= i32::MAX as i64 {
            Ok(v as i32)
        } else {
            Err(Error::NumericOverflow)
        },
    }
}

/// The largest first sub-identifier `r` whose component `r / 40` fits a
/// `u32`.
pub const MAX_OID_ROOT: u64 = 171798691839;

/// The sub-identifiers of `c`, one base-128 number after another; one
/// above `u32::MAX` is an overflow.
pub open spec fn oid_arcs(c: Seq<u8>) -> Result<Seq<u32>, Error>
    decreases c.len(),
{
    if c.len() == 0 {
        Ok(Seq::empty())
    } else {
        match base128_value(c, 0) {
            None => Err(Error::Parser),
            Some((v, n)) => if v > u32::MAX {
                Err(Error::NumericOverflow)
            } else if 0 < n <= c.len() {
                match oid_arcs(c.skip(n as int)) {
                    Ok(rest) => Ok(seq![v as u32] + rest),
                    Err(e) => Err(e),
                }
            } else {
                Err(Error::Parser)
            },
        }
    }
}

/// The components of an object identifier with contents `c`: the first
/// sub-identifier `r`, of any size, gives the two components `r / 40` and
/// `r % 40`; it is an overflow when `r / 40` does not fit a `u32`.
pub open spec fn oid_components(c: Seq<u8>) -> Result<Seq<u32>, Error> {
    if c.len() == 0 {
        Err(Error::Parser)
    } else {
        match base128_value(c, 0) {
            None => Err(Error::Parser),
            Some((r, n)) => if r / 40 > u32::MAX {
                Err(Error::NumericOverflow)
            } else {
                match oid_arcs(c.skip(n as int)) {
                    Ok(rest) => Ok(seq![(r / 40) as u32, (r % 40) as u32] + rest),
                    Err(e) => Err(e),
                }
            },
        }
    }
}

/// Decodes the contents octets of an object identifier.
pub fn oid_from_contents(c: &[u8]) -> (r: Result<Vec<u32>, Error>)
    ensures
        match r {
            Ok(v) => oid_components(c@) == Ok::<Seq<u32>, Error>(v@),
            Err(e) => oid_components(c@) == Err::<Seq<u32>, Error>(e),
        },
{
    if c.len() == 0 {
        return Err(Error::Parser);
    }
    proof {
        assert(c@.skip(0) =~= c@);
    }
    let (root, mut pos) = match parse_base128_upto(c, 0, MAX_OID_ROOT) {
        Ok(x) => x,
        Err(e) => {
            proof {
                if base128_value(c@, 0) is Some {
                    let r = base128_value(c@, 0)->Some_0.0;
                    if r > MAX_OID_ROOT {
                        assert(r / 40 > u32::MAX) by (nonlinear_arith)
                            requires r > 171798691839;
                    }
                }
            }
            return Err(e);
        },
    };
    proof {
        assert(c@.skip(0) == c@);
        assert(base128_value(c@, 0) is Some);
        let r = base128_value(c@, 0)->Some_0.0;
        assert(r <= 171798691839);
        assert(r == root as int);
        assert(r / 40 <= u32::MAX) by (nonlinear_arith)
            requires 0 <= r <= 171798691839;
        assert(r / 40 >= 0 && r % 40 >= 0 && r % 40 < 40) by (nonlinear_arith)
            requires 0 <= r;
    }
    let mut buffer: Vec<u32> = vec![(root / 40) as u32, (root % 40) as u32];
    proof {
        assert(buffer@ =~= seq![(root / 40) as u32, (root % 40) as u32]);
    }
    while pos < c.len()
        invariant
            pos <= c@.len(),
            match oid_arcs(c@.skip(pos as int)) {
                Ok(rest) => oid_components(c@) == Ok::<Seq<u32>, Error>(buffer@ + rest),
                Err(e) => oid_components(c@) == Err::<Seq<u32>, Error>(e),
            },
        decreases c@.len() - pos,
    {
        let (v, end) = match parse_base128_upto(c, pos, 4294967295) {
            Ok(x) => x,
            Err(e) => return Err(e),
        };
        let ghost before = buffer@;
        proof {
            assert(v <= u32::MAX);
            assert(c@.skip(pos as int).skip(end - pos) =~= c@.skip(end as int));
            match oid_arcs(c@.skip(end as int)) {
                Ok(rest) => {
                    assert(before.push(v as u32) + rest =~= before + (seq![v as u32] + rest));
                },
                Err(_) => {},
            }
        }
        buffer.push(v as u32);
        pos = end;
    }
    proof {
        assert(buffer@ + Seq::<u32>::empty() =~= buffer@);
    }
    Ok(buffer)
}

/// Contents holding the one sub-identifier `40 * a + b`, with `b < 40`,
/// decode to the two components `a` and `b`, however large `a` is within
/// a `u32`.
pub proof fn lemma_oid_root_split(c: Seq<u8>, a: u32, b: u32)
    requires
        b < 40,
        base128_value(c, 0) == Some::<(int, nat)>((40 * a + b, c.len())),
    ensures
        oid_components(c) == Ok::<Seq<u32>, Error>(seq![a, b]),
{
    let r = 40 * a + b;
    vstd::arithmetic::div_mod::lemma_fundamental_div_mod_converse(r, 40, a as int, b as int);
    assert(c.skip(c.len() as int).len() == 0);
    assert(seq![a, b] + Seq::<u32>::empty() =~= seq![a, b]);
}

/// `OBJECT IDENTIFIER`.
pub open spec fn spec_decode_oid(s: Seq<u8>, tag: Tag) -> Result<Seq<u32>, Error> {
    match spec_parse_tagged(s, tag) {
        Err(e) => Err(e),
        Ok(t) => oid_components(contents_of(s, t)),
    }
}

pub fn decode_object_identifier(s: &[u8], tag: Tag) -> (r: Result<ObjectIdentifier, Error>)
    ensures
        match r {
            Ok(v) => spec_decode_oid(s@, tag) == Ok::<Seq<u32>, Error>(v@),
            Err(e) => spec_decode_oid(s@, tag) == Err::<Seq<u32>, Error>(e),
        },
{
    let t = match parse_tagged(s, tag) {
        Ok(t) => t,
        Err(e) => return Err(e),
    };
    let c = vstd::slice::slice_subrange(s, t.start, t.start + t.len);
    match oid_from_contents(c) {
        Ok(v) => Ok(ObjectIdentifier::new(v)),
        Err(e) => Err(e),
    }
}

/// The bits of `d`, most significant bit of each octet first.
pub open spec fn octet_bits(d: Seq<u8>) -> Seq<bool> {
    Seq::new((8 * d.len()) as nat, |i: int| (d[i / 8] >> ((7 - i % 8) as u8)) & 1u8 == 1u8)
}

/// A primitive bit string with contents `c`: the first octet counts the
/// unused bits (at most 7) at the end of the last octet. The result holds
/// the bits and whether any were unused.
pub open spec fn primitive_bits(c: Seq<u8>) -> Result<(Seq<bool>, bool), Error> {
    if c.len() == 0 || c[0] > 7 || (c.len() == 1 && c[0] != 0) {
        Err(Error::Parser)
    } else {
        Ok((octet_bits(c.skip(1)).take(8 * (c.len() - 1) - c[0]), c[0] != 0))
    }
}

/// One bit string unit at the front of `s` tagged `tag`, primitive or
/// constructed: its bits, whether its last fragment had unused bits, and
/// how many octets it takes.
pub open spec fn spec_bit_unit(s: Seq<u8>, tag: Tag, depth: nat) -> Result<(Seq<bool>, bool, nat), Error>
    decreases depth, s.len(), 0nat,
{
    match spec_parse_value(s, depth) {
        Err(e) => Err(e),
        Ok(t) => if t.0.tag != tag {
            Err(Error::MismatchedTag { expected: tag, actual: t.0.tag })
        } else if t.1 + t.2 > s.len() {
            Err(Error::Parser)
        } else if !t.0.constructed {
            match primitive_bits(contents_of(s, t)) {
                Ok((b, p)) => Ok((b, p, t.3)),
                Err(e) => Err(e),
            }
        } else if depth == 0 {
            Err(Error::Parser)
        } else {
            match spec_bit_parts(contents_of(s, t), (depth - 1) as nat) {
                Ok((b, p)) => Ok((b, p, t.3)),
                Err(e) => Err(e),
            }
        },
    }
}

/// The fragments of a constructed bit string, concatenated; only the last
/// may have unused bits.
pub open spec fn spec_bit_parts(c: Seq<u8>, depth: nat) -> Result<(Seq<bool>, bool), Error>
    decreases depth, c.len(), 1nat,
{
    if c.len() == 0 {
        Ok((Seq::empty(), false))
    } else {
        match spec_bit_unit(c, universal(tag::BIT_STRING), depth) {
            Err(e) => Err(e),
            Ok((b, p, n)) => if n == 0 || n > c.len() {
                Err(Error::Parser)
            } else if n == c.len() {
                Ok((b, p))
            } else if p {
                Err(Error::Parser)
            } else {
                match spec_bit_parts(c.skip(n as int), depth) {
                    Ok((b2, p2)) => Ok((b + b2, p2)),
                    Err(e) => Err(e),
                }
            },
        }
    }
}

/// Appends the bits of a primitive bit string with contents `c` to `out`.
fn push_primitive_bits(c: &[u8], out: &mut BitString) -> (r: Result<bool, Error>)
    requires
        bits_of(*old(out)).len() + 8 * c@.len() < usize::MAX / 8,
    ensures
        match r {
            Ok(p) => primitive_bits(c@) is Ok && bits_of(*final(out)) == bits_of(*old(out))
                + primitive_bits(c@)->Ok_0.0 && p == primitive_bits(c@)->Ok_0.1
                && primitive_bits(c@)->Ok_0.0.len() <= 8 * c@.len(),
            Err(e) => primitive_bits(c@) == Err::<(Seq<bool>, bool), Error>(e),
        },
{
    if c.len() == 0 || c[0] > 7 || (c.len() == 1 && c[0] != 0) {
        return Err(Error::Parser);
    }
    let unused = c[0] as usize;
    let nbits: usize = 8 * (c.len() - 1) - unused;
    let ghost data = c@.skip(1);
    let ghost base = bits_of(*out);
    let mut i: usize = 0;
    while i < nbits
        invariant
            c@.len() >= 1,
            data == c@.skip(1),
            nbits == 8 * (c@.len() - 1) - c@[0],
            nbits <= 8 * data.len(),
            i <= nbits,
            base.len() + 8 * c@.len() < usize::MAX / 8,
            bits_of(*out) == base + octet_bits(data).take(i as int),
        decreases nbits - i,
    {
        let k: usize = i / 8;
        proof {
            assert(k < data.len()) by (nonlinear_arith)
                requires k == i / 8, i < nbits, nbits <= 8 * data.len();
        }
        let byte = c[1 + k];
        let bit = (byte >> ((7 - i % 8) as u8)) & 1u8 == 1u8;
        proof {
            assert(data[k as int] == byte);
            assert(octet_bits(data)[i as int] == bit);
            assert(octet_bits(data).take(i + 1) =~= octet_bits(data).take(i as int).push(bit));
        }
        out.push(bit);
        i = i + 1;
    }
    Ok(unused != 0)
}

/// Appends the bits of the bit string unit at the front of `s` to `out`;
/// returns whether its last fragment had unused bits, and its length.
#[verifier::rlimit(40)]
fn push_bit_unit(s: &[u8], tag: Tag, depth: usize, out: &mut BitString) -> (r: Result<(bool, usize), Error>)
    requires
        bits_of(*old(out)).len() + 8 * s@.len() < usize::MAX / 8,
    ensures
        match r {
            Ok((p, n)) => spec_bit_unit(s@, tag, depth as nat) is Ok
                && bits_of(*final(out)) == bits_of(*old(out)) + spec_bit_unit(s@, tag, depth as nat)->Ok_0.0
                && p == spec_bit_unit(s@, tag, depth as nat)->Ok_0.1
                && n == spec_bit_unit(s@, tag, depth as nat)->Ok_0.2
                && 0 < n <= s@.len()
                && spec_bit_unit(s@, tag, depth as nat)->Ok_0.0.len() <= 8 * n,
            Err(e) => spec_bit_unit(s@, tag, depth as nat) == Err::<(Seq<bool>, bool, nat), Error>(e),
        },
    decreases depth, s@.len(), 0nat,
{
    let t = match crate::parser::parse_value_at_depth(s, depth) {
        Ok(t) => t,
        Err(e) => return Err(e),
    };
    if t.identifier.tag != tag {
        return Err(Error::MismatchedTag { expected: tag, actual: t.identifier.tag });
    }
    let c = vstd::slice::slice_subrange(s, t.start, t.start + t.len);
    if !t.identifier.constructed {
        match push_primitive_bits(c, out) {
            Ok(p) => Ok((p, t.consumed)),
            Err(e) => Err(e),
        }
    } else if depth == 0 {
        Err(Error::Parser)
    } else {
        match push_bit_parts(c, depth - 1, out) {
            Ok(p) => Ok((p, t.consumed)),
            Err(e) => Err(e),
        }
    }
}

/// Appends the bits of the fragments in `c` to `out`; returns whether the
/// last fragment had unused bits.
#[verifier::rlimit(40)]
fn push_bit_parts(c: &[u8], depth: usize, out: &mut BitString) -> (r: Result<bool, Error>)
    requires
        bits_of(*old(out)).len() + 8 * c@.len() < usize::MAX / 8,
    ensures
        match r {
            Ok(p) => spec_bit_parts(c@, depth as nat) is Ok
                && bits_of(*final(out)) == bits_of(*old(out)) + spec_bit_parts(c@, depth as nat)->Ok_0.0
                && p == spec_bit_parts(c@, depth as nat)->Ok_0.1
                && spec_bit_parts(c@, depth as nat)->Ok_0.0.len() <= 8 * c@.len(),
            Err(e) => spec_bit_parts(c@, depth as nat) == Err::<(Seq<bool>, bool), Error>(e),
        },
    decreases depth, c@.len(), 1nat,
{
    if c.len() == 0 {
        proof {
            assert(bits_of(*out) + Seq::<bool>::empty() =~= bits_of(*out));
        }
        return Ok(false);
    }
    let ghost base = bits_of(*out);
    let ghost mut acc: Seq<bool> = Seq::empty();
    let mut pos: usize = 0;
    proof {
        assert(c@.skip(0) =~= c@);
        assert(base + acc =~= base);
    }
    loop
        invariant
            pos < c@.len(),
            base == bits_of(*old(out)),
            base.len() + 8 * c@.len() < usize::MAX / 8,
            bits_of(*out) == base + acc,
            acc.len() <= 8 * pos,
            match spec_bit_parts(c@.skip(pos as int), depth as nat) {
                Ok((b, p)) => spec_bit_parts(c@, depth as nat) == Ok::<(Seq<bool>, bool), Error>((acc + b, p)),
                Err(e) => spec_bit_parts(c@, depth as nat) == Err::<(Seq<bool>, bool), Error>(e),
            },
        decreases c@.len() - pos,
    {
        let t = vstd::slice::slice_subrange(c, pos, c.len());
        proof {
            assert(t@ =~= c@.skip(pos as int));
        }
        let ghost before = bits_of(*out);
        let (p, n) = match push_bit_unit(t, Tag::universal(tag::BIT_STRING), depth, out) {
            Ok(x) => x,
            Err(e) => return Err(e),
        };
        let ghost b = spec_bit_unit(t@, universal(tag::BIT_STRING), depth as nat)->Ok_0.0;
        proof {
            assert(bits_of(*out) == base + (acc + b)) by {
                assert(before + b =~= base + (acc + b));
            }
        }
        if n == t.len() {
            proof {
                assert(spec_bit_parts(t@, depth as nat) == Ok::<(Seq<bool>, bool), Error>((b, p)));
                assert(c@.skip(pos as int) == t@);
            }
            return Ok(p);
        }
        if p {
            return Err(Error::Parser);
        }
        proof {
            assert(t@.skip(n as int) =~= c@.skip(pos + n));
            match spec_bit_parts(c@.skip(pos + n), depth as nat) {
                Ok((b2, p2)) => {
                    assert(acc + (b + b2) =~= (acc + b) + b2);
                },
                Err(_) => {},
            }
            acc = acc + b;
        }
        pos = pos + n;
    }
}

/// The longest input a bit string is decoded from: eight bits for each
/// octet must stay within what a `BitString` can hold.
pub const MAX_BIT_STRING_INPUT: usize = usize::MAX / 128;

/// `BIT STRING`, primitive or constructed.
pub open spec fn spec_decode_bit_string(s: Seq<u8>, tag: Tag) -> Result<Seq<bool>, Error> {
    if s.len() > MAX_BIT_STRING_INPUT {
        Err(Error::NumericOverflow)
    } else {
        match spec_bit_unit(s, tag, MAX_DEPTH as nat) {
            Ok((b, _, _)) => Ok(b),
            Err(e) => Err(e),
        }
    }
}

pub fn decode_bit_string(s: &[u8], tag: Tag) -> (r: Result<BitString, Error>)
    ensures
        match r {
            Ok(b) => spec_decode_bit_string(s@, tag) == Ok::<Seq<bool>, Error>(bits_of(b)),
            Err(e) => spec_decode_bit_string(s@, tag) == Err::<Seq<bool>, Error>(e),
        },
{
    if s.len() > MAX_BIT_STRING_INPUT {
        return Err(Error::NumericOverflow);
    }
    let mut out = BitString::new();
    proof {
        assert(8 * s@.len() < usize::MAX / 8) by (nonlinear_arith)
            requires s@.len() <= usize::MAX / 128;
    }
    match push_bit_unit(s, tag, MAX_DEPTH, &mut out) {
        Ok(_) => {
            proof {
                assert(Seq::<bool>::empty() + spec_bit_unit(s@, tag, MAX_DEPTH as nat)->Ok_0.0
                    =~= spec_bit_unit(s@, tag, MAX_DEPTH as nat)->Ok_0.0);
            }
            Ok(out)
        },
        Err(e) => Err(e),
    }
}

/// A complete encoded value: all the octets its unit takes.
pub open spec fn spec_decode_any(s: Seq<u8>) -> Result<Seq<u8>, Error> {
    match spec_parse_value(s, MAX_DEPTH as nat) {
        Err(e) => Err(e),
        Ok(t) => Ok(s.take(t.3 as int)),
    }
}

pub fn decode_any(s: &[u8]) -> (r: Result<Any, Error>)
    ensures
        match r {
            Ok(a) => spec_decode_any(s@) == Ok::<Seq<u8>, Error>(a@),
            Err(e) => spec_decode_any(s@) == Err::<Seq<u8>, Error>(e),
        },
{
    let t = match parse_value(s) {
        Ok(t) => t,
        Err(e) => return Err(e),
    };
    let unit = vstd::slice::slice_subrange(s, 0, t.consumed);
    proof {
        assert(unit@ =~= s@.take(t.consumed as int));
    }
    Ok(Any::new(vstd::slice::slice_to_vec(unit)))
}

/// Decodes a `T` from the value at the front of `slice`.
pub fn decode<T: Decode>(slice: &[u8]) -> (r: Result<T, Error>)
    ensures
        T::decodes_to(slice@, r),
{
    T::decode(slice)
}

impl Decode for bool {
    open spec fn decodes_to(input: Seq<u8>, r: Result<bool, Error>) -> bool {
        r == spec_decode_bool(input, universal(tag::BOOL))
    }

    fn decode(input: &[u8]) -> (r: Result<bool, Error>) {
        decode_bool(input, Tag::universal(tag::BOOL))
    }
}

impl Decode for i32 {
    open spec fn decodes_to(input: Seq<u8>, r: Result<i32, Error>) -> bool {
        r == spec_decode_i32(input, universal(tag::INTEGER))
    }

    fn decode(input: &[u8]) -> (r: Result<i32, Error>) {
        decode_i32(input, Tag::universal(tag::INTEGER))
    }
}

impl Decode for i64 {
    open spec fn decodes_to(input: Seq<u8>, r: Result<i64, Error>) -> bool {
        r == spec_decode_i64(input, universal(tag::INTEGER))
    }

    fn decode(input: &[u8]) -> (r: Result<i64, Error>) {
        decode_i64(input, Tag::universal(tag::INTEGER))
    }
}

impl Decode for Integer {
    open spec fn decodes_to(input: Seq<u8>, r: Result<Integer, Error>) -> bool {
        r == spec_decode_integer(input, universal(tag::INTEGER))
    }

    fn decode(input: &[u8]) -> (r: Result<Integer, Error>) {
        decode_integer(input, Tag::universal(tag::INTEGER))
    }
}

impl Decode for () {
    open spec fn decodes_to(input: Seq<u8>, r: Result<(), Error>) -> bool {
        r == spec_decode_null(input, universal(tag::NULL))
    }

    fn decode(input: &[u8]) -> (r: Result<(), Error>) {
        decode_null(input, Tag::universal(tag::NULL))
    }
}

impl Decode for OctetString {
    open spec fn decodes_to(input: Seq<u8>, r: Result<OctetString, Error>) -> bool {
        match r {
            Ok(v) => spec_decode_octets(input, universal(tag::OCTET_STRING)) == Ok::<Seq<u8>, Error>(octets_of(v)),
            Err(e) => spec_decode_octets(input, universal(tag::OCTET_STRING)) == Err::<Seq<u8>, Error>(e),
        }
    }

    fn decode(input: &[u8]) -> (r: Result<OctetString, Error>) {
        decode_octet_string(input, Tag::universal(tag::OCTET_STRING))
    }
}

impl Decode for ObjectIdentifier {
    open spec fn decodes_to(input: Seq<u8>, r: Result<ObjectIdentifier, Error>) -> bool {
        match r {
            Ok(v) => spec_decode_oid(input, universal(tag::OBJECT_IDENTIFIER)) == Ok::<Seq<u32>, Error>(v@),
            Err(e) => spec_decode_oid(input, universal(tag::OBJECT_IDENTIFIER)) == Err::<Seq<u32>, Error>(e),
        }
    }

    fn decode(input: &[u8]) -> (r: Result<ObjectIdentifier, Error>) {
        decode_object_identifier(input, Tag::universal(tag::OBJECT_IDENTIFIER))
    }
}

impl Decode for BitString {
    open spec fn decodes_to(input: Seq<u8>, r: Result<BitString, Error>) -> bool {
        match r {
            Ok(v) => spec_decode_bit_string(input, universal(tag::BIT_STRING)) == Ok::<Seq<bool>, Error>(bits_of(v)),
            Err(e) => spec_decode_bit_string(input, universal(tag::BIT_STRING)) == Err::<Seq<bool>, Error>(e),
        }
    }

    fn decode(input: &[u8]) -> (r: Result<BitString, Error>) {
        decode_bit_string(input, Tag::universal(tag::BIT_STRING))
    }
}

impl Decode for Any {
    open spec fn decodes_to(input: Seq<u8>, r: Result<Any, Error>) -> bool {
        match r {
            Ok(v) => spec_decode_any(input) == Ok::<Seq<u8>, Error>(v@),
            Err(e) => spec_decode_any(input) == Err::<Seq<u8>, Error>(e),
        }
    }

    fn decode(input: &[u8]) -> (r: Result<Any, Error>) {
        decode_any(input)
    }
}

/// Whether `b` is the shortest two's-complement form of its value: no
/// leading octet that only repeats the sign of the next one.
pub open spec fn is_minimal_twos(b: Seq<u8>) -> bool {
    b.len() >= 1 && !(b.len() >= 2 && ((b[0] == 0 && b[1] < 128) || (b[0] == 255 && b[1] >= 128)))
}

/// The shortest big-endian two's-complement octets of `v`.
pub open spec fn twos_encode(v: int) -> Seq<u8>
    decreases (if v < 0 { -v } else { v }),
{
    if -128 <= v < 128 {
        seq![(v % 256) as u8]
    } else {
        twos_encode(v / 256).push((v % 256) as u8)
    }
}

proof fn lemma_split_octet(v: int, x: int, l: int)
    requires
        v == x * 256 + l,
        0 <= l < 256,
    ensures
        v / 256 == x,
        v % 256 == l,
{
    vstd::arithmetic::div_mod::lemma_fundamental_div_mod_converse(v, 256, x, l);
}

/// Encoding a value and reading it back gives the value, and the encoding
/// is in shortest form.
pub proof fn lemma_twos_encode_decodes(v: int)
    ensures
        twos_value(twos_encode(v)) == v,
        is_minimal_twos(twos_encode(v)),
    decreases (if v < 0 { -v } else { v }),
{
    let q = v / 256;
    let l = v % 256;
    vstd::arithmetic::div_mod::lemma_fundamental_div_mod(v, 256);
    if -128 <= v < 128 {
    } else {
        lemma_twos_encode_decodes(q);
        let e = twos_encode(v);
        let p = twos_encode(q);
        assert(e.drop_last() == p);
        assert(e.len() >= 2);
        assert(twos_value(e) == q * 256 + l);
        if p.len() == 1 {
            assert(e[0] == p[0]);
            if q >= 0 {
                assert(p[0] == q);
            } else {
                assert(p[0] == q + 256);
            }
        } else {
            assert(e[0] == p[0] && e[1] == p[1]);
        }
    }
}

/// A shortest-form encoding with more than one octet holds a value outside
/// the range of one octet.
proof fn lemma_minimal_is_wide(b: Seq<u8>)
    requires
        is_minimal_twos(b),
        b.len() >= 2,
    ensures
        twos_value(b) >= 128 || twos_value(b) < -128,
    decreases b.len(),
{
    let p = b.drop_last();
    let x = twos_value(p);
    let l = b.last() as int;
    assert(twos_value(b) == x * 256 + l);
    if p.len() >= 2 {
        assert(p[0] == b[0] && p[1] == b[1]);
        lemma_minimal_is_wide(p);
    }
    assert(x >= 1 || x <= -2 || (x == 0 && l >= 128) || (x == -1 && l < 128));
    assert(x * 256 + l >= 128 || x * 256 + l < -128) by (nonlinear_arith)
        requires
            x >= 1 || x <= -2 || (x == 0 && l >= 128) || (x == -1 && l < 128),
            0 <= l < 256;
}

/// Reading shortest-form octets and encoding the value again gives back
/// the same octets.
pub proof fn lemma_twos_minimal_round_trip(b: Seq<u8>)
    requires
        is_minimal_twos(b),
    ensures
        twos_encode(twos_value(b)) == b,
    decreases b.len(),
{
    let v = twos_value(b);
    if b.len() == 1 {
        assert(twos_encode(v) =~= b);
    } else {
        let p = b.drop_last();
        let l = b.last() as int;
        lemma_minimal_is_wide(b);
        lemma_split_octet(v, twos_value(p), l);
        lemma_twos_minimal_round_trip(p);
        assert(twos_encode(v) =~= b);
    }
}

/// Any `INTEGER` that decodes into an `i64` encodes back, in shortest form,
/// to its contents with redundant sign octets removed; and to the contents
/// themselves when they were in shortest form.
pub proof fn lemma_integer_round_trip(s: Seq<u8>, tag: Tag)
    requires
        spec_decode_i64(s, tag) is Ok,
    ensures
        ({
            let c = contents_of(s, spec_parse_tagged(s, tag)->Ok_0);
            let v = spec_decode_i64(s, tag)->Ok_0 as int;
            &&& v == twos_value(c)
            &&& twos_value(twos_encode(v)) == v
            &&& is_minimal_twos(twos_encode(v))
            &&& (is_minimal_twos(c) ==> twos_encode(v) == c)
        }),
{
    let c = contents_of(s, spec_parse_tagged(s, tag)->Ok_0);
    lemma_twos_encode_decodes(twos_value(c));
    if is_minimal_twos(c) {
        lemma_twos_minimal_round_trip(c);
    }
}

/// Peeking reads the same tag that decoding the unit then finds, and fails
/// exactly where reading the identifier fails; it consumes nothing, as it
/// only reads its input.
pub proof fn lemma_peek_agrees_with_parse(s: Seq<u8>, depth: nat)
    ensures
        spec_peek_tag(s) is Err ==> spec_parse_value(s, depth) is Err
            && spec_parse_value(s, depth)->Err_0 == spec_peek_tag(s)->Err_0,
        spec_parse_value(s, depth) is Ok ==> spec_peek_tag(s) == Ok::<Tag, Error>(spec_parse_value(s, depth)->Ok_0.0.tag),
{
}

/// A unit whose tag is not the one asked for is a tag mismatch, whatever
/// type is decoded.
pub proof fn lemma_tag_mismatch_rejected(s: Seq<u8>, tag: Tag)
    requires
        spec_parse_value(s, MAX_DEPTH as nat) is Ok,
        spec_parse_value(s, MAX_DEPTH as nat)->Ok_0.0.tag != tag,
    ensures
        ({
            let e = Error::MismatchedTag { expected: tag, actual: spec_parse_value(s, MAX_DEPTH as nat)->Ok_0.0.tag };
            &&& spec_decode_bool(s, tag) == Err::<bool, Error>(e)
            &&& spec_decode_null(s, tag) == Err::<(), Error>(e)
            &&& spec_decode_integer(s, tag) == Err::<Integer, Error>(e)
            &&& spec_decode_i64(s, tag) == Err::<i64, Error>(e)
            &&& spec_decode_octets(s, tag) == Err::<Seq<u8>, Error>(e)
            &&& spec_decode_oid(s, tag) == Err::<Seq<u32>, Error>(e)
        }),
{
}

/// A `BOOLEAN` of one contents octet is true exactly when that octet is not
/// zero.
pub proof fn lemma_bool_nonzero_is_true(b: u8)
    ensures
        spec_decode_bool(seq![1u8, 1u8, b], universal(tag::BOOL)) == Ok::<bool, Error>(b != 0),
{
    let s = seq![1u8, 1u8, b];
    assert(s.skip(1) =~= seq![1u8, b]);
    assert(spec_parse_identifier(s) == Ok::<(Identifier, nat), Error>((identifier_of(1u8, 1u32), 1nat)));
    assert(spec_parse_value(s, MAX_DEPTH as nat) == Ok::<(Identifier, nat, nat, nat), Error>((identifier_of(1u8, 1u32), 2nat, 1nat, 3nat)));
}

/// A `NULL` with any contents is a length mismatch.
pub proof fn lemma_null_with_contents_rejected(s: Seq<u8>, tag: Tag)
    requires
        spec_parse_tagged(s, tag) is Ok,
        spec_parse_tagged(s, tag)->Ok_0.2 != 0,
    ensures
        spec_decode_null(s, tag) == Err::<(), Error>(
            Error::MismatchedLength { expected: 0, actual: spec_parse_tagged(s, tag)->Ok_0.2 as usize },
        ),
{
}

/// A primitive `BIT STRING` unit in short form: `unused` bits at the end
/// of the data octets `d`.
pub open spec fn bit_fragment(unused: u8, d: Seq<u8>) -> Seq<u8> {
    seq![3u8, (d.len() + 1) as u8, unused] + d
}

proof fn lemma_fragment_parses(unused: u8, d: Seq<u8>, rest: Seq<u8>, depth: nat)
    requires
        d.len() < 127,
    ensures
        spec_parse_value(bit_fragment(unused, d) + rest, depth) == Ok::<(Identifier, nat, nat, nat), Error>(
            (identifier_of(3u8, 3u32), 2nat, (d.len() + 1) as nat, (d.len() + 3) as nat),
        ),
        contents_of(bit_fragment(unused, d) + rest, (identifier_of(3u8, 3u32), 2nat, (d.len() + 1) as nat, (d.len() + 3) as nat))
            =~= seq![unused] + d,
{
    let s = bit_fragment(unused, d) + rest;
    assert(s[0] == 3u8);
    assert(s.skip(1)[0] == (d.len() + 1) as u8);
    assert(spec_parse_identifier(s) == Ok::<(Identifier, nat), Error>((identifier_of(3u8, 3u32), 1nat)));
}

proof fn lemma_fragment_bits(unused: u8, d: Seq<u8>, rest: Seq<u8>, depth: nat)
    requires
        d.len() < 127,
        unused <= 7,
        d.len() > 0 || unused == 0,
    ensures
        spec_bit_unit(bit_fragment(unused, d) + rest, universal(tag::BIT_STRING), depth)
            == Ok::<(Seq<bool>, bool, nat), Error>(
            (octet_bits(d).take(8 * d.len() - unused), unused != 0, (d.len() + 3) as nat),
        ),
{
    lemma_fragment_parses(unused, d, rest, depth);
    let c = seq![unused] + d;
    assert(c.skip(1) =~= d);
}

proof fn lemma_octet_bits_concat(d1: Seq<u8>, d2: Seq<u8>, unused: int)
    requires
        0 <= unused <= 8 * d2.len(),
    ensures
        octet_bits(d1 + d2).take(8 * (d1.len() + d2.len()) - unused)
            =~= octet_bits(d1) + octet_bits(d2).take(8 * d2.len() - unused),
{
    let n1 = d1.len() as int;
    let lhs = octet_bits(d1 + d2).take(8 * (d1.len() + d2.len()) - unused);
    let rhs = octet_bits(d1) + octet_bits(d2).take(8 * d2.len() - unused);
    assert forall|i: int| 0 <= i < lhs.len() implies lhs[i] == rhs[i] by {
        if i < 8 * n1 {
            assert(i / 8 < n1) by (nonlinear_arith)
                requires 0 <= i < 8 * n1;
            assert(i / 8 >= 0) by (nonlinear_arith)
                requires 0 <= i;
        } else {
            let j = i - 8 * n1;
            vstd::arithmetic::div_mod::lemma_fundamental_div_mod(j, 8);
            vstd::arithmetic::div_mod::lemma_fundamental_div_mod_converse(i, 8, n1 + j / 8, j % 8);
        }
    }
}

/// Short-form primitive fragments carrying the octets of `ds` in order;
/// only the last has unused bits, `unused` of them.
pub open spec fn bit_fragments(ds: Seq<Seq<u8>>, unused: u8) -> Seq<u8>
    decreases ds.len(),
{
    if ds.len() == 0 {
        Seq::empty()
    } else if ds.len() == 1 {
        bit_fragment(unused, ds[0])
    } else {
        bit_fragment(0, ds[0]) + bit_fragments(ds.drop_first(), unused)
    }
}

/// The octets of `ds`, one after another.
pub open spec fn joined(ds: Seq<Seq<u8>>) -> Seq<u8>
    decreases ds.len(),
{
    if ds.len() == 0 {
        Seq::empty()
    } else {
        ds[0] + joined(ds.drop_first())
    }
}

/// The constructed, indefinite-length `BIT STRING` unit with contents `f`.
pub open spec fn constructed_unit(f: Seq<u8>) -> Seq<u8> {
    seq![0x23u8, 0x80u8] + f + seq![0u8, 0u8]
}

proof fn lemma_joined_holds_last(ds: Seq<Seq<u8>>)
    requires
        ds.len() >= 1,
    ensures
        joined(ds).len() >= ds.last().len(),
    decreases ds.len(),
{
    if ds.len() > 1 {
        lemma_joined_holds_last(ds.drop_first());
    }
}

proof fn lemma_fragments_scan(ds: Seq<Seq<u8>>, unused: u8, depth: nat)
    requires
        forall|i: int| 0 <= i < ds.len() ==> (#[trigger] ds[i]).len() < 127,
    ensures
        spec_scan_parts(bit_fragments(ds, unused) + seq![0u8, 0u8], depth)
            == Ok::<nat, Error>(bit_fragments(ds, unused).len()),
    decreases ds.len(),
{
    let eoc = seq![0u8, 0u8];
    let f = bit_fragments(ds, unused);
    if ds.len() == 0 {
        assert(f + eoc =~= eoc);
    } else if ds.len() == 1 {
        lemma_fragment_parses(unused, ds[0], eoc, depth);
        assert((f + eoc).skip(f.len() as int) =~= eoc);
        assert(spec_scan_parts(eoc, depth) == Ok::<nat, Error>(0));
    } else {
        let f0 = bit_fragment(0, ds[0]);
        let rest = bit_fragments(ds.drop_first(), unused);
        assert forall|i: int| 0 <= i < ds.drop_first().len() implies (#[trigger] ds.drop_first()[i]).len() < 127 by {
            assert(ds.drop_first()[i] == ds[i + 1]);
        }
        lemma_fragments_scan(ds.drop_first(), unused, depth);
        assert(f + eoc =~= f0 + (rest + eoc));
        lemma_fragment_parses(0, ds[0], rest + eoc, depth);
        assert((f + eoc).skip(f0.len() as int) =~= rest + eoc);
    }
}

#[verifier::rlimit(40)]
proof fn lemma_fragments_bits(ds: Seq<Seq<u8>>, unused: u8, depth: nat)
    requires
        ds.len() >= 1,
        forall|i: int| 0 <= i < ds.len() ==> (#[trigger] ds[i]).len() < 127,
        unused <= 7,
        ds.last().len() > 0 || unused == 0,
    ensures
        spec_bit_parts(bit_fragments(ds, unused), depth) == Ok::<(Seq<bool>, bool), Error>(
            (octet_bits(joined(ds)).take(8 * joined(ds).len() - unused), unused != 0),
        ),
    decreases ds.len(),
{
    let f = bit_fragments(ds, unused);
    if ds.len() == 1 {
        assert(f + Seq::<u8>::empty() =~= f);
        lemma_fragment_bits(unused, ds[0], Seq::empty(), depth);
        assert(joined(ds.drop_first()) == Seq::<u8>::empty());
        assert(joined(ds) =~= ds[0]);
    } else {
        let d0 = ds[0];
        let tail = ds.drop_first();
        let rest = bit_fragments(tail, unused);
        let j = joined(tail);
        assert forall|i: int| 0 <= i < tail.len() implies (#[trigger] tail[i]).len() < 127 by {
            assert(tail[i] == ds[i + 1]);
        }
        assert(tail.last() == ds.last());
        lemma_fragments_bits(tail, unused, depth);
        lemma_joined_holds_last(tail);
        lemma_fragment_bits(0, d0, rest, depth);
        assert(rest.len() >= 3);
        assert(f.skip(d0.len() + 3int) =~= rest);
        assert(octet_bits(d0).take(8 * d0.len() - 0) =~= octet_bits(d0));
        lemma_octet_bits_concat(d0, j, unused as int);
    }
}

proof fn lemma_constructed_parses(ds: Seq<Seq<u8>>, unused: u8, depth: nat)
    requires
        forall|i: int| 0 <= i < ds.len() ==> (#[trigger] ds[i]).len() < 127,
        depth > 0,
    ensures
        ({
            let f = bit_fragments(ds, unused);
            let t = (identifier_of(0x23u8, 3u32), 2nat, f.len(), f.len() + 4);
            &&& spec_parse_value(constructed_unit(f), depth) == Ok::<(Identifier, nat, nat, nat), Error>(t)
            &&& contents_of(constructed_unit(f), t) =~= f
        }),
{
    let f = bit_fragments(ds, unused);
    let eoc = seq![0u8, 0u8];
    let s = constructed_unit(f);
    assert(s.skip(2) =~= f + eoc);
    assert(s[0] == 0x23u8 && s.skip(1)[0] == 0x80u8);
    assert(spec_parse_identifier(s) == Ok::<(Identifier, nat), Error>((identifier_of(0x23u8, 3u32), 1nat)));
    lemma_fragments_scan(ds, unused, (depth - 1) as nat);
}

/// A bit string sent as one primitive unit decodes to the same bits as the
/// same data split over any number of primitive fragments of a
/// constructed, indefinite-length unit, where only the last fragment has
/// unused bits: the fragments' headers add no bits and leave no gaps.
pub proof fn lemma_bit_string_forms_agree(ds: Seq<Seq<u8>>, unused: u8)
    requires
        ds.len() >= 1,
        forall|i: int| 0 <= i < ds.len() ==> (#[trigger] ds[i]).len() < 127,
        joined(ds).len() < 127,
        unused <= 7,
        ds.last().len() > 0 || unused == 0,
        constructed_unit(bit_fragments(ds, unused)).len() <= MAX_BIT_STRING_INPUT,
    ensures
        spec_decode_bit_string(constructed_unit(bit_fragments(ds, unused)), universal(tag::BIT_STRING))
            == spec_decode_bit_string(bit_fragment(unused, joined(ds)), universal(tag::BIT_STRING)),
        spec_decode_bit_string(bit_fragment(unused, joined(ds)), universal(tag::BIT_STRING)) is Ok,
{
    let depth = MAX_DEPTH as nat;
    let p = bit_fragment(unused, joined(ds));
    assert(p + Seq::<u8>::empty() =~= p);
    lemma_joined_holds_last(ds);
    lemma_fragment_bits(unused, joined(ds), Seq::empty(), depth);
    lemma_constructed_parses(ds, unused, depth);
    lemma_fragments_bits(ds, unused, (depth - 1) as nat);
}

} // verus!
