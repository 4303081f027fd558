use vstd::prelude::*;

use crate::error::Error;
use crate::tag::{Class, Tag};

verus! {

/// The decoded identifier octets of one TLV unit.
#[derive(Clone, Copy, Debug, PartialEq, Eq, Structural)]
pub struct Identifier {
    pub tag: Tag,
    pub constructed: bool,
}

/// The decoded length octets of one TLV unit.
#[derive(Clone, Copy, Debug, PartialEq, Eq, Structural)]
pub enum Length {
    Definite(usize),
    Indefinite,
}

/// The class named by the two high bits of an identifier octet.
pub open spec fn class_of(b: u8) -> Class {
    if b / 64 == 0 {
        Class::Universal
    } else if b / 64 == 1 {
        Class::Application
    } else if b / 64 == 2 {
        Class::Context
    } else {
        Class::Private
    }
}

pub open spec fn identifier_of(b: u8, number: u32) -> Identifier {
    Identifier { tag: Tag { class: class_of(b), value: number }, constructed: (b / 32) % 2 == 1 }
}

/// A base-128 number at the front of `s`, most significant group first,
/// continued while the high bit is set, added to `acc` already read:
/// the number and how many octets it takes.
pub open spec fn base128(s: Seq<u8>, acc: int) -> Result<(u32, nat), Error>
    decreases s.len(),
{
    if s.len() == 0 {
        Err(Error::Parser)
    } else {
        let v = acc * 128 + (s[0] % 128) as int;
        if v > u32::MAX {
            Err(Error::NumericOverflow)
        } else if s[0] < 128 {
            Ok((v as u32, 1nat))
        } else {
            match base128(s.drop_first(), v) {
                Ok((x, n)) => Ok((x, n + 1)),
                Err(e) => Err(e),
            }
        }
    }
}

/// A base-128 result whose length counts `k` more octets.
pub open spec fn shifted(r: Result<(u32, nat), Error>, k: nat) -> Result<(u32, nat), Error> {
    match r {
        Ok((x, n)) => Ok((x, n + k)),
        Err(e) => Err(e),
    }
}

/// Reads one base-128 number starting at `start`; returns it and the index
/// just after its last octet.
pub fn parse_base128(s: &[u8], start: usize) -> (r: Result<(u32, usize), Error>)
    requires
        start <= s@.len(),
    ensures
        match r {
            Ok((v, end)) => base128(s@.skip(start as int), 0) == Ok::<(u32, nat), Error>((v, (end - start) as nat))
                && start < end <= s@.len(),
            Err(e) => base128(s@.skip(start as int), 0) == Err::<(u32, nat), Error>(e),
        },
{
    let mut i: usize = start;
    let mut acc: u64 = 0;
    proof {
        assert(shifted(base128(s@.skip(start as int), 0), 0) == base128(s@.skip(start as int), 0));
    }
    while i < s.len()
        invariant
            start <= i <= s@.len(),
            acc <= u32::MAX,
            base128(s@.skip(start as int), 0) == shifted(base128(s@.skip(i as int), acc as int), (i - start) as nat),
        decreases s@.len() - i,
    {
        let b = s[i];
        let v: u64 = acc * 128 + (b % 128) as u64;
        proof {
            let t = s@.skip(i as int);
            assert(t[0] == b);
            assert(t.drop_first() =~= s@.skip(i + 1));
        }
        if v > u32::MAX as u64 {
            return Err(Error::NumericOverflow);
        }
        if b < 128 {
            return Ok((v as u32, i + 1));
        }
        acc = v;
        i = i + 1;
    }
    proof {
        assert(s@.skip(i as int).len() == 0);
    }
    Err(Error::Parser)
}

/// The base-128 number at the front of `s`, with no bound on its size,
/// added to `acc` already read: the number and how many octets it takes;
/// `None` when no octet ends the run.
pub open spec fn base128_value(s: Seq<u8>, acc: int) -> Option<(int, nat)>
    decreases s.len(),
{
    if s.len() == 0 {
        None
    } else {
        let v = acc * 128 + (s[0] % 128) as int;
        if s[0] < 128 {
            Some((v, 1nat))
        } else {
            match base128_value(s.drop_first(), v) {
                Some((x, n)) => Some((x, n + 1)),
                None => None,
            }
        }
    }
}

/// An unbounded base-128 result whose length counts `k` more octets.
pub open spec fn shifted_value(r: Option<(int, nat)>, k: nat) -> Option<(int, nat)> {
    match r {
        Some((x, n)) => Some((x, n + k)),
        None => None,
    }
}

/// Reads one base-128 number starting at `start`, which may be at most
/// `max`; returns it and the index just after its last octet. A run that
/// does not end is a parse error, a number above `max` an overflow.
pub fn parse_base128_upto(s: &[u8], start: usize, max: u64) -> (r: Result<(u64, usize), Error>)
    requires
        start <= s@.len(),
        max <= u64::MAX / 256,
    ensures
        match base128_value(s@.skip(start as int), 0) {
            None => r == Err::<(u64, usize), Error>(Error::Parser),
            Some((v, n)) => if v > max {
                r == Err::<(u64, usize), Error>(Error::NumericOverflow)
            } else {
                start + n <= s@.len() && 0 < n && r is Ok && r->Ok_0.0 == v && r->Ok_0.1 == start + n
            },
        },
{
    let mut i: usize = start;
    let mut acc: u64 = 0;
    let mut over = false;
    let ghost mut g: int = 0;
    proof {
        assert(shifted_value(base128_value(s@.skip(start as int), 0), 0) == base128_value(s@.skip(start as int), 0));
    }
    while i < s.len()
        invariant
            start <= i <= s@.len(),
            max <= u64::MAX / 256,
            g >= 0,
            over ==> g > max,
            !over ==> acc == g && acc <= max,
            base128_value(s@.skip(start as int), 0) == shifted_value(base128_value(s@.skip(i as int), g), (i - start) as nat),
        decreases s@.len() - i,
    {
        let b = s[i];
        let ghost v = g * 128 + (b % 128) as int;
        proof {
            let t = s@.skip(i as int);
            assert(t[0] == b);
            assert(t.drop_first() =~= s@.skip(i + 1));
        }
        let next: u64 = if over { acc } else { acc * 128 + (b % 128) as u64 };
        if b < 128 {
            if over || next > max {
                return Err(Error::NumericOverflow);
            }
            return Ok((next, i + 1));
        }
        if over || next > max {
            over = true;
        } else {
            acc = next;
        }
        proof {
            g = v;
        }
        i = i + 1;
    }
    proof {
        assert(s@.skip(i as int).len() == 0);
    }
    Err(Error::Parser)
}

/// The identifier at the front of `s` and how many octets it takes.
pub open spec fn spec_parse_identifier(s: Seq<u8>) -> Result<(Identifier, nat), Error> {
    if s.len() == 0 {
        Err(Error::Parser)
    } else if s[0] % 32 < 31 {
        Ok((identifier_of(s[0], (s[0] % 32) as u32), 1nat))
    } else {
        match base128(s.drop_first(), 0) {
            Ok((v, n)) => Ok((identifier_of(s[0], v), n + 1)),
            Err(e) => Err(e),
        }
    }
}

/// Parses the identifier octets at the front of `s`.
pub fn parse_identifier(s: &[u8]) -> (r: Result<(Identifier, usize), Error>)
    ensures
        match r {
            Ok((id, n)) => spec_parse_identifier(s@) == Ok::<(Identifier, nat), Error>((id, n as nat)) && 1 <= n <= s@.len(),
            Err(e) => spec_parse_identifier(s@) == Err::<(Identifier, nat), Error>(e),
        },
{
    if s.len() == 0 {
        return Err(Error::Parser);
    }
    let b = s[0];
    let class = if b / 64 == 0 {
        Class::Universal
    } else if b / 64 == 1 {
        Class::Application
    } else if b / 64 == 2 {
        Class::Context
    } else {
        Class::Private
    };
    let constructed = (b / 32) % 2 == 1;
    if b % 32 < 31 {
        return Ok((Identifier { tag: Tag { class, value: (b % 32) as u32 }, constructed }, 1));
    }
    proof {
        assert(s@.skip(1) =~= s@.drop_first());
    }
    match parse_base128(s, 1) {
        Ok((v, end)) => Ok((Identifier { tag: Tag { class, value: v }, constructed }, end)),
        Err(e) => Err(e),
    }
}

/// The unsigned big-endian value of `s`.
pub open spec fn be_value(s: Seq<u8>) -> nat
    decreases s.len(),
{
    if s.len() == 0 {
        0
    } else {
        be_value(s.drop_last()) * 256 + s.last() as nat
    }
}

/// Reading more octets never makes a big-endian value smaller.
pub proof fn lemma_be_value_grows(s: Seq<u8>, i: int)
    requires
        0 <= i <= s.len(),
    ensures
        be_value(s.take(i)) <= be_value(s),
    decreases s.len() - i,
{
    if i < s.len() {
        lemma_be_value_grows(s, i + 1);
        assert(s.take(i + 1).drop_last() =~= s.take(i));
    } else {
        assert(s.take(i) =~= s);
    }
}

/// The length at the front of `s` and how many octets it takes.
pub open spec fn spec_parse_length(s: Seq<u8>) -> Result<(Length, nat), Error> {
    if s.len() == 0 {
        Err(Error::Parser)
    } else if s[0] < 128 {
        Ok((Length::Definite(s[0] as usize), 1nat))
    } else if s[0] == 128 {
        Ok((Length::Indefinite, 1nat))
    } else {
        let count = s[0] - 128;
        if 1 + count > s.len() {
            Err(Error::Parser)
        } else {
            let v = be_value(s.subrange(1, 1 + count));
            if v > usize::MAX {
                Err(Error::Parser)
            } else {
                Ok((Length::Definite(v as usize), (1 + count) as nat))
            }
        }
    }
}

/// Parses the length octets at the front of `s`.
pub fn parse_length(s: &[u8]) -> (r: Result<(Length, usize), Error>)
    ensures
        match r {
            Ok((len, n)) => spec_parse_length(s@) == Ok::<(Length, nat), Error>((len, n as nat)) && 1 <= n <= s@.len(),
            Err(e) => spec_parse_length(s@) == Err::<(Length, nat), Error>(e),
        },
{
    if s.len() == 0 {
        return Err(Error::Parser);
    }
    let b = s[0];
    if b < 128 {
        return Ok((Length::Definite(b as usize), 1));
    }
    if b == 128 {
        return Ok((Length::Indefinite, 1));
    }
    let count = (b - 128) as usize;
    if count >= s.len() {
        return Err(Error::Parser);
    }
    let ghost digits = s@.subrange(1, 1 + count as int);
    let mut v: usize = 0;
    let mut i: usize = 0;
    while i < count
        invariant
            count < s@.len(),
            s@[0] > 128,
            count == s@[0] - 128,
            i <= count,
            digits == s@.subrange(1, 1 + count as int),
            v as nat == be_value(digits.take(i as int)),
        decreases count - i,
    {
        let d = s[1 + i];
        proof {
            assert(digits.take(i + 1).drop_last() =~= digits.take(i as int));
            assert(digits.take(i + 1).last() == d);
        }
        if v > (usize::MAX - d as usize) / 256 {
            proof {
                assert(v * 256 + d > usize::MAX) by (nonlinear_arith)
                    requires v > (usize::MAX - d as usize) / 256, d < 256;
                assert(be_value(digits.take(i + 1)) == be_value(digits.take(i as int)) * 256 + d);
                lemma_be_value_grows(digits, i + 1);
                assert(digits.take(count as int) =~= digits);
                assert(be_value(digits) > usize::MAX);
            }
            return Err(Error::Parser);
        }
        proof {
            assert(v * 256 + d <= usize::MAX) by (nonlinear_arith)
                requires v <= (usize::MAX - d as usize) / 256, d < 256;
        }
        v = v * 256 + d as usize;
        i = i + 1;
    }
    proof {
        assert(digits.take(count as int) =~= digits);
    }
    Ok((Length::Definite(v), 1 + count))
}

/// How deep indefinite-length values may nest inside one another.
pub const MAX_DEPTH: usize = 256;

/// One parsed TLV unit of `s`: its identifier, where its contents start,
/// how long they are, and how many octets the whole unit takes, end marker
/// included. `depth` bounds the nesting of indefinite-length units.
pub open spec fn spec_parse_value(s: Seq<u8>, depth: nat) -> Result<(Identifier, nat, nat, nat), Error>
    decreases depth, s.len(), 0nat,
{
    match spec_parse_identifier(s) {
        Err(e) => Err(e),
        Ok((id, a)) => match spec_parse_length(s.skip(a as int)) {
            Err(e) => Err(e),
            Ok((len, b)) => {
                let h = a + b;
                match len {
                    Length::Definite(n) => if h + n <= s.len() {
                        Ok((id, h, n as nat, (h + n) as nat))
                    } else {
                        Err(Error::Parser)
                    },
                    Length::Indefinite => if !id.constructed || depth == 0 || h > s.len() {
                        Err(Error::Parser)
                    } else {
                        match spec_scan_parts(s.skip(h as int), (depth - 1) as nat) {
                            Ok(k) => Ok((id, h, k, h + k + 2)),
                            Err(e) => Err(e),
                        }
                    },
                }
            },
        },
    }
}

/// Whether `s` starts with an end-of-contents marker.
pub open spec fn starts_with_eoc(s: Seq<u8>) -> bool {
    s.len() >= 2 && s[0] == 0 && s[1] == 0
}

/// The number of octets of the TLV units at the front of `s` that come
/// before an end-of-contents marker.
pub open spec fn spec_scan_parts(s: Seq<u8>, depth: nat) -> Result<nat, Error>
    decreases depth, s.len(), 1nat,
{
    if starts_with_eoc(s) {
        Ok(0)
    } else {
        match spec_parse_value(s, depth) {
            Err(e) => Err(e),
            Ok((_, _, _, n)) => if 0 < n <= s.len() {
                match spec_scan_parts(s.skip(n as int), depth) {
                    Ok(k) => Ok(n + k),
                    Err(e) => Err(e),
                }
            } else {
                Err(Error::Parser)
            },
        }
    }
}

/// A parsed TLV unit: contents are `s[start..start + len]`, and the unit
/// takes `consumed` octets of the input.
#[derive(Clone, Copy, Debug, PartialEq, Eq, Structural)]
pub struct Tlv {
    pub identifier: Identifier,
    pub start: usize,
    pub len: usize,
    pub consumed: usize,
}

pub open spec fn tlv_model(t: Tlv) -> (Identifier, nat, nat, nat) {
    (t.identifier, t.start as nat, t.len as nat, t.consumed as nat)
}

/// Parses the TLV unit at the front of `s`, with at most `depth` levels of
/// nested indefinite-length units.
pub fn parse_value_at_depth(s: &[u8], depth: usize) -> (r: Result<Tlv, Error>)
    ensures
        match r {
            Ok(t) => spec_parse_value(s@, depth as nat) == Ok::<(Identifier, nat, nat, nat), Error>(tlv_model(t))
                && 0 < t.consumed <= s@.len() && t.start + t.len <= t.consumed,
            Err(e) => spec_parse_value(s@, depth as nat) == Err::<(Identifier, nat, nat, nat), Error>(e),
        },
    decreases depth, s@.len(), 0nat,
{
    let (id, a) = match parse_identifier(s) {
        Ok(x) => x,
        Err(e) => return Err(e),
    };
    let rest = vstd::slice::slice_subrange(s, a, s.len());
    proof {
        assert(rest@ =~= s@.skip(a as int));
    }
    let (len, b) = match parse_length(rest) {
        Ok(x) => x,
        Err(e) => return Err(e),
    };
    let h = a + b;
    match len {
        Length::Definite(n) => {
            if n > s.len() - h {
                return Err(Error::Parser);
            }
            Ok(Tlv { identifier: id, start: h, len: n, consumed: h + n })
        },
        Length::Indefinite => {
            if !id.constructed || depth == 0 {
                return Err(Error::Parser);
            }
            let body = vstd::slice::slice_subrange(s, h, s.len());
            proof {
                assert(body@ =~= s@.skip(h as int));
            }
            match scan_parts(body, depth - 1) {
                Ok(k) => Ok(Tlv { identifier: id, start: h, len: k, consumed: h + k + 2 }),
                Err(e) => Err(e),
            }
        },
    }
}

/// Measures the TLV units at the front of `s` up to an end-of-contents
/// marker, which is not counted.
pub fn scan_parts(s: &[u8], depth: usize) -> (r: Result<usize, Error>)
    ensures
        match r {
            Ok(k) => spec_scan_parts(s@, depth as nat) == Ok::<nat, Error>(k as nat) && k + 2 <= s@.len(),
            Err(e) => spec_scan_parts(s@, depth as nat) == Err::<nat, Error>(e),
        },
    decreases depth, s@.len(), 1nat,
{
    let mut pos: usize = 0;
    proof {
        assert(s@.skip(0) =~= s@);
    }
    while pos < s.len()
        invariant
            pos <= s@.len(),
            match spec_scan_parts(s@.skip(pos as int), depth as nat) {
                Ok(k) => spec_scan_parts(s@, depth as nat) == Ok::<nat, Error>((k + pos) as nat),
                Err(e) => spec_scan_parts(s@, depth as nat) == Err::<nat, Error>(e),
            },
        decreases s@.len() - pos,
    {
        let t = vstd::slice::slice_subrange(s, pos, s.len());
        proof {
            assert(t@ =~= s@.skip(pos as int));
        }
        if t.len() >= 2 && t[0] == 0 && t[1] == 0 {
            return Ok(pos);
        }
        let n = match parse_value_at_depth(t, depth) {
            Ok(tlv) => tlv.consumed,
            Err(e) => return Err(e),
        };
        proof {
            assert(t@.skip(n as int) =~= s@.skip(pos + n));
        }
        pos = pos + n;
    }
    proof {
        assert(s@.skip(pos as int).len() == 0);
        assert(spec_parse_identifier(s@.skip(pos as int)) is Err);
        assert(spec_parse_value(s@.skip(pos as int), depth as nat) == Err::<(Identifier, nat, nat, nat), Error>(Error::Parser));
        assert(spec_scan_parts(s@.skip(pos as int), depth as nat) == Err::<nat, Error>(Error::Parser));
    }
    Err(Error::Parser)
}

/// Parses the TLV unit at the front of `s`.
pub fn parse_value(s: &[u8]) -> (r: Result<Tlv, Error>)
    ensures
        match r {
            Ok(t) => spec_parse_value(s@, MAX_DEPTH as nat) == Ok::<(Identifier, nat, nat, nat), Error>(tlv_model(t))
                && 0 < t.consumed <= s@.len() && t.start + t.len <= t.consumed,
            Err(e) => spec_parse_value(s@, MAX_DEPTH as nat) == Err::<(Identifier, nat, nat, nat), Error>(e),
        },
{
    parse_value_at_depth(s, MAX_DEPTH)
}

/// A scan that succeeds stops at an end-of-contents marker within the input.
pub proof fn lemma_scan_stops_at_eoc(s: Seq<u8>, depth: nat)
    requires
        spec_scan_parts(s, depth) is Ok,
    ensures
        ({
            let k = spec_scan_parts(s, depth)->Ok_0;
            k + 2 <= s.len() && s[k as int] == 0 && s[(k + 1) as int] == 0
        }),
    decreases s.len(),
{
    if !starts_with_eoc(s) {
        let n = spec_parse_value(s, depth)->Ok_0.3;
        lemma_scan_stops_at_eoc(s.skip(n as int), depth);
    }
}

/// A unit whose long-form length announces more octets than the input
/// holds is a parse error.
pub proof fn lemma_truncated_length_rejected(s: Seq<u8>, depth: nat)
    requires
        s.len() >= 2,
        s[0] % 32 < 31,
        s[1] > 128,
        2 + (s[1] - 128) > s.len(),
    ensures
        spec_parse_value(s, depth) == Err::<(Identifier, nat, nat, nat), Error>(Error::Parser),
{
    assert(s.skip(1)[0] == s[1]);
}

/// An indefinite-length unit with no end-of-contents marker anywhere after
/// its length octet is rejected.
pub proof fn lemma_missing_eoc_rejected(s: Seq<u8>, depth: nat)
    requires
        s.len() >= 2,
        s[0] % 32 < 31,
        s[1] == 128,
        forall|i: int| 2 <= i && i + 1 < s.len() ==> !(#[trigger] s[i] == 0 && s[i + 1] == 0),
    ensures
        spec_parse_value(s, depth) is Err,
{
    assert(s.skip(1)[0] == s[1]);
    if spec_parse_value(s, depth) is Ok {
        let body = s.skip(2);
        lemma_scan_stops_at_eoc(body, (depth - 1) as nat);
        let k = spec_scan_parts(body, (depth - 1) as nat)->Ok_0;
        assert(s[(2 + k) as int] == body[k as int] && s[(2 + k + 1) as int] == body[(k + 1) as int]);
    }
}

} // verus!
