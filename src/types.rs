use vstd::prelude::*;

use crate::ber;
use crate::de::Decode;
use crate::error::Error;
use crate::tag::{self, Tag};

verus! {

/// Arbitrary-precision signed integer, for ASN.1 `INTEGER`.
pub type Integer = num_bigint::BigInt;

/// Owned octets, for ASN.1 `OCTET STRING`.
pub type OctetString = bytes::Bytes;

#[verifier::external_type_specification]
#[verifier::external_body]
pub struct ExBigInt(num_bigint::BigInt);

#[verifier::external_type_specification]
#[verifier::external_body]
pub struct ExBytes(bytes::Bytes);

/// The integer whose big-endian two's-complement octets are `b`.
pub uninterp spec fn signed_be_integer(b: Seq<u8>) -> num_bigint::BigInt;

/// Relies on `num_bigint::BigInt::from_signed_bytes_be`: the result depends
/// on the octets alone.
#[verifier::external_body]
pub(crate) fn integer_from_signed_bytes(b: &[u8]) -> (r: Integer)
    ensures
        r == signed_be_integer(b@),
{
    num_bigint::BigInt::from_signed_bytes_be(b)
}

/// The octets held by a `Bytes` value.
pub uninterp spec fn octets_of(b: bytes::Bytes) -> Seq<u8>;

/// Relies on `bytes::Bytes::copy_from_slice`: the result holds a copy of
/// `data`.
#[verifier::external_body]
pub(crate) fn octets_from_slice(data: &[u8]) -> (r: OctetString)
    ensures
        octets_of(r) == data@,
{
    bytes::Bytes::copy_from_slice(data)
}

/// An ASN.1 `BIT STRING`: a sequence of bits, most significant first.
#[verifier::external_body]
#[derive(Debug, PartialEq, Eq)]
pub struct BitString {
    bits: bitvec::vec::BitVec<u8, bitvec::order::Msb0>,
}

/// The bits held by a `BitString`.
pub uninterp spec fn bits_of(b: BitString) -> Seq<bool>;

impl BitString {
    /// Relies on `bitvec::vec::BitVec::new`: an empty bit vector.
    #[verifier::external_body]
    pub fn new() -> (r: BitString)
        ensures
            bits_of(r) == Seq::<bool>::empty(),
    {
        BitString { bits: bitvec::vec::BitVec::new() }
    }

    /// Relies on `bitvec::vec::BitVec::push`: appends one bit; it panics only
    /// past `usize::MAX >> 3` bits.
    #[verifier::external_body]
    pub fn push(&mut self, bit: bool)
        requires
            bits_of(*old(self)).len() < usize::MAX / 8,
        ensures
            bits_of(*final(self)) == bits_of(*old(self)).push(bit),
    {
        self.bits.push(bit)
    }
}

/// An ASN.1 `OBJECT IDENTIFIER`: its components in order.
#[derive(Clone, Debug, PartialEq, Eq, PartialOrd, Ord, Hash)]
pub struct ObjectIdentifier {
    pub components: Vec<u32>,
}

impl View for ObjectIdentifier {
    type V = Seq<u32>;

    open spec fn view(&self) -> Seq<u32> {
        self.components@
    }
}

impl ObjectIdentifier {
    pub fn new(components: Vec<u32>) -> (r: ObjectIdentifier)
        ensures
            r@ == components@,
    {
        ObjectIdentifier { components }
    }

    pub fn components(&self) -> (r: &Vec<u32>)
        ensures
            r@ == self@,
    {
        &self.components
    }
}

/// A complete encoded ASN.1 value of any type: its identifier, length and
/// contents octets.
#[derive(Clone, Debug, PartialOrd, Ord, PartialEq, Eq)]
pub struct Any {
    pub contents: Vec<u8>,
}

impl View for Any {
    type V = Seq<u8>;

    open spec fn view(&self) -> Seq<u8> {
        self.contents@
    }
}

impl Any {
    pub fn new(contents: Vec<u8>) -> (r: Any)
        ensures
            r@ == contents@,
    {
        Any { contents }
    }

    pub fn as_bytes(&self) -> (r: &[u8])
        ensures
            r@ == self@,
    {
        self.contents.as_slice()
    }
}

/// A type with a fixed universal tag.
pub trait AsnType {
    spec fn spec_tag() -> Tag;

    /// The tag of the type.
    fn tag() -> (r: Tag)
        ensures
            r == Self::spec_tag(),
    ;
}

impl AsnType for bool {
    open spec fn spec_tag() -> Tag {
        tag::universal(tag::BOOL)
    }

    fn tag() -> (r: Tag) {
        Tag::universal(tag::BOOL)
    }
}

impl AsnType for i32 {
    open spec fn spec_tag() -> Tag {
        tag::universal(tag::INTEGER)
    }

    fn tag() -> (r: Tag) {
        Tag::universal(tag::INTEGER)
    }
}

impl AsnType for i64 {
    open spec fn spec_tag() -> Tag {
        tag::universal(tag::INTEGER)
    }

    fn tag() -> (r: Tag) {
        Tag::universal(tag::INTEGER)
    }
}

impl AsnType for Integer {
    open spec fn spec_tag() -> Tag {
        tag::universal(tag::INTEGER)
    }

    fn tag() -> (r: Tag) {
        Tag::universal(tag::INTEGER)
    }
}

impl AsnType for OctetString {
    open spec fn spec_tag() -> Tag {
        tag::universal(tag::OCTET_STRING)
    }

    fn tag() -> (r: Tag) {
        Tag::universal(tag::OCTET_STRING)
    }
}

impl AsnType for () {
    open spec fn spec_tag() -> Tag {
        tag::universal(tag::NULL)
    }

    fn tag() -> (r: Tag) {
        Tag::universal(tag::NULL)
    }
}

impl AsnType for ObjectIdentifier {
    open spec fn spec_tag() -> Tag {
        tag::universal(tag::OBJECT_IDENTIFIER)
    }

    fn tag() -> (r: Tag) {
        Tag::universal(tag::OBJECT_IDENTIFIER)
    }
}

impl AsnType for BitString {
    open spec fn spec_tag() -> Tag {
        tag::universal(tag::BIT_STRING)
    }

    fn tag() -> (r: Tag) {
        Tag::universal(tag::BIT_STRING)
    }
}

/// A value of any of the universal types this crate decodes, chosen by the
/// tag found on the wire; other tags keep their contents as they stand.
#[derive(Debug, PartialEq, Eq)]
pub enum Open {
    BitString(BitString),
    Bool(bool),
    Integer(Integer),
    Null,
    ObjectIdentifier(ObjectIdentifier),
    OctetString(OctetString),
    Unknown { tag: Tag, value: Vec<u8> },
}

/// Whether `r` is the outcome of decoding `s` as the alternative that the
/// tag at its front selects.
pub open spec fn open_decodes_to(s: Seq<u8>, r: Result<Open, Error>) -> bool {
    match ber::spec_peek_tag(s) {
        Err(e) => r == Err::<Open, Error>(e),
        Ok(t) => if t == tag::universal(tag::BIT_STRING) {
            match r {
                Ok(Open::BitString(b)) => ber::spec_decode_bit_string(s, t) == Ok::<Seq<bool>, Error>(bits_of(b)),
                Ok(_) => false,
                Err(e) => ber::spec_decode_bit_string(s, t) == Err::<Seq<bool>, Error>(e),
            }
        } else if t == tag::universal(tag::BOOL) {
            match r {
                Ok(Open::Bool(b)) => ber::spec_decode_bool(s, t) == Ok::<bool, Error>(b),
                Ok(_) => false,
                Err(e) => ber::spec_decode_bool(s, t) == Err::<bool, Error>(e),
            }
        } else if t == tag::universal(tag::INTEGER) {
            match r {
                Ok(Open::Integer(v)) => ber::spec_decode_integer(s, t) == Ok::<Integer, Error>(v),
                Ok(_) => false,
                Err(e) => ber::spec_decode_integer(s, t) == Err::<Integer, Error>(e),
            }
        } else if t == tag::universal(tag::NULL) {
            match r {
                Ok(Open::Null) => ber::spec_decode_null(s, t) == Ok::<(), Error>(()),
                Ok(_) => false,
                Err(e) => ber::spec_decode_null(s, t) == Err::<(), Error>(e),
            }
        } else if t == tag::universal(tag::OBJECT_IDENTIFIER) {
            match r {
                Ok(Open::ObjectIdentifier(o)) => ber::spec_decode_oid(s, t) == Ok::<Seq<u32>, Error>(o@),
                Ok(_) => false,
                Err(e) => ber::spec_decode_oid(s, t) == Err::<Seq<u32>, Error>(e),
            }
        } else if t == tag::universal(tag::OCTET_STRING) {
            match r {
                Ok(Open::OctetString(o)) => ber::spec_decode_octets(s, t) == Ok::<Seq<u8>, Error>(octets_of(o)),
                Ok(_) => false,
                Err(e) => ber::spec_decode_octets(s, t) == Err::<Seq<u8>, Error>(e),
            }
        } else {
            match r {
                Ok(Open::Unknown { tag, value }) => tag == t && ber::spec_decode_octets(s, t) == Ok::<Seq<u8>, Error>(value@),
                Ok(_) => false,
                Err(e) => ber::spec_decode_octets(s, t) == Err::<Seq<u8>, Error>(e),
            }
        },
    }
}

impl Open {
    pub open spec fn spec_tag(&self) -> Tag {
        match self {
            Open::BitString(_) => tag::universal(tag::BIT_STRING),
            Open::Bool(_) => tag::universal(tag::BOOL),
            Open::Integer(_) => tag::universal(tag::INTEGER),
            Open::Null => tag::universal(tag::NULL),
            Open::ObjectIdentifier(_) => tag::universal(tag::OBJECT_IDENTIFIER),
            Open::OctetString(_) => tag::universal(tag::OCTET_STRING),
            Open::Unknown { tag, .. } => *tag,
        }
    }

    /// Returns the tag of the variant.
    pub fn tag(&self) -> (r: Tag)
        ensures
            r == self.spec_tag(),
    {
        match self {
            Open::BitString(_) => Tag::universal(tag::BIT_STRING),
            Open::Bool(_) => Tag::universal(tag::BOOL),
            Open::Integer(_) => Tag::universal(tag::INTEGER),
            Open::Null => Tag::universal(tag::NULL),
            Open::ObjectIdentifier(_) => Tag::universal(tag::OBJECT_IDENTIFIER),
            Open::OctetString(_) => Tag::universal(tag::OCTET_STRING),
            Open::Unknown { tag, .. } => *tag,
        }
    }

    /// A `CHOICE` carries its alternative in its tag, so it cannot be
    /// decoded under an implicit tag.
    pub fn decode_with_tag(input: &[u8], tag: Tag) -> (r: Result<Open, Error>)
        ensures
            r == Err::<Open, Error>(Error::InvalidDiscriminant),
    {
        Err(Error::InvalidDiscriminant)
    }
}

impl Decode for Open {
    open spec fn decodes_to(input: Seq<u8>, r: Result<Open, Error>) -> bool {
        open_decodes_to(input, r)
    }

    fn decode(input: &[u8]) -> (r: Result<Open, Error>) {
        let t = match ber::peek_tag(input) {
            Ok(t) => t,
            Err(e) => return Err(e),
        };
        if t == Tag::universal(tag::BIT_STRING) {
            match ber::decode_bit_string(input, t) {
                Ok(b) => Ok(Open::BitString(b)),
                Err(e) => Err(e),
            }
        } else if t == Tag::universal(tag::BOOL) {
            match ber::decode_bool(input, t) {
                Ok(b) => Ok(Open::Bool(b)),
                Err(e) => Err(e),
            }
        } else if t == Tag::universal(tag::INTEGER) {
            match ber::decode_integer(input, t) {
                Ok(v) => Ok(Open::Integer(v)),
                Err(e) => Err(e),
            }
        } else if t == Tag::universal(tag::NULL) {
            match ber::decode_null(input, t) {
                Ok(()) => Ok(Open::Null),
                Err(e) => Err(e),
            }
        } else if t == Tag::universal(tag::OBJECT_IDENTIFIER) {
            match ber::decode_object_identifier(input, t) {
                Ok(o) => Ok(Open::ObjectIdentifier(o)),
                Err(e) => Err(e),
            }
        } else if t == Tag::universal(tag::OCTET_STRING) {
            match ber::decode_octet_string(input, t) {
                Ok(o) => Ok(Open::OctetString(o)),
                Err(e) => Err(e),
            }
        } else {
            match ber::decode_octets(input, t) {
                Ok(value) => Ok(Open::Unknown { tag: t, value }),
                Err(e) => Err(e),
            }
        }
    }
}

} // verus!
