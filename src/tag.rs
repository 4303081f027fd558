use vstd::prelude::*;

verus! {

/// Universal tag numbers of the types this crate knows about.
pub const EOC: u32 = 0;
pub const BOOL: u32 = 1;
pub const INTEGER: u32 = 2;
pub const BIT_STRING: u32 = 3;
pub const OCTET_STRING: u32 = 4;
pub const NULL: u32 = 5;
pub const OBJECT_IDENTIFIER: u32 = 6;
pub const UTF8_STRING: u32 = 12;
pub const SEQUENCE: u32 = 16;
pub const SET: u32 = 17;
pub const NUMERIC_STRING: u32 = 18;
pub const PRINTABLE_STRING: u32 = 19;
pub const IA5_STRING: u32 = 22;
pub const UTC_TIME: u32 = 23;
pub const GENERALIZED_TIME: u32 = 24;
pub const VISIBLE_STRING: u32 = 26;
pub const UNIVERSAL_STRING: u32 = 28;
pub const BMP_STRING: u32 = 30;

/// The class of an ASN.1 tag, taken from the two high bits of the identifier octet.
#[derive(Clone, Copy, Debug, PartialEq, Eq, Structural, Hash)]
pub enum Class {
    Universal,
    Application,
    Context,
    Private,
}

/// An ASN.1 tag: a class and a tag number.
#[derive(Clone, Copy, Debug, PartialEq, Eq, Structural, Hash)]
pub struct Tag {
    pub class: Class,
    pub value: u32,
}

pub open spec fn universal(value: u32) -> Tag {
    Tag { class: Class::Universal, value }
}

impl Tag {
    pub fn new(class: Class, value: u32) -> (r: Tag)
        ensures
            r == (Tag { class, value }),
    {
        Tag { class, value }
    }

    /// The universal tag with the given number.
    pub fn universal(value: u32) -> (r: Tag)
        ensures
            r == universal(value),
    {
        Tag { class: Class::Universal, value }
    }
}

} // verus!
