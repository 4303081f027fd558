use rasn::ber::{decode, decode_bool, decode_octets, peek_tag, MAX_BIT_STRING_INPUT};
use rasn::error::Error;
use rasn::parser::{parse_length, parse_value, Length, MAX_DEPTH};
use rasn::tag::{self, Class, Tag};
use rasn::types::{Any, BitString, Integer, ObjectIdentifier, OctetString, Open};

fn bits_from_bytes(bytes: &[u8], count: usize) -> BitString {
    let mut b = BitString::new();
    for i in 0..count {
        b.push((bytes[i / 8] >> (7 - i % 8)) & 1 == 1);
    }
    b
}

#[test]
fn boolean() {
    assert_eq!(true, decode::<bool>(&[0x01, 0x01, 0xff]).unwrap());
    assert_eq!(false, decode::<bool>(&[0x01, 0x01, 0x00]).unwrap());
}

#[test]
fn integer() {
    assert_eq!(32768, decode(&[0x02, 0x03, 0x00, 0x80, 0x00,]).unwrap());
    assert_eq!(32767, decode(&[0x02, 0x02, 0x7f, 0xff]).unwrap());
    assert_eq!(256, decode(&[0x02, 0x02, 0x01, 0x00]).unwrap());
    assert_eq!(255, decode(&[0x02, 0x02, 0x00, 0xff]).unwrap());
    assert_eq!(128, decode(&[0x02, 0x02, 0x00, 0x80]).unwrap());
    assert_eq!(127, decode(&[0x02, 0x01, 0x7f]).unwrap());
    assert_eq!(1, decode(&[0x02, 0x01, 0x01]).unwrap());
    assert_eq!(0, decode(&[0x02, 0x01, 0x00]).unwrap());
    assert_eq!(-1, decode(&[0x02, 0x01, 0xff]).unwrap());
    assert_eq!(-128, decode(&[0x02, 0x01, 0x80]).unwrap());
    assert_eq!(-129, decode(&[0x02, 0x02, 0xff, 0x7f]).unwrap());
    assert_eq!(-256, decode(&[0x02, 0x02, 0xff, 0x00]).unwrap());
    assert_eq!(-32768, decode(&[0x02, 0x02, 0x80, 0x00]).unwrap());
    assert_eq!(-32769, decode(&[0x02, 0x03, 0xff, 0x7f, 0xff]).unwrap());

    let mut data = [0u8; 261];
    data[0] = 0x02;
    data[1] = 0x82;
    data[2] = 0x01;
    data[3] = 0x01;
    data[4] = 0x01;
    let mut bigint = Integer::from(1);
    bigint <<= 2048;
    assert_eq!(bigint, decode(&data).unwrap());
}

#[test]
fn oid_from_bytes() {
    let oid = ObjectIdentifier::new(vec![1, 2, 840, 113549]);
    let from_raw = decode(&[0x6, 0x6, 0x2a, 0x86, 0x48, 0x86, 0xf7, 0x0d][..]).unwrap();

    assert_eq!(oid, from_raw);
}

#[test]
fn bit_string() {
    let bitstring = bits_from_bytes(&[0x0A, 0x3B, 0x5F, 0x29, 0x1C, 0xD0], 6 * 8 - 4);

    let primitive_encoded: BitString =
        decode(&[0x03, 0x07, 0x04, 0x0A, 0x3B, 0x5F, 0x29, 0x1C, 0xD0][..]).unwrap();

    let constructed_encoded: BitString = decode(
        &[
            // TAG + LENGTH
            0x23, 0x80,
            // Part 1
            0x03, 0x03, 0x00, 0x0A, 0x3B,
            // Part 2
            0x3, 0x5, 0x04, 0x5F, 0x29, 0x1C, 0xD0,
            // EOC
            0x0, 0x0,
        ][..],
    )
    .unwrap();

    assert_eq!(bitstring, primitive_encoded);
    assert_eq!(bitstring, constructed_encoded);
}

#[test]
fn boolean_any_nonzero_octet_is_true() {
    for b in 1..=255u8 {
        assert_eq!(Ok(true), decode::<bool>(&[0x01, 0x01, b]));
    }
}

#[test]
fn boolean_wrong_length() {
    assert_eq!(
        Err(Error::MismatchedLength { expected: 1, actual: 2 }),
        decode::<bool>(&[0x01, 0x02, 0xff, 0x00])
    );
}

#[test]
fn tag_mismatch() {
    assert_eq!(
        Err(Error::MismatchedTag {
            expected: Tag::universal(tag::BOOL),
            actual: Tag::universal(tag::INTEGER),
        }),
        decode::<bool>(&[0x02, 0x01, 0x01])
    );
}

#[test]
fn null() {
    assert_eq!(Ok(()), decode::<()>(&[0x05, 0x00]));
    assert_eq!(
        Err(Error::MismatchedLength { expected: 0, actual: 1 }),
        decode::<()>(&[0x05, 0x01, 0x00])
    );
}

#[test]
fn integer_empty_contents_rejected() {
    assert_eq!(Err(Error::Parser), decode::<i32>(&[0x02, 0x00]));
    assert_eq!(Err(Error::Parser), decode::<Integer>(&[0x02, 0x00]));
}

#[test]
fn integer_overflow() {
    assert_eq!(Err(Error::NumericOverflow), decode::<i32>(&[0x02, 0x05, 0x01, 0x00, 0x00, 0x00, 0x00]));
    assert_eq!(Ok(1i64 << 32), decode::<i64>(&[0x02, 0x05, 0x01, 0x00, 0x00, 0x00, 0x00]));
    assert_eq!(Ok(i64::MIN), decode::<i64>(&[0x02, 0x08, 0x80, 0, 0, 0, 0, 0, 0, 0]));
    assert_eq!(
        Err(Error::NumericOverflow),
        decode::<i64>(&[0x02, 0x09, 0x00, 0x80, 0, 0, 0, 0, 0, 0, 0])
    );
}

#[test]
fn big_integer_negative() {
    assert_eq!(Integer::from(-129), decode::<Integer>(&[0x02, 0x02, 0xff, 0x7f]).unwrap());
    assert_eq!(Integer::from(128), decode::<Integer>(&[0x02, 0x02, 0x00, 0x80]).unwrap());
}

#[test]
fn octet_string() {
    let v: OctetString = decode(&[0x04, 0x03, 0x61, 0x62, 0x63]).unwrap();
    assert_eq!(&v[..], &[0x61, 0x62, 0x63]);
    assert_eq!(Ok(vec![0x61, 0x62]), decode_octets(&[0x04, 0x02, 0x61, 0x62], Tag::universal(tag::OCTET_STRING)));
}

#[test]
fn oid_errors() {
    assert_eq!(Err(Error::Parser), decode::<ObjectIdentifier>(&[0x06, 0x00]));
    assert_eq!(Err(Error::Parser), decode::<ObjectIdentifier>(&[0x06, 0x02, 0x2a, 0x86]));
    assert_eq!(
        Err(Error::NumericOverflow),
        decode::<ObjectIdentifier>(&[0x06, 0x06, 0x2a, 0x90, 0x80, 0x80, 0x80, 0x00])
    );
    let oid: ObjectIdentifier = decode(&[0x06, 0x01, 0x55]).unwrap();
    assert_eq!(oid.components(), &vec![2, 5]);
}

#[test]
fn truncated_length_octets() {
    assert_eq!(Err(Error::Parser), decode::<bool>(&[0x01, 0x82, 0x01]));
    assert_eq!(Err(Error::Parser), decode::<bool>(&[0x01]));
    assert_eq!(Err(Error::Parser), decode::<bool>(&[0x01, 0x02, 0xff]));
}

#[test]
fn long_form_length() {
    assert_eq!(Ok((Length::Definite(257), 3)), parse_length(&[0x82, 0x01, 0x01]));
    assert_eq!(Ok((Length::Indefinite, 1)), parse_length(&[0x80]));
    assert_eq!(Ok((Length::Definite(5), 1)), parse_length(&[0x05]));
}

#[test]
fn indefinite_without_eoc() {
    assert_eq!(
        Err(Error::Parser),
        decode::<BitString>(&[0x23, 0x80, 0x03, 0x02, 0x00, 0x0A])
    );
    assert_eq!(Err(Error::Parser), decode::<Any>(&[0x30, 0x80, 0x05, 0x00]));
}

#[test]
fn indefinite_on_primitive_rejected() {
    assert_eq!(Err(Error::Parser), decode::<Any>(&[0x04, 0x80, 0x00, 0x00]));
}

#[test]
fn nesting_depth_is_bounded() {
    let mut data = Vec::new();
    for _ in 0..(MAX_DEPTH + 1) {
        data.push(0x30);
        data.push(0x80);
    }
    for _ in 0..(MAX_DEPTH + 1) {
        data.push(0x00);
        data.push(0x00);
    }
    assert_eq!(Err(Error::Parser), decode::<Any>(&data));
    let inner = &data[2..data.len() - 2];
    assert_eq!(inner.len(), decode::<Any>(inner).unwrap().as_bytes().len());
}

#[test]
fn any_keeps_whole_unit() {
    let any: Any = decode(&[0x30, 0x80, 0x05, 0x00, 0x00, 0x00, 0xff]).unwrap();
    assert_eq!(any.as_bytes(), &[0x30, 0x80, 0x05, 0x00, 0x00, 0x00]);
    let t = parse_value(&[0x30, 0x80, 0x05, 0x00, 0x00, 0x00, 0xff]).unwrap();
    assert_eq!((t.start, t.len, t.consumed), (2, 2, 6));
}

#[test]
fn high_tag_number() {
    assert_eq!(
        Ok(Tag::new(Class::Context, 201)),
        peek_tag(&[0xbf, 0x81, 0x49, 0x00])
    );
    assert_eq!(Err(Error::Parser), peek_tag(&[0xbf, 0x81]));
    assert_eq!(Ok(Tag::new(Class::Application, 3)), peek_tag(&[0x63, 0x00]));
}

#[test]
fn peek_does_not_consume() {
    let input = [0x01, 0x01, 0xff];
    assert_eq!(Ok(Tag::universal(tag::BOOL)), peek_tag(&input));
    assert_eq!(decode_bool(&input, Tag::universal(tag::BOOL)), decode::<bool>(&input));
    assert_eq!(Ok(true), decode::<bool>(&input));
}

#[test]
fn open_dispatch() {
    assert_eq!(Ok(Open::Bool(true)), decode::<Open>(&[0x01, 0x01, 0x01]));
    assert_eq!(Ok(Open::Null), decode::<Open>(&[0x05, 0x00]));
    assert_eq!(Ok(Open::Integer(Integer::from(-1))), decode::<Open>(&[0x02, 0x01, 0xff]));
    assert_eq!(
        Ok(Open::ObjectIdentifier(ObjectIdentifier::new(vec![1, 2]))),
        decode::<Open>(&[0x06, 0x01, 0x2a])
    );
    let unknown = decode::<Open>(&[0x1a, 0x02, 0x68, 0x69]).unwrap();
    assert_eq!(Open::Unknown { tag: Tag::universal(tag::VISIBLE_STRING), value: vec![0x68, 0x69] }, unknown);
    assert_eq!(Tag::universal(tag::VISIBLE_STRING), unknown.tag());
    assert_eq!(Tag::universal(tag::NULL), Open::Null.tag());
    assert_eq!(Err(Error::InvalidDiscriminant), Open::decode_with_tag(&[0x05, 0x00], Tag::universal(tag::NULL)));
}

#[test]
fn bit_string_padding_in_middle_rejected() {
    assert_eq!(
        Err(Error::Parser),
        decode::<BitString>(&[0x23, 0x80, 0x03, 0x02, 0x04, 0x0A, 0x03, 0x02, 0x00, 0x3B, 0x00, 0x00])
    );
}

#[test]
fn bit_string_bad_fragment_tag() {
    assert_eq!(
        Err(Error::MismatchedTag {
            expected: Tag::universal(tag::BIT_STRING),
            actual: Tag::universal(tag::OCTET_STRING),
        }),
        decode::<BitString>(&[0x23, 0x80, 0x04, 0x02, 0x00, 0x0A, 0x00, 0x00])
    );
}

#[test]
fn bit_string_unused_count() {
    assert_eq!(Err(Error::Parser), decode::<BitString>(&[0x03, 0x02, 0x08, 0xff]));
    assert_eq!(Err(Error::Parser), decode::<BitString>(&[0x03, 0x01, 0x01]));
    assert_eq!(BitString::new(), decode::<BitString>(&[0x03, 0x01, 0x00]).unwrap());
    assert_eq!(bits_from_bytes(&[0xA0], 3), decode::<BitString>(&[0x03, 0x02, 0x05, 0xA0]).unwrap());
    assert!(MAX_BIT_STRING_INPUT > 1 << 20);
}

#[test]
fn integer_redundant_sign_octets_same_value() {
    assert_eq!(decode::<i64>(&[0x02, 0x01, 0x7f]), decode::<i64>(&[0x02, 0x02, 0x00, 0x7f]));
    assert_eq!(decode::<i64>(&[0x02, 0x01, 0x80]), decode::<i64>(&[0x02, 0x03, 0xff, 0xff, 0x80]));
    assert_eq!(Ok(-129), decode::<i64>(&[0x02, 0x02, 0xff, 0x7f]));
}

#[test]
fn missing_eoc_in_nested_value() {
    assert_eq!(Err(Error::Parser), decode::<Any>(&[0x30, 0x80, 0x30, 0x80, 0x05, 0x00, 0x00, 0x00]));
    assert!(decode::<Any>(&[0x30, 0x80, 0x30, 0x80, 0x05, 0x00, 0x00, 0x00, 0x00, 0x00]).is_ok());
}

#[test]
fn constructed_definite_bit_string() {
    let expected = bits_from_bytes(&[0x0A, 0x3B, 0x5F], 24);
    let parts: BitString = decode(&[0x23, 0x09, 0x03, 0x02, 0x00, 0x0A, 0x03, 0x03, 0x00, 0x3B, 0x5F]).unwrap();
    assert_eq!(expected, parts);
}

#[test]
fn oid_root_beyond_u32() {
    let oid: ObjectIdentifier = decode(&[0x06, 0x05, 0x90, 0x80, 0x80, 0x80, 0x00]).unwrap();
    assert_eq!(oid, ObjectIdentifier::new(vec![107374182, 16]));
    let oid: ObjectIdentifier = decode(&[0x06, 0x06, 0x90, 0x80, 0x80, 0x80, 0x00, 0x01]).unwrap();
    assert_eq!(oid, ObjectIdentifier::new(vec![107374182, 16, 1]));
    // 40 * u32::MAX + 39 is the largest root; one more overflows.
    let largest: ObjectIdentifier = decode(&[0x06, 0x06, 0x84, 0xff, 0xff, 0xff, 0xff, 0x7f]).unwrap();
    assert_eq!(largest, ObjectIdentifier::new(vec![u32::MAX, 39]));
    assert_eq!(
        Err(Error::NumericOverflow),
        decode::<ObjectIdentifier>(&[0x06, 0x06, 0x85, 0x80, 0x80, 0x80, 0x80, 0x00])
    );
    assert_eq!(Err(Error::Parser), decode::<ObjectIdentifier>(&[0x06, 0x03, 0xff, 0xff, 0xff]));
}

#[test]
fn bit_string_three_fragments() {
    let primitive: BitString = decode(&[0x03, 0x05, 0x03, 0x0A, 0x3B, 0x5F, 0x28]).unwrap();
    let constructed: BitString = decode(&[
        0x23, 0x80,
        0x03, 0x02, 0x00, 0x0A,
        0x03, 0x01, 0x00,
        0x03, 0x04, 0x03, 0x3B, 0x5F, 0x28,
        0x00, 0x00,
    ])
    .unwrap();
    assert_eq!(primitive, constructed);
    assert_eq!(bits_from_bytes(&[0x0A, 0x3B, 0x5F, 0x28], 29), primitive);
}
