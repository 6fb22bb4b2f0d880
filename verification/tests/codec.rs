use xml_attr_codec::adapter::{flattened_xml_attr, TypedOrText};
use xml_attr_codec::byte_enum::ByteEnum;
use xml_attr_codec::scalar::{FromXmlStr, ScalarError};
use xml_attr_codec::xml::{decode, encode, DecodeError, IntermediateStruct, RootStruct};

fn root(byte: ByteEnum, other: u8) -> RootStruct {
    RootStruct { intermediate: IntermediateStruct { byte, other } }
}

#[test]
fn concrete_scenario() {
    // other = 1, byte = One: the exact wire text, decode back, re-encode.
    let root_0 = root(ByteEnum::One, 1);
    let xml_0 = encode(&root_0);
    assert_eq!(xml_0, "<root byte=\"1\" other=\"1\"/>");
    let root_1 = decode(&xml_0).unwrap();
    assert_eq!(root_0, root_1);
    let xml_1 = encode(&root_1);
    assert_eq!(xml_0, xml_1);
}

#[test]
fn round_trip_identity_all_variants() {
    let variants = [ByteEnum::Zero, ByteEnum::One, ByteEnum::Two, ByteEnum::Three];
    let others = [0u8, 1, 9, 10, 42, 99, 100, 128, 254, 255];
    for &byte in &variants {
        for &other in &others {
            let v = root(byte, other);
            let text = encode(&v);
            let back = decode(&text).unwrap();
            assert_eq!(back, v);
            assert_eq!(encode(&back), text);
        }
    }
}

#[test]
fn encode_exact_texts() {
    assert_eq!(encode(&root(ByteEnum::Zero, 0)), "<root byte=\"0\" other=\"0\"/>");
    assert_eq!(encode(&root(ByteEnum::Three, 255)), "<root byte=\"3\" other=\"255\"/>");
    assert_eq!(encode(&root(ByteEnum::Two, 100)), "<root byte=\"2\" other=\"100\"/>");
}

#[test]
fn enumeration_range_rejection() {
    // Codes at and above 4 fail with the offending code named.
    let r = decode("<root byte=\"4\" other=\"1\"/>");
    assert!(matches!(
        r,
        Err(DecodeError::ByteAttr(ScalarError::BadDiscriminant(4)))
    ));
    let r = decode("<root byte=\"255\" other=\"1\"/>");
    assert!(matches!(
        r,
        Err(DecodeError::ByteAttr(ScalarError::BadDiscriminant(255)))
    ));
    // A negative number is not in the unsigned grammar.
    let r = decode("<root byte=\"-1\" other=\"1\"/>");
    assert!(matches!(r, Err(DecodeError::ByteAttr(ScalarError::InvalidDigit))));
    // Non-numeric text inherits the integer parser's error.
    let r = decode("<root byte=\"abc\" other=\"1\"/>");
    assert!(matches!(r, Err(DecodeError::ByteAttr(ScalarError::InvalidDigit))));
    // An integer too large for a byte overflows before the range check.
    let r = decode("<root byte=\"256\" other=\"1\"/>");
    assert!(matches!(r, Err(DecodeError::ByteAttr(ScalarError::PosOverflow))));
    // Empty attribute text has no digits at all.
    let r = decode("<root byte=\"\" other=\"1\"/>");
    assert!(matches!(r, Err(DecodeError::ByteAttr(ScalarError::Empty))));
}

#[test]
fn other_attribute_rejection() {
    let r = decode("<root byte=\"1\" other=\"256\"/>");
    assert!(matches!(r, Err(DecodeError::OtherAttr(ScalarError::PosOverflow))));
    let r = decode("<root byte=\"1\" other=\"x\"/>");
    assert!(matches!(r, Err(DecodeError::OtherAttr(ScalarError::InvalidDigit))));
}

#[test]
fn structural_rejection() {
    assert!(matches!(decode(""), Err(DecodeError::Structure)));
    assert!(matches!(decode("<root byte=\"1\" other=\"1\"/"), Err(DecodeError::Structure)));
    assert!(matches!(decode("<root byte=\"1\" other=\"1\" />"), Err(DecodeError::Structure)));
    assert!(matches!(decode("<notroot byte=\"1\" other=\"1\"/>"), Err(DecodeError::Structure)));
    assert!(matches!(decode("<root other=\"1\" byte=\"1\"/>"), Err(DecodeError::Structure)));
    assert!(matches!(decode("<root byte=\"1\" other=\"1"), Err(DecodeError::Structure)));
}

#[test]
fn boolean_grammar() {
    assert!(matches!(<bool as FromXmlStr>::from_str("true"), Ok(true)));
    assert!(matches!(<bool as FromXmlStr>::from_str("1"), Ok(true)));
    assert!(matches!(<bool as FromXmlStr>::from_str("false"), Ok(false)));
    assert!(matches!(<bool as FromXmlStr>::from_str("0"), Ok(false)));
    match <bool as FromXmlStr>::from_str("yes") {
        Err(ScalarError::NotBool(t)) => {
            assert_eq!(t, "yes");
        }
        _ => panic!("\"yes\" must be rejected"),
    }
    match <bool as FromXmlStr>::from_str("TRUE") {
        Err(ScalarError::NotBool(t)) => {
            assert_eq!(t, "TRUE");
        }
        _ => panic!("\"TRUE\" must be rejected"),
    }
}

#[test]
fn typed_vs_string_dispatch() {
    // An already-typed value is kept verbatim.
    let r = flattened_xml_attr::<ByteEnum>(TypedOrText::Typed(ByteEnum::One));
    assert!(matches!(r, Ok(ByteEnum::One)));
    // A residual string goes through the coercion grammar.
    let r = flattened_xml_attr::<ByteEnum>(TypedOrText::Text(String::from("1")));
    assert!(matches!(r, Ok(ByteEnum::One)));
    // The string path surfaces the grammar's errors.
    let r = flattened_xml_attr::<ByteEnum>(TypedOrText::Text(String::from("4")));
    assert!(matches!(r, Err(ScalarError::BadDiscriminant(4))));
    // The same adapter serves plain scalars.
    let r = flattened_xml_attr::<u8>(TypedOrText::Typed(7));
    assert!(matches!(r, Ok(7)));
    let r = flattened_xml_attr::<u8>(TypedOrText::Text(String::from("7")));
    assert!(matches!(r, Ok(7)));
}

#[test]
fn byte_enum_codes() {
    assert_eq!(ByteEnum::Zero.code(), 0);
    assert_eq!(ByteEnum::One.code(), 1);
    assert_eq!(ByteEnum::Two.code(), 2);
    assert_eq!(ByteEnum::Three.code(), 3);
    assert!(matches!(ByteEnum::from_code(0), Ok(ByteEnum::Zero)));
    assert!(matches!(ByteEnum::from_code(1), Ok(ByteEnum::One)));
    assert!(matches!(ByteEnum::from_code(2), Ok(ByteEnum::Two)));
    assert!(matches!(ByteEnum::from_code(3), Ok(ByteEnum::Three)));
    assert!(matches!(ByteEnum::from_code(4), Err(ScalarError::BadDiscriminant(4))));
}

#[test]
fn byte_enum_from_str() {
    assert!(matches!(ByteEnum::from_str("0"), Ok(ByteEnum::Zero)));
    assert!(matches!(ByteEnum::from_str("1"), Ok(ByteEnum::One)));
    assert!(matches!(ByteEnum::from_str("2"), Ok(ByteEnum::Two)));
    assert!(matches!(ByteEnum::from_str("3"), Ok(ByteEnum::Three)));
    // The integer grammar tolerates a leading '+' and leading zeros.
    assert!(matches!(ByteEnum::from_str("+2"), Ok(ByteEnum::Two)));
    assert!(matches!(ByteEnum::from_str("003"), Ok(ByteEnum::Three)));
    assert!(matches!(ByteEnum::from_str("4"), Err(ScalarError::BadDiscriminant(4))));
    assert!(matches!(ByteEnum::from_str(""), Err(ScalarError::Empty)));
    assert!(matches!(ByteEnum::from_str("+"), Err(ScalarError::Empty)));
    assert!(matches!(ByteEnum::from_str("1 "), Err(ScalarError::InvalidDigit)));
}

#[test]
fn unsigned_parsing_widths() {
    assert!(matches!(<u8 as FromXmlStr>::from_str("255"), Ok(255)));
    assert!(matches!(<u8 as FromXmlStr>::from_str("256"), Err(ScalarError::PosOverflow)));
    assert!(matches!(<u8 as FromXmlStr>::from_str("+007"), Ok(7)));
    assert!(matches!(<u16 as FromXmlStr>::from_str("65535"), Ok(65535)));
    assert!(matches!(<u16 as FromXmlStr>::from_str("65536"), Err(ScalarError::PosOverflow)));
    assert!(matches!(<u32 as FromXmlStr>::from_str("4294967295"), Ok(4294967295)));
    assert!(matches!(
        <u32 as FromXmlStr>::from_str("4294967296"),
        Err(ScalarError::PosOverflow)
    ));
    assert!(matches!(
        <u64 as FromXmlStr>::from_str("18446744073709551615"),
        Ok(18446744073709551615)
    ));
    assert!(matches!(
        <u64 as FromXmlStr>::from_str("18446744073709551616"),
        Err(ScalarError::PosOverflow)
    ));
    assert!(matches!(
        <u64 as FromXmlStr>::from_str("99999999999999999999999999"),
        Err(ScalarError::PosOverflow)
    ));
    assert!(matches!(<usize as FromXmlStr>::from_str("4096"), Ok(4096)));
    assert!(matches!(
        <u128 as FromXmlStr>::from_str("340282366920938463463374607431768211455"),
        Ok(u128::MAX)
    ));
    assert!(matches!(
        <u128 as FromXmlStr>::from_str("340282366920938463463374607431768211456"),
        Err(ScalarError::PosOverflow)
    ));
}

#[test]
fn signed_parsing_widths() {
    assert!(matches!(<i8 as FromXmlStr>::from_str("-128"), Ok(-128)));
    assert!(matches!(<i8 as FromXmlStr>::from_str("127"), Ok(127)));
    assert!(matches!(<i8 as FromXmlStr>::from_str("128"), Err(ScalarError::PosOverflow)));
    assert!(matches!(<i8 as FromXmlStr>::from_str("-129"), Err(ScalarError::NegOverflow)));
    assert!(matches!(<i16 as FromXmlStr>::from_str("-32768"), Ok(-32768)));
    assert!(matches!(<i16 as FromXmlStr>::from_str("32768"), Err(ScalarError::PosOverflow)));
    assert!(matches!(<i32 as FromXmlStr>::from_str("-2147483648"), Ok(-2147483648)));
    assert!(matches!(<i32 as FromXmlStr>::from_str("+41"), Ok(41)));
    assert!(matches!(
        <i64 as FromXmlStr>::from_str("-9223372036854775808"),
        Ok(-9223372036854775808)
    ));
    assert!(matches!(
        <i64 as FromXmlStr>::from_str("9223372036854775807"),
        Ok(9223372036854775807)
    ));
    assert!(matches!(
        <i64 as FromXmlStr>::from_str("9223372036854775808"),
        Err(ScalarError::PosOverflow)
    ));
    assert!(matches!(
        <i64 as FromXmlStr>::from_str("-9223372036854775809"),
        Err(ScalarError::NegOverflow)
    ));
    assert!(matches!(<isize as FromXmlStr>::from_str("-17"), Ok(-17)));
    assert!(matches!(
        <i128 as FromXmlStr>::from_str("-170141183460469231731687303715884105728"),
        Ok(i128::MIN)
    ));
    assert!(matches!(
        <i128 as FromXmlStr>::from_str("170141183460469231731687303715884105727"),
        Ok(i128::MAX)
    ));
    assert!(matches!(
        <i128 as FromXmlStr>::from_str("170141183460469231731687303715884105728"),
        Err(ScalarError::PosOverflow)
    ));
    assert!(matches!(
        <i128 as FromXmlStr>::from_str("-170141183460469231731687303715884105729"),
        Err(ScalarError::NegOverflow)
    ));
    assert!(matches!(<i32 as FromXmlStr>::from_str("-"), Err(ScalarError::Empty)));
    assert!(matches!(<i32 as FromXmlStr>::from_str("- 1"), Err(ScalarError::InvalidDigit)));
    assert!(matches!(<i32 as FromXmlStr>::from_str("1.5"), Err(ScalarError::InvalidDigit)));
}

#[test]
fn boolean_through_adapter() {
    let r = flattened_xml_attr::<bool>(TypedOrText::Typed(true));
    assert!(matches!(r, Ok(true)));
    let r = flattened_xml_attr::<bool>(TypedOrText::Text(String::from("0")));
    assert!(matches!(r, Ok(false)));
    match flattened_xml_attr::<bool>(TypedOrText::Text(String::from("yes"))) {
        Err(ScalarError::NotBool(t)) => {
            assert_eq!(t, "yes");
        }
        _ => panic!("\"yes\" must be rejected"),
    }
}

#[test]
fn char_parsing() {
    assert!(matches!(<char as FromXmlStr>::from_str("x"), Ok('x')));
    assert!(matches!(<char as FromXmlStr>::from_str("ab"), Err(ScalarError::NotOneChar)));
    assert!(matches!(<char as FromXmlStr>::from_str(""), Err(ScalarError::NotOneChar)));
}

#[test]
fn error_messages() {
    assert_eq!(
        ScalarError::BadDiscriminant(4).message(),
        "Invalid ByteEnum: 4."
    );
    assert_eq!(
        ScalarError::BadDiscriminant(255).message(),
        "Invalid ByteEnum: 255."
    );
    assert_eq!(
        ScalarError::NotBool(String::from("yes")).message(),
        "\"yes\" is not a valid bool"
    );
    let e = decode("<root byte=\"9\" other=\"1\"/>").unwrap_err();
    assert_eq!(e.message(), "byte attribute: Invalid ByteEnum: 9.");
}
