use cbor_diag::{
    parse_bytes, parse_bytes_partial, parse_diag, parse_hex, ByteString, DataItem, FloatLiteral,
    FloatText, FloatWidth, IntegerWidth, Simple, Tag, TextString,
};

fn no_float_text(_bits: u64, _width: FloatWidth, _kind: FloatText) -> String {
    String::new()
}

fn no_float_bits(_literal: FloatLiteral, _width: FloatWidth) -> u64 {
    0
}

fn message(error: cbor_diag::Error) -> String {
    error.to_message()
}

#[test]
fn multiply_overflow() {
    let _ = parse_bytes(&hex::decode("7b2000000000000000").unwrap());
    let _ = parse_bytes(&hex::decode("5b2000000000000000").unwrap());
}

#[test]
fn newline_in_string() {
    let item = DataItem::TextString(TextString { data: "\n".into(), bitwidth: IntegerWidth::Zero });
    assert_eq!(item, parse_hex(&item.to_hex(&no_float_text)).unwrap());
}

fn sample_items() -> Vec<DataItem> {
    vec![
        DataItem::Integer { value: 0, bitwidth: IntegerWidth::Zero },
        DataItem::Integer { value: 500, bitwidth: IntegerWidth::SixtyFour },
        DataItem::Negative { value: 23, bitwidth: IntegerWidth::Eight },
        DataItem::ByteString(ByteString { data: (0..40).collect(), bitwidth: IntegerWidth::Sixteen }),
        DataItem::TextString(TextString { data: "a\u{e9}\u{1f600}\"\\\t".into(), bitwidth: IntegerWidth::ThirtyTwo }),
        DataItem::IndefiniteByteString(vec![
            ByteString { data: vec![1, 2], bitwidth: IntegerWidth::Zero },
            ByteString { data: vec![], bitwidth: IntegerWidth::Eight },
        ]),
        DataItem::IndefiniteTextString(vec![TextString { data: "x".into(), bitwidth: IntegerWidth::Zero }]),
        DataItem::Array {
            data: vec![
                DataItem::Simple(Simple(Simple::NULL)),
                DataItem::Simple(Simple(200)),
                DataItem::Float { value: 0x3c00, bitwidth: FloatWidth::Sixteen },
            ],
            bitwidth: None,
        },
        DataItem::Mapping {
            data: vec![(
                DataItem::Integer { value: 1, bitwidth: IntegerWidth::Zero },
                DataItem::Tag {
                    tag: Tag(1000),
                    bitwidth: IntegerWidth::Sixteen,
                    value: Box::new(DataItem::Integer { value: 2, bitwidth: IntegerWidth::Zero }),
                },
            )],
            bitwidth: Some(IntegerWidth::Eight),
        },
    ]
}

#[test]
fn bytes_roundtrip_of_samples() {
    for item in sample_items() {
        assert_eq!(parse_bytes(&item.to_bytes()).unwrap(), item);
    }
}

#[test]
fn hex_roundtrip_of_samples() {
    for item in sample_items() {
        assert_eq!(parse_hex(&item.to_hex(&no_float_text)).unwrap(), item);
    }
}

#[test]
fn hex_roundtrip_shows_widths() {
    let item = DataItem::Array {
        data: vec![
            DataItem::Integer { value: 500, bitwidth: IntegerWidth::Unknown },
            DataItem::TextString(TextString { data: "abc".into(), bitwidth: IntegerWidth::Unknown }),
            DataItem::Float { value: 0x3ff0000000000000, bitwidth: FloatWidth::Unknown },
        ],
        bitwidth: Some(IntegerWidth::Unknown),
    };
    let expected = DataItem::Array {
        data: vec![
            DataItem::Integer { value: 500, bitwidth: IntegerWidth::Sixteen },
            DataItem::TextString(TextString { data: "abc".into(), bitwidth: IntegerWidth::Zero }),
            DataItem::Float { value: 0x3ff0000000000000, bitwidth: FloatWidth::SixtyFour },
        ],
        bitwidth: Some(IntegerWidth::Zero),
    };
    assert_eq!(parse_hex(&item.to_hex(&no_float_text)).unwrap(), expected);
}

#[test]
fn parse_bytes_errors() {
    assert_eq!(message(parse_bytes(&[0x1c]).unwrap_err()), "Parsing error (invalid data item)");
    assert_eq!(message(parse_bytes(&[0x19, 0x01]).unwrap_err()), "Parsing error (incomplete data item)");
    assert_eq!(message(parse_bytes(&[0x01, 0x02, 0xff]).unwrap_err()), "Remaining bytes (02ff)");
}

#[test]
fn parse_bytes_partial_results() {
    assert_eq!(
        parse_bytes_partial(&[0x18, 0x20, 0x05]).unwrap(),
        Some((DataItem::Integer { value: 32, bitwidth: IntegerWidth::Eight }, 2))
    );
    assert_eq!(parse_bytes_partial(&[0x19, 0x01]).unwrap(), None);
    assert_eq!(message(parse_bytes_partial(&[0x1c]).unwrap_err()), "Parser error");
}

#[test]
fn parse_hex_errors() {
    assert!(parse_hex("0g").is_err());
    assert!(parse_hex("012").is_err());
    assert_eq!(
        parse_hex("18 # a comment\n 2a # more").unwrap(),
        DataItem::Integer { value: 42, bitwidth: IntegerWidth::Eight }
    );
}

#[test]
fn parse_diag_errors() {
    assert_eq!(
        message(parse_diag("[1,", &no_float_bits).unwrap_err()),
        "Parsing error (invalid diagnostic notation)"
    );
    assert_eq!(message(parse_diag("1 2", &no_float_bits).unwrap_err()), "Remaining text (\"2\")");
    assert_eq!(message(parse_diag("", &no_float_bits).unwrap_err()), "Parsing error (invalid diagnostic notation)");
}

#[test]
fn parse_diag_encodings() {
    let bytes = |data: &[u8]| DataItem::ByteString(ByteString { data: data.to_vec(), bitwidth: IntegerWidth::Unknown });
    assert_eq!(parse_diag("h'48656c6c6f'", &no_float_bits).unwrap(), bytes(b"Hello"));
    assert_eq!(parse_diag("b32'JBSWY3DP'", &no_float_bits).unwrap(), bytes(b"Hello"));
    assert_eq!(parse_diag("h32'91IMOR3F'", &no_float_bits).unwrap(), bytes(b"Hello"));
    assert_eq!(parse_diag("b64'SGVsbG8'", &no_float_bits).unwrap(), bytes(b"Hello"));
    assert_eq!(parse_diag("b64'SGVsbG8='", &no_float_bits).unwrap(), bytes(b"Hello"));
    assert_eq!(parse_diag("<<1, \"a\">>", &no_float_bits).unwrap(), bytes(&[0x01, 0x61, 0x61]));
    assert_eq!(parse_diag("'a' h'62' /c/ 'c'", &no_float_bits).unwrap(), bytes(b"abc"));
    assert!(parse_diag("h'4'", &no_float_bits).is_err());
}

#[test]
fn parse_diag_numbers() {
    let int = |value: u64, bitwidth: IntegerWidth| DataItem::Integer { value, bitwidth };
    assert_eq!(parse_diag("0x10", &no_float_bits).unwrap(), int(16, IntegerWidth::Zero));
    assert_eq!(parse_diag("0o17_1", &no_float_bits).unwrap(), int(15, IntegerWidth::Sixteen));
    assert_eq!(parse_diag("0b101", &no_float_bits).unwrap(), int(5, IntegerWidth::Zero));
    assert_eq!(parse_diag("24", &no_float_bits).unwrap(), int(24, IntegerWidth::Unknown));
    assert_eq!(
        parse_diag("-24", &no_float_bits).unwrap(),
        DataItem::Negative { value: 23, bitwidth: IntegerWidth::Zero }
    );
    assert_eq!(
        parse_diag("-18446744073709551616", &no_float_bits).unwrap(),
        DataItem::Negative { value: u64::MAX, bitwidth: IntegerWidth::Unknown }
    );
    assert!(parse_diag("18446744073709551616", &no_float_bits).is_err());
    assert!(parse_diag("-0", &no_float_bits).is_err());
}

#[test]
fn parse_diag_float_literals() {
    let seen = |literal: FloatLiteral, width: FloatWidth| -> u64 {
        match (literal, width) {
            (FloatLiteral::Decimal(text), FloatWidth::ThirtyTwo) if text == "-1.5e3" => 1,
            (FloatLiteral::Hex { negative: false, mantissa: 1, fraction: Some((1, 8)), exponent_negative: true, exponent: 2 }, FloatWidth::Unknown) => 2,
            (FloatLiteral::NegInfinity, FloatWidth::Sixteen) => 3,
            (FloatLiteral::NaN, FloatWidth::Unknown) => 4,
            _ => 99,
        }
    };
    assert_eq!(parse_diag("-1.5e3_2", &seen).unwrap(), DataItem::Float { value: 1, bitwidth: FloatWidth::ThirtyTwo });
    assert_eq!(parse_diag("0x1.8p-2", &seen).unwrap(), DataItem::Float { value: 2, bitwidth: FloatWidth::Unknown });
    assert_eq!(parse_diag("-Infinity_1", &seen).unwrap(), DataItem::Float { value: 3, bitwidth: FloatWidth::Sixteen });
    assert_eq!(parse_diag("NaN", &seen).unwrap(), DataItem::Float { value: 4, bitwidth: FloatWidth::Unknown });
}

#[test]
fn parse_diag_containers() {
    let int = |value: u64| DataItem::Integer { value, bitwidth: IntegerWidth::Zero };
    assert_eq!(
        parse_diag("[_ 1, [2], ]", &no_float_bits).unwrap(),
        DataItem::Array { data: vec![int(1), DataItem::Array { data: vec![int(2)], bitwidth: Some(IntegerWidth::Unknown) }], bitwidth: None }
    );
    assert!(parse_diag("[1,]", &no_float_bits).is_err());
    assert_eq!(
        parse_diag("{1: 2, 3: 4}", &no_float_bits).unwrap(),
        DataItem::Mapping { data: vec![(int(1), int(2)), (int(3), int(4))], bitwidth: Some(IntegerWidth::Unknown) }
    );
    assert_eq!(
        parse_diag("(_ \"a\", \"b\" h'63')", &no_float_bits).unwrap(),
        DataItem::IndefiniteTextString(vec![
            TextString { data: "a".into(), bitwidth: IntegerWidth::Unknown },
            TextString { data: "bc".into(), bitwidth: IntegerWidth::Unknown },
        ])
    );
    assert!(parse_diag("\"a\" h'ff'", &no_float_bits).is_err());
    assert_eq!(
        parse_diag("simple(255)", &no_float_bits).unwrap(),
        DataItem::Simple(Simple(255))
    );
    assert!(parse_diag("simple(256)", &no_float_bits).is_err());
}
