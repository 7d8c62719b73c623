use cbor_diag::encode::annotate::{ipv4_address_or_prefix, ipv6_address_or_prefix};
use cbor_diag::encode::bytes::{
    definite_bytestring_to_bytes, definite_textstring_to_bytes, integer_to_bytes,
    negative_to_bytes, positive_to_bytes, simple_to_bytes,
};
use cbor_diag::encode::diag::{estimate, Context, Layout};
use cbor_diag::encode::hex::{integer_to_hex, length_to_hex, negative_to_hex, simple_to_hex};
use cbor_diag::parse::remove_comments;
use cbor_diag::{
    parse_bytes, parse_bytes_partial, parse_diag, parse_hex, ByteString, DataItem, Encoding,
    FloatLiteral, FloatWidth, IntegerWidth, Simple, Tag, TextString,
};

fn no_float_bits(_literal: FloatLiteral, _width: FloatWidth) -> u64 {
    0
}

fn uri_item(bitwidth: IntegerWidth, text_width: IntegerWidth) -> DataItem {
    DataItem::Tag {
        tag: Tag(32),
        bitwidth,
        value: Box::new(DataItem::TextString(TextString {
            data: "https://example.com".into(),
            bitwidth: text_width,
        })),
    }
}

#[test]
fn doc_parse_bytes() {
    let bytes = b"\xd8\x20\x73\x68\x74\x74\x70\x73\x3a\x2f\x2f\x65\x78\x61\x6d\x70\x6c\x65\x2e\x63\x6f\x6d";
    assert_eq!(
        parse_bytes(&bytes[..]).unwrap(),
        uri_item(IntegerWidth::Eight, IntegerWidth::Zero)
    );
}

#[test]
fn doc_parse_bytes_partial() {
    let short = b"\xd8\x20\x73\x68\x74\x74\x70\x73\x3a\x2f\x2f\x65\x78\x61\x6d\x70\x6c\x65\x2e\x63\x6f";
    assert_eq!(parse_bytes_partial(&short[..]).unwrap(), None);
    let long = b"\xd8\x20\x73\x68\x74\x74\x70\x73\x3a\x2f\x2f\x65\x78\x61\x6d\x70\x6c\x65\x2e\x63\x6f\x6d\xff";
    assert_eq!(
        parse_bytes_partial(&long[..]).unwrap(),
        Some((uri_item(IntegerWidth::Eight, IntegerWidth::Zero), 22))
    );
}

#[test]
fn doc_parse_hex() {
    let text = r#"
        d8 20                                        # uri, tag(32)
           73                                        #   text(19)
              68747470733a2f2f6578616d706c652e636f6d #     "https://example.com"
    "#;
    assert_eq!(parse_hex(text).unwrap(), uri_item(IntegerWidth::Eight, IntegerWidth::Zero));
}

#[test]
fn doc_parse_diag() {
    assert_eq!(
        parse_diag(r#"32("https://example.com")"#, &no_float_bits).unwrap(),
        uri_item(IntegerWidth::Unknown, IntegerWidth::Unknown)
    );
}

#[test]
fn override_with_prefers_the_overrider() {
    assert_eq!(Encoding::Base16.override_with(Some(Encoding::Base64)), Encoding::Base64);
    assert_eq!(Encoding::Base64Url.override_with(None), Encoding::Base64Url);
}

#[test]
fn remove_comments_keeps_only_hex() {
    assert_eq!(remove_comments("d8 20 # uri\r\n  73 #x\n01"), "d8207301");
    assert_eq!(remove_comments("a\rb"), "a\rb");
}

#[test]
fn header_bytes_of_each_width() {
    let mut bytes = Vec::new();
    integer_to_bytes(&mut bytes, 500, IntegerWidth::Unknown, 0);
    assert_eq!(bytes, vec![0x19, 0x01, 0xf4]);
    let mut bytes = Vec::new();
    positive_to_bytes(&mut bytes, 1, IntegerWidth::ThirtyTwo);
    assert_eq!(bytes, vec![0x1a, 0, 0, 0, 1]);
    let mut bytes = Vec::new();
    negative_to_bytes(&mut bytes, 0, IntegerWidth::Eight);
    assert_eq!(bytes, vec![0x38, 0x00]);
    let mut bytes = Vec::new();
    simple_to_bytes(&mut bytes, Simple(200));
    assert_eq!(bytes, vec![0xf8, 0xc8]);
}

#[test]
fn string_bytes_with_headers() {
    let mut bytes = vec![0xaa];
    definite_bytestring_to_bytes(&mut bytes, &ByteString { data: vec![1, 2], bitwidth: IntegerWidth::Sixteen });
    assert_eq!(bytes, vec![0xaa, 0x59, 0x00, 0x02, 1, 2]);
    let mut bytes = Vec::new();
    definite_textstring_to_bytes(&mut bytes, &TextString { data: "\u{e9}".into(), bitwidth: IntegerWidth::Unknown });
    assert_eq!(bytes, vec![0x62, 0xc3, 0xa9]);
}

#[test]
fn hex_lines_of_heads() {
    assert_eq!(integer_to_hex(500, IntegerWidth::Unknown).merge(), "19 01f4 # unsigned(500)\n");
    assert_eq!(negative_to_hex(0, IntegerWidth::Zero).merge(), "20 # negative(-1)\n");
    assert_eq!(length_to_hex(Some(3), Some(IntegerWidth::Unknown), 4, "array").merge(), "83 # array(3)\n");
    assert_eq!(length_to_hex(None, None, 4, "array").merge(), "9f # array(*)\n");
    assert_eq!(simple_to_hex(Simple(24)).merge(), "f8 18 # reserved, simple(24)\n");
}

#[test]
fn context_writes_text() {
    let mut context = Context::new(Layout::Compact);
    assert!(!context.pretty());
    context.integer_to_diag(500, IntegerWidth::Sixteen);
    context.line();
    context.indent = 2;
    context.indent();
    context.negative_to_diag(0, IntegerWidth::Unknown);
    context.simple_to_diag(Simple(20));
    let moved = context.with_encoding(Encoding::Base64);
    assert_eq!(moved.output.iter().collect::<String>(), "500_1\n  -1false");
    assert_eq!(moved.encoding, Encoding::Base64);
    assert!(context.output.is_empty());
    assert!(Context::new(Layout::Pretty).pretty());
}

#[test]
fn partial_and_whole_agree() {
    let one = || DataItem::Integer { value: 1, bitwidth: IntegerWidth::Zero };
    assert_eq!(parse_bytes(&[0x01]).unwrap(), one());
    assert_eq!(parse_bytes_partial(&[0x01]).unwrap(), Some((one(), 1)));
    assert_eq!(parse_bytes(&[0x01, 0x02]).unwrap_err().to_message(), "Remaining bytes (02)");
    assert_eq!(parse_bytes_partial(&[0x01, 0x02]).unwrap(), Some((one(), 1)));
    assert_eq!(parse_bytes(&[0x18]).unwrap_err().to_message(), "Parsing error (incomplete data item)");
    assert_eq!(parse_bytes_partial(&[0x18]).unwrap(), None);
    assert_eq!(parse_bytes(&[0xff]).unwrap_err().to_message(), "Parsing error (invalid data item)");
    assert_eq!(parse_bytes_partial(&[0xff]).unwrap_err().to_message(), "Parser error");
}

#[test]
fn overlong_prefixes_get_a_note() {
    let v4 = DataItem::Array {
        data: vec![
            DataItem::Integer { value: 24, bitwidth: IntegerWidth::Eight },
            DataItem::ByteString(ByteString { data: vec![192, 0, 2, 1, 5], bitwidth: IntegerWidth::Zero }),
        ],
        bitwidth: Some(IntegerWidth::Zero),
    };
    let line = ipv4_address_or_prefix(&v4);
    assert_eq!(line.hex, "");
    assert_eq!(line.comment, "invalid data length for IPv4 prefix");
    let v6 = DataItem::Array {
        data: vec![
            DataItem::Integer { value: 64, bitwidth: IntegerWidth::Eight },
            DataItem::ByteString(ByteString { data: vec![1u8; 17], bitwidth: IntegerWidth::Zero }),
        ],
        bitwidth: Some(IntegerWidth::Zero),
    };
    assert_eq!(ipv6_address_or_prefix(&v6).comment, "invalid data length for IPv6 prefix");
    let item = DataItem::Tag { tag: Tag(54), bitwidth: IntegerWidth::Eight, value: Box::new(v6) };
    let hex = item.to_hex(&cbor_diag_float_text);
    assert!(hex.contains("invalid data length for IPv6 prefix"));
    assert_eq!(parse_hex(&hex).unwrap(), item);
}

fn cbor_diag_float_text(_bits: u64, _width: FloatWidth, _kind: cbor_diag::FloatText) -> String {
    String::new()
}

fn small_int(value: u64) -> DataItem {
    DataItem::Integer { value, bitwidth: IntegerWidth::Zero }
}

#[test]
fn estimate_stops_without_changing_the_comparison() {
    let long = DataItem::Array { data: (0..20).map(|_| small_int(1)).collect(), bitwidth: None };
    assert!(estimate(&long, 10, &cbor_diag_float_text) >= 10);
    assert!(estimate(&long, usize::MAX, &cbor_diag_float_text) >= 10);
    let short = DataItem::Array { data: vec![small_int(1), small_int(2)], bitwidth: None };
    assert_eq!(estimate(&short, 60, &cbor_diag_float_text), 14);
    assert_eq!(estimate(&short, usize::MAX, &cbor_diag_float_text), 14);
}

#[test]
fn comments_start_in_one_column() {
    let item = DataItem::Array {
        data: vec![
            DataItem::Array { data: vec![small_int(1), DataItem::Integer { value: 500, bitwidth: IntegerWidth::SixtyFour }], bitwidth: None },
            DataItem::TextString(TextString { data: "abc".into(), bitwidth: IntegerWidth::Zero }),
        ],
        bitwidth: Some(IntegerWidth::Zero),
    };
    let hex = item.to_hex(&cbor_diag_float_text);
    let column = hex.lines().next().unwrap().find(" # ").unwrap();
    assert_eq!(column, "      1b 00000000000001f4".len());
    for line in hex.lines() {
        assert_eq!(&line[column..column + 3], " # ");
        assert!(!line[..column].contains('#'));
    }
}

#[test]
fn compact_diag_is_one_line() {
    let item = DataItem::Mapping {
        data: vec![(
            small_int(1),
            DataItem::Array { data: (0..30).map(small_int).collect(), bitwidth: Some(IntegerWidth::Zero) },
        )],
        bitwidth: Some(IntegerWidth::Zero),
    };
    assert!(!item.to_diag(&cbor_diag_float_text).contains('\n'));
    assert!(item.to_diag_pretty(&cbor_diag_float_text).contains('\n'));
    let text = DataItem::TextString(TextString { data: "a\nb".into(), bitwidth: IntegerWidth::Zero });
    assert_eq!(text.to_diag(&cbor_diag_float_text), "\"a\nb\"");
}

#[test]
fn partial_prefix_parses_alone() {
    let bytes = [0x82, 0x01, 0x02, 0xff, 0x00];
    let (item, len) = parse_bytes_partial(&bytes).unwrap().unwrap();
    assert_eq!(len, 3);
    assert_eq!(parse_bytes(&bytes[..len]).unwrap(), item);
}

fn refusing_float_text(_bits: u64, _width: FloatWidth, _kind: cbor_diag::FloatText) -> String {
    panic!("no float text is needed here")
}

#[test]
fn float_free_items_need_no_float_text() {
    let item = DataItem::Array {
        data: vec![
            small_int(1),
            DataItem::Tag {
                tag: Tag(1),
                bitwidth: IntegerWidth::Zero,
                value: Box::new(DataItem::Integer { value: 0, bitwidth: IntegerWidth::Zero }),
            },
        ],
        bitwidth: Some(IntegerWidth::Zero),
    };
    assert_eq!(item.to_diag(&refusing_float_text), "[1,1(0)]");
    assert_eq!(item.to_diag_pretty(&refusing_float_text), "[1, 1(0)]");
    assert!(item.to_hex(&refusing_float_text).contains("datetime(1970-01-01T00:00:00Z)"));
}

#[test]
fn plain_tags_read_back() {
    let item = DataItem::Array {
        data: vec![
            DataItem::Tag {
                tag: Tag(4),
                bitwidth: IntegerWidth::Zero,
                value: Box::new(DataItem::Array {
                    data: vec![
                        DataItem::Negative { value: 1, bitwidth: IntegerWidth::Zero },
                        DataItem::Integer { value: 27315, bitwidth: IntegerWidth::Sixteen },
                    ],
                    bitwidth: Some(IntegerWidth::Zero),
                }),
            },
            DataItem::TextString(TextString { data: "a\nb".into(), bitwidth: IntegerWidth::Zero }),
            DataItem::Tag {
                tag: Tag(28),
                bitwidth: IntegerWidth::Eight,
                value: Box::new(small_int(7)),
            },
            DataItem::Tag {
                tag: Tag(29),
                bitwidth: IntegerWidth::Eight,
                value: Box::new(small_int(0)),
            },
        ],
        bitwidth: Some(IntegerWidth::Zero),
    };
    let hex = item.to_hex(&refusing_float_text);
    assert!(hex.contains("decimal fraction(5463/20)"));
    assert!(hex.contains("\"a\\nb\""));
    assert_eq!(parse_hex(&hex).unwrap(), item);
}
