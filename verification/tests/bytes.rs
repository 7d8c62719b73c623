#![allow(unused_imports)]
use cbor_diag::{
    parse_diag, parse_hex, ByteString, DataItem, FloatLiteral, FloatText, FloatWidth, IntegerWidth,
    Simple, Tag, TextString,
};
use half::f16;
use separator::Separatable;

fn float_value(bits: u64, width: FloatWidth) -> f64 {
    match width {
        FloatWidth::Sixteen => f16::from_bits(bits as u16).to_f64(),
        FloatWidth::ThirtyTwo => f32::from_bits(bits as u32) as f64,
        _ => f64::from_bits(bits),
    }
}

fn epoch_datetime(value: f64) -> String {
    if value - 1.0 <= (i64::MIN as f64) || value >= (i64::MAX as f64) {
        return "offset is too large".to_owned();
    }
    let (value, fract) = if value < 0.0 {
        (value - 1.0, (1.0 + value.fract()) * 1_000_000_000.0)
    } else {
        (value, value.fract() * 1_000_000_000.0)
    };
    #[allow(deprecated)]
    match chrono::NaiveDateTime::from_timestamp_opt(value as i64, fract as u32) {
        Some(date) => format!("datetime({})", date.format("%FT%T%.fZ")),
        None => "offset is too large".to_owned(),
    }
}

fn float_text(bits: u64, width: FloatWidth, kind: FloatText) -> String {
    match kind {
        FloatText::Diag => match width {
            FloatWidth::Sixteen => f16::from_bits(bits as u16).to_string(),
            FloatWidth::ThirtyTwo => f32::from_bits(bits as u32).to_string(),
            _ => f64::from_bits(bits).to_string(),
        },
        FloatText::Plain => float_value(bits, width).to_string(),
        FloatText::Annotation => float_value(bits, width).separated_string(),
        FloatText::NativeAnnotation => match width {
            FloatWidth::ThirtyTwo => f32::from_bits(bits as u32).separated_string(),
            _ => float_value(bits, width).separated_string(),
        },
        FloatText::EpochDatetime => epoch_datetime(float_value(bits, width)),
    }
}

fn literal_value(literal: FloatLiteral) -> f64 {
    match literal {
        FloatLiteral::Decimal(text) => text.parse::<f64>().unwrap_or(f64::NAN),
        FloatLiteral::Hex { negative, mantissa, fraction, exponent_negative, exponent } => {
            let mut value = mantissa as f64;
            if let Some((digits, fraction)) = fraction {
                value += fraction as f64 / 16.0f64.powi(digits as i32);
            }
            let mut exponent = exponent as f64;
            if exponent_negative {
                exponent *= -1.0;
            }
            value *= exponent.exp2();
            if negative {
                value *= -1.0;
            }
            value
        }
        FloatLiteral::Infinity => f64::INFINITY,
        FloatLiteral::NegInfinity => f64::NEG_INFINITY,
        FloatLiteral::NaN => f64::NAN,
    }
}

fn float_bits(literal: FloatLiteral, width: FloatWidth) -> u64 {
    let value = literal_value(literal);
    match width {
        FloatWidth::Sixteen => f16::from_f64(value).to_bits() as u64,
        FloatWidth::ThirtyTwo => (value as f32).to_bits() as u64,
        _ => value.to_bits(),
    }
}

#[allow(dead_code)]
fn float_item(value: f64, bitwidth: FloatWidth) -> DataItem {
    let bits = match bitwidth {
        FloatWidth::Sixteen => f16::from_f64(value).to_bits() as u64,
        FloatWidth::ThirtyTwo => (value as f32).to_bits() as u64,
        _ => value.to_bits(),
    };
    DataItem::Float { value: bits, bitwidth }
}

#[allow(dead_code)]
fn hexv(text: &str) -> Vec<u8> {
    hex::decode(text).unwrap()
}

fn remove_comments(hex: &str) -> String {
    hex.lines().map(|line| line.split('#').next().unwrap().replace(' ', "")).collect()
}

#[allow(dead_code)]
fn diag2value(value: &DataItem, text: &str) {
    assert_eq!(parse_diag(text, &float_bits).unwrap(), *value);
}

#[allow(dead_code)]
fn hex2value(value: &DataItem, hex: &str) {
    assert_eq!(parse_hex(hex).unwrap(), *value);
}

#[allow(dead_code)]
fn value2diag(value: &DataItem, text: &str) {
    assert_eq!(value.to_diag(&float_text), text);
}

#[allow(dead_code)]
fn value2diag_pretty(value: &DataItem, text: &str) {
    assert_eq!(value.to_diag_pretty(&float_text), text);
}

#[allow(dead_code)]
fn value2bytes(value: &DataItem, hex: &str) {
    assert_eq!(hex::encode(value.to_bytes()), remove_comments(hex));
}

#[allow(dead_code)]
fn value2hex(value: &DataItem, hex: &str) {
    assert_eq!(value.to_hex(&float_text), hex);
}

#[test]
fn bytes_diag_empty() {
    let value = DataItem::ByteString(ByteString::new(Vec::from(vec![])));
    diag2value(&value, "h''");
    diag2value(&value, "h''");
    value2diag(&value, "h''");
    value2diag_pretty(&value, "h''");
}

#[test]
fn bytes_diag_hello() {
    let value = DataItem::ByteString(ByteString::new(Vec::from(*b"hello")));
    diag2value(&value, "h'68656c6c6f'");
    diag2value(&value, "h'68656c6c6f'");
    value2diag(&value, "h'68656c6c6f'");
    value2diag_pretty(&value, "h'68656c6c6f'");
}

#[test]
fn bytes_diag_alpha() {
    let value = DataItem::ByteString(ByteString::new(Vec::from(*b"abcdefghijklmnopqrstuvwxyz")));
    diag2value(&value, "h'6162636465666768696a6b6c6d6e6f707172737475767778797a'");
    diag2value(&value, "h'6162636465666768696a6b6c6d6e6f707172737475767778797a'");
    value2diag(&value, "h'6162636465666768696a6b6c6d6e6f707172737475767778797a'");
    value2diag_pretty(&value, "h'6162636465666768696a6b6c6d6e6f707172737475767778797a'");
}

#[test]
fn bytes_diag_non_alpha() {
    let value = DataItem::ByteString(ByteString::new(Vec::from(vec![0, 1, 2, 3, 4, 5, 6, 7, 8, 9, 10])));
    diag2value(&value, "h'000102030405060708090a'");
    diag2value(&value, "h'000102030405060708090a'");
    value2diag(&value, "h'000102030405060708090a'");
    value2diag_pretty(&value, "h'000102030405060708090a'");
}

#[test]
fn bytes_tiny_empty() {
    let value = DataItem::ByteString(ByteString::new(Vec::from(vec![])).with_bitwidth(IntegerWidth::Zero)
            );
    hex2value(&value, "40 # bytes(0)\n   #   \"\"\n");
    value2bytes(&value, "40 # bytes(0)\n   #   \"\"\n");
    value2hex(&value, "40 # bytes(0)\n   #   \"\"\n");
}

#[test]
fn bytes_tiny_hello() {
    let value = DataItem::ByteString(ByteString::new(Vec::from(*b"hello")).with_bitwidth(IntegerWidth::Zero)
            );
    hex2value(&value, "45            # bytes(5)\n   68656c6c6f #   \"hello\"\n");
    value2bytes(&value, "45            # bytes(5)\n   68656c6c6f #   \"hello\"\n");
    value2hex(&value, "45            # bytes(5)\n   68656c6c6f #   \"hello\"\n");
}

#[test]
fn bytes_u8_empty() {
    let value = DataItem::ByteString(ByteString::new(Vec::from(vec![])).with_bitwidth(IntegerWidth::Eight)
            );
    hex2value(&value, "58 00 # bytes(0)\n      #   \"\"\n");
    value2bytes(&value, "58 00 # bytes(0)\n      #   \"\"\n");
    value2hex(&value, "58 00 # bytes(0)\n      #   \"\"\n");
}

#[test]
fn bytes_u8_hello() {
    let value = DataItem::ByteString(ByteString::new(Vec::from(*b"hello")).with_bitwidth(IntegerWidth::Eight)
            );
    hex2value(&value, "58 05         # bytes(5)\n   68656c6c6f #   \"hello\"\n");
    value2bytes(&value, "58 05         # bytes(5)\n   68656c6c6f #   \"hello\"\n");
    value2hex(&value, "58 05         # bytes(5)\n   68656c6c6f #   \"hello\"\n");
}

#[test]
fn bytes_u8_alpha() {
    let value = DataItem::ByteString(ByteString::new(Vec::from(*b"abcdefghijklmnopqrstuvwxyz")).with_bitwidth(IntegerWidth::Eight)
            );
    hex2value(&value, "58 1a                               # bytes(26)\n   6162636465666768696a6b6c6d6e6f70 #   \"abcdefghijklmnop\"\n   7172737475767778797a             #   \"qrstuvwxyz\"\n");
    value2bytes(&value, "58 1a                               # bytes(26)\n   6162636465666768696a6b6c6d6e6f70 #   \"abcdefghijklmnop\"\n   7172737475767778797a             #   \"qrstuvwxyz\"\n");
    value2hex(&value, "58 1a                               # bytes(26)\n   6162636465666768696a6b6c6d6e6f70 #   \"abcdefghijklmnop\"\n   7172737475767778797a             #   \"qrstuvwxyz\"\n");
}

#[test]
fn bytes_u8_non_alpha() {
    let value = DataItem::ByteString(ByteString::new(Vec::from(vec![0, 1, 2, 3, 4, 5, 6, 7, 8, 9, 10])).with_bitwidth(IntegerWidth::Eight)
            );
    hex2value(&value, "58 0b                     # bytes(11)\n   000102030405060708090a #   \"\\x00\\x01\\x02\\x03\\x04\\x05\\x06\\x07\\x08\\t\\n\"\n");
    value2bytes(&value, "58 0b                     # bytes(11)\n   000102030405060708090a #   \"\\x00\\x01\\x02\\x03\\x04\\x05\\x06\\x07\\x08\\t\\n\"\n");
    value2hex(&value, "58 0b                     # bytes(11)\n   000102030405060708090a #   \"\\x00\\x01\\x02\\x03\\x04\\x05\\x06\\x07\\x08\\t\\n\"\n");
}

#[test]
fn bytes_u16_empty() {
    let value = DataItem::ByteString(ByteString::new(Vec::from(vec![])).with_bitwidth(IntegerWidth::Sixteen)
            );
    hex2value(&value, "59 0000 # bytes(0)\n        #   \"\"\n");
    value2bytes(&value, "59 0000 # bytes(0)\n        #   \"\"\n");
    value2hex(&value, "59 0000 # bytes(0)\n        #   \"\"\n");
}

#[test]
fn bytes_u16_hello() {
    let value = DataItem::ByteString(ByteString::new(Vec::from(*b"hello")).with_bitwidth(IntegerWidth::Sixteen)
            );
    hex2value(&value, "59 0005       # bytes(5)\n   68656c6c6f #   \"hello\"\n");
    value2bytes(&value, "59 0005       # bytes(5)\n   68656c6c6f #   \"hello\"\n");
    value2hex(&value, "59 0005       # bytes(5)\n   68656c6c6f #   \"hello\"\n");
}

#[test]
fn bytes_u16_alpha() {
    let value = DataItem::ByteString(ByteString::new(Vec::from(*b"abcdefghijklmnopqrstuvwxyz")).with_bitwidth(IntegerWidth::Sixteen)
            );
    hex2value(&value, "59 001a                             # bytes(26)\n   6162636465666768696a6b6c6d6e6f70 #   \"abcdefghijklmnop\"\n   7172737475767778797a             #   \"qrstuvwxyz\"\n");
    value2bytes(&value, "59 001a                             # bytes(26)\n   6162636465666768696a6b6c6d6e6f70 #   \"abcdefghijklmnop\"\n   7172737475767778797a             #   \"qrstuvwxyz\"\n");
    value2hex(&value, "59 001a                             # bytes(26)\n   6162636465666768696a6b6c6d6e6f70 #   \"abcdefghijklmnop\"\n   7172737475767778797a             #   \"qrstuvwxyz\"\n");
}

#[test]
fn bytes_u32_empty() {
    let value = DataItem::ByteString(ByteString::new(Vec::from(vec![])).with_bitwidth(IntegerWidth::ThirtyTwo)
            );
    hex2value(&value, "5a 00000000 # bytes(0)\n            #   \"\"\n");
    value2bytes(&value, "5a 00000000 # bytes(0)\n            #   \"\"\n");
    value2hex(&value, "5a 00000000 # bytes(0)\n            #   \"\"\n");
}

#[test]
fn bytes_u32_hello() {
    let value = DataItem::ByteString(ByteString::new(Vec::from(*b"hello")).with_bitwidth(IntegerWidth::ThirtyTwo)
            );
    hex2value(&value, "5a 00000005   # bytes(5)\n   68656c6c6f #   \"hello\"\n");
    value2bytes(&value, "5a 00000005   # bytes(5)\n   68656c6c6f #   \"hello\"\n");
    value2hex(&value, "5a 00000005   # bytes(5)\n   68656c6c6f #   \"hello\"\n");
}

#[test]
fn bytes_u32_alpha() {
    let value = DataItem::ByteString(ByteString::new(Vec::from(*b"abcdefghijklmnopqrstuvwxyz")).with_bitwidth(IntegerWidth::ThirtyTwo)
            );
    hex2value(&value, "5a 0000001a                         # bytes(26)\n   6162636465666768696a6b6c6d6e6f70 #   \"abcdefghijklmnop\"\n   7172737475767778797a             #   \"qrstuvwxyz\"\n");
    value2bytes(&value, "5a 0000001a                         # bytes(26)\n   6162636465666768696a6b6c6d6e6f70 #   \"abcdefghijklmnop\"\n   7172737475767778797a             #   \"qrstuvwxyz\"\n");
    value2hex(&value, "5a 0000001a                         # bytes(26)\n   6162636465666768696a6b6c6d6e6f70 #   \"abcdefghijklmnop\"\n   7172737475767778797a             #   \"qrstuvwxyz\"\n");
}

#[test]
fn bytes_u64_empty() {
    let value = DataItem::ByteString(ByteString::new(Vec::from(vec![])).with_bitwidth(IntegerWidth::SixtyFour)
            );
    hex2value(&value, "5b 0000000000000000 # bytes(0)\n                    #   \"\"\n");
    value2bytes(&value, "5b 0000000000000000 # bytes(0)\n                    #   \"\"\n");
    value2hex(&value, "5b 0000000000000000 # bytes(0)\n                    #   \"\"\n");
}

#[test]
fn bytes_u64_hello() {
    let value = DataItem::ByteString(ByteString::new(Vec::from(*b"hello")).with_bitwidth(IntegerWidth::SixtyFour)
            );
    hex2value(&value, "5b 0000000000000005 # bytes(5)\n   68656c6c6f       #   \"hello\"\n");
    value2bytes(&value, "5b 0000000000000005 # bytes(5)\n   68656c6c6f       #   \"hello\"\n");
    value2hex(&value, "5b 0000000000000005 # bytes(5)\n   68656c6c6f       #   \"hello\"\n");
}

#[test]
fn bytes_u64_alpha() {
    let value = DataItem::ByteString(ByteString::new(Vec::from(*b"abcdefghijklmnopqrstuvwxyz")).with_bitwidth(IntegerWidth::SixtyFour)
            );
    hex2value(&value, "5b 000000000000001a                 # bytes(26)\n   6162636465666768696a6b6c6d6e6f70 #   \"abcdefghijklmnop\"\n   7172737475767778797a             #   \"qrstuvwxyz\"\n");
    value2bytes(&value, "5b 000000000000001a                 # bytes(26)\n   6162636465666768696a6b6c6d6e6f70 #   \"abcdefghijklmnop\"\n   7172737475767778797a             #   \"qrstuvwxyz\"\n");
    value2hex(&value, "5b 000000000000001a                 # bytes(26)\n   6162636465666768696a6b6c6d6e6f70 #   \"abcdefghijklmnop\"\n   7172737475767778797a             #   \"qrstuvwxyz\"\n");
}

#[test]
fn bytes_indefinite_diag_empty() {
    let value = DataItem::IndefiniteByteString(vec![]);
    value2diag(&value, "(_)");
    value2diag_pretty(&value, "(_ )");
}

#[test]
fn bytes_indefinite_diag_one_empty() {
    let value = DataItem::IndefiniteByteString(vec![
                    ByteString::new(Vec::from(vec![])),
                ]);
    diag2value(&value, "(_h'')");
    diag2value(&value, "(_ h'')");
    value2diag(&value, "(_h'')");
    value2diag_pretty(&value, "(_ h'')");
}

#[test]
fn bytes_indefinite_diag_some_empty() {
    let value = DataItem::IndefiniteByteString(vec![
                    ByteString::new(Vec::from(vec![])),
                    ByteString::new(Vec::from(vec![])),
                ]);
    diag2value(&value, "(_h'',h'')");
    diag2value(&value, "(_ h'', h'')");
    value2diag(&value, "(_h'',h'')");
    value2diag_pretty(&value, "(_ h'', h'')");
}

#[test]
fn bytes_indefinite_diag_hello() {
    let value = DataItem::IndefiniteByteString(vec![
                    ByteString::new(Vec::from(*b"hello")),
                ]);
    diag2value(&value, "(_h'68656c6c6f')");
    diag2value(&value, "(_ h'68656c6c6f')");
    value2diag(&value, "(_h'68656c6c6f')");
    value2diag_pretty(&value, "(_ h'68656c6c6f')");
}

#[test]
fn bytes_indefinite_diag_hello_world() {
    let value = DataItem::IndefiniteByteString(vec![
                    ByteString::new(Vec::from(*b"hello")),
                    ByteString::new(Vec::from(*b"world")),
                ]);
    diag2value(&value, "(_h'68656c6c6f',h'776f726c64')");
    diag2value(&value, "(_ h'68656c6c6f', h'776f726c64')");
    value2diag(&value, "(_h'68656c6c6f',h'776f726c64')");
    value2diag_pretty(&value, "(_ h'68656c6c6f', h'776f726c64')");
}

#[test]
fn bytes_indefinite_diag_alpha() {
    let value = DataItem::IndefiniteByteString(vec![
                    ByteString::new(Vec::from(*b"abc")),
                    ByteString::new(Vec::from(*b"")),
                    ByteString::new(Vec::from(*b"defghijklmnopqrstuv")),
                    ByteString::new(Vec::from(*b"wxyz")),
                ]);
    diag2value(&value, "(_h'616263',h'',h'6465666768696a6b6c6d6e6f70717273747576',h'7778797a')");
    diag2value(&value, "\n                    (_\n                        h'616263',\n                        h'',\n                        h'6465666768696a6b6c6d6e6f70717273747576',\n                        h'7778797a',\n                    )\n                    ");
    value2diag(&value, "(_h'616263',h'',h'6465666768696a6b6c6d6e6f70717273747576',h'7778797a')");
    value2diag_pretty(&value, "(_\n    h'616263',\n    h'',\n    h'6465666768696a6b6c6d6e6f70717273747576',\n    h'7778797a',\n)");
}

#[test]
fn bytes_indefinite_diag_non_alpha() {
    let value = DataItem::IndefiniteByteString(vec![
                    ByteString::new(Vec::from(vec![0, 1, 2, 3, 4])),
                    ByteString::new(Vec::from(vec![5, 6, 7, 8, 9, 10])),
                ]);
    diag2value(&value, "(_h'0001020304',h'05060708090a')");
    diag2value(&value, "(_ h'0001020304', h'05060708090a')");
    value2diag(&value, "(_h'0001020304',h'05060708090a')");
    value2diag_pretty(&value, "(_ h'0001020304', h'05060708090a')");
}

#[test]
fn bytes_indefinite_hex_empty() {
    let value = DataItem::IndefiniteByteString(vec![]);
    hex2value(&value, "5f    # bytes(*)\n   ff #   break\n");
    value2bytes(&value, "5f    # bytes(*)\n   ff #   break\n");
    value2hex(&value, "5f    # bytes(*)\n   ff #   break\n");
}

#[test]
fn bytes_indefinite_hex_one_empty() {
    let value = DataItem::IndefiniteByteString(vec![
                    ByteString::new(Vec::from(""))
                        .with_bitwidth(IntegerWidth::Zero),
                ]);
    hex2value(&value, "5f    # bytes(*)\n   40 #   bytes(0)\n      #     \"\"\n   ff #   break\n");
    value2bytes(&value, "5f    # bytes(*)\n   40 #   bytes(0)\n      #     \"\"\n   ff #   break\n");
    value2hex(&value, "5f    # bytes(*)\n   40 #   bytes(0)\n      #     \"\"\n   ff #   break\n");
}

#[test]
fn bytes_indefinite_hex_some_empty() {
    let value = DataItem::IndefiniteByteString(vec![
                    ByteString::new(Vec::from(""))
                        .with_bitwidth(IntegerWidth::Zero),
                    ByteString::new(Vec::from(""))
                        .with_bitwidth(IntegerWidth::Zero),
                ]);
    hex2value(&value, "5f    # bytes(*)\n   40 #   bytes(0)\n      #     \"\"\n   40 #   bytes(0)\n      #     \"\"\n   ff #   break\n");
    value2bytes(&value, "5f    # bytes(*)\n   40 #   bytes(0)\n      #     \"\"\n   40 #   bytes(0)\n      #     \"\"\n   ff #   break\n");
    value2hex(&value, "5f    # bytes(*)\n   40 #   bytes(0)\n      #     \"\"\n   40 #   bytes(0)\n      #     \"\"\n   ff #   break\n");
}

#[test]
fn bytes_indefinite_hex_hello_world() {
    let value = DataItem::IndefiniteByteString(vec![
                    ByteString::new(Vec::from(*b"hello"))
                        .with_bitwidth(IntegerWidth::Zero),
                    ByteString::new(Vec::from(*b"world"))
                        .with_bitwidth(IntegerWidth::Sixteen),
                ]);
    hex2value(&value, "5f               # bytes(*)\n   45            #   bytes(5)\n      68656c6c6f #     \"hello\"\n   59 0005       #   bytes(5)\n      776f726c64 #     \"world\"\n   ff            #   break\n");
    value2bytes(&value, "5f               # bytes(*)\n   45            #   bytes(5)\n      68656c6c6f #     \"hello\"\n   59 0005       #   bytes(5)\n      776f726c64 #     \"world\"\n   ff            #   break\n");
    value2hex(&value, "5f               # bytes(*)\n   45            #   bytes(5)\n      68656c6c6f #     \"hello\"\n   59 0005       #   bytes(5)\n      776f726c64 #     \"world\"\n   ff            #   break\n");
}

#[test]
fn bytes_indefinite_hex_alpha() {
    let value = DataItem::IndefiniteByteString(vec![
                    ByteString::new(Vec::from(*b"abc"))
                        .with_bitwidth(IntegerWidth::Zero),
                    ByteString::new(Vec::from(""))
                        .with_bitwidth(IntegerWidth::Sixteen),
                    ByteString::new(Vec::from(*b"defghijklmnopqrstuv"))
                        .with_bitwidth(IntegerWidth::ThirtyTwo),
                    ByteString::new(Vec::from(*b"wxyz"))
                        .with_bitwidth(IntegerWidth::SixtyFour),
                ]);
    hex2value(&value, "5f                                     # bytes(*)\n   43                                  #   bytes(3)\n      616263                           #     \"abc\"\n   59 0000                             #   bytes(0)\n                                       #     \"\"\n   5a 00000013                         #   bytes(19)\n      6465666768696a6b6c6d6e6f70717273 #     \"defghijklmnopqrs\"\n      747576                           #     \"tuv\"\n   5b 0000000000000004                 #   bytes(4)\n      7778797a                         #     \"wxyz\"\n   ff                                  #   break\n");
    value2bytes(&value, "5f                                     # bytes(*)\n   43                                  #   bytes(3)\n      616263                           #     \"abc\"\n   59 0000                             #   bytes(0)\n                                       #     \"\"\n   5a 00000013                         #   bytes(19)\n      6465666768696a6b6c6d6e6f70717273 #     \"defghijklmnopqrs\"\n      747576                           #     \"tuv\"\n   5b 0000000000000004                 #   bytes(4)\n      7778797a                         #     \"wxyz\"\n   ff                                  #   break\n");
    value2hex(&value, "5f                                     # bytes(*)\n   43                                  #   bytes(3)\n      616263                           #     \"abc\"\n   59 0000                             #   bytes(0)\n                                       #     \"\"\n   5a 00000013                         #   bytes(19)\n      6465666768696a6b6c6d6e6f70717273 #     \"defghijklmnopqrs\"\n      747576                           #     \"tuv\"\n   5b 0000000000000004                 #   bytes(4)\n      7778797a                         #     \"wxyz\"\n   ff                                  #   break\n");
}

#[test]
fn bytes_indefinite_hex_non_alpha() {
    let value = DataItem::IndefiniteByteString(vec![
                    ByteString::new(Vec::from(vec![0, 1, 2, 3, 4])).with_bitwidth(IntegerWidth::Zero),
                    ByteString::new(Vec::from(vec![5, 6, 7, 8, 9, 10])).with_bitwidth(IntegerWidth::Eight),
                ]);
    hex2value(&value, "5f                 # bytes(*)\n   45              #   bytes(5)\n      0001020304   #     \"\\x00\\x01\\x02\\x03\\x04\"\n   58 06           #   bytes(6)\n      05060708090a #     \"\\x05\\x06\\x07\\x08\\t\\n\"\n   ff              #   break\n");
    value2bytes(&value, "5f                 # bytes(*)\n   45              #   bytes(5)\n      0001020304   #     \"\\x00\\x01\\x02\\x03\\x04\"\n   58 06           #   bytes(6)\n      05060708090a #     \"\\x05\\x06\\x07\\x08\\t\\n\"\n   ff              #   break\n");
    value2hex(&value, "5f                 # bytes(*)\n   45              #   bytes(5)\n      0001020304   #     \"\\x00\\x01\\x02\\x03\\x04\"\n   58 06           #   bytes(6)\n      05060708090a #     \"\\x05\\x06\\x07\\x08\\t\\n\"\n   ff              #   break\n");
}

#[test]
fn bytes_indefinite_hex_escaped() {
    let value = DataItem::IndefiniteByteString(vec![
                    ByteString::new(Vec::from(*b"\\"))
                        .with_bitwidth(IntegerWidth::Zero),
                    ByteString::new(Vec::from(*b"\""))
                        .with_bitwidth(IntegerWidth::Eight),
                ]);
    hex2value(&value, "5f       # bytes(*)\n   41    #   bytes(1)\n      5c #     \"\\\\\"\n   58 01 #   bytes(1)\n      22 #     \"\\\"\"\n   ff    #   break\n");
    value2bytes(&value, "5f       # bytes(*)\n   41    #   bytes(1)\n      5c #     \"\\\\\"\n   58 01 #   bytes(1)\n      22 #     \"\\\"\"\n   ff    #   break\n");
    value2hex(&value, "5f       # bytes(*)\n   41    #   bytes(1)\n      5c #     \"\\\\\"\n   58 01 #   bytes(1)\n      22 #     \"\\\"\"\n   ff    #   break\n");
}

#[test]
fn bytes_encodings_base16() {
    let value = DataItem::ByteString(ByteString::new(Vec::from(hexv("12345678"))));
    diag2value(&value, "h'12345678'");
}

#[test]
fn bytes_encodings_base32() {
    let value = DataItem::ByteString(ByteString::new(Vec::from(hexv("12345678"))));
    diag2value(&value, "b32'CI2FM6A='");
}

#[test]
fn bytes_encodings_base32hex() {
    let value = DataItem::ByteString(ByteString::new(Vec::from(hexv("12345678"))));
    diag2value(&value, "h32'28Q5CU0='");
}

#[test]
fn bytes_encodings_base64() {
    let value = DataItem::ByteString(ByteString::new(Vec::from(hexv("12345678"))));
    diag2value(&value, "b64'EjRWeA=='");
}

#[test]
fn bytes_encodings_base64url() {
    let value = DataItem::ByteString(ByteString::new(Vec::from(hexv("12345678"))));
    diag2value(&value, "b64'EjRWeA'");
}

#[test]
fn bytes_encodings_utf8() {
    let value = DataItem::ByteString(ByteString::new(Vec::from(*b"'Hello Ferris!'")));
    diag2value(&value, "'\\'Hello Ferris!\\''");
}

#[test]
fn bytes_encodings_whitespace_base16() {
    let value = DataItem::ByteString(ByteString::new(Vec::from(hexv("12345678"))));
    diag2value(&value, "h'12 34\t56\n78'");
}

#[test]
fn bytes_encodings_whitespace_base32() {
    let value = DataItem::ByteString(ByteString::new(Vec::from(hexv("12345678"))));
    diag2value(&value, "b32'CI 2F\tM6A\n='");
}

#[test]
fn bytes_encodings_whitespace_base32hex() {
    let value = DataItem::ByteString(ByteString::new(Vec::from(hexv("12345678"))));
    diag2value(&value, "h32'28 Q5\tCU0\n='");
}

#[test]
fn bytes_encodings_whitespace_base64() {
    let value = DataItem::ByteString(ByteString::new(Vec::from(hexv("12345678"))));
    diag2value(&value, "b64'Ej RW\teA\n=='");
}

#[test]
fn bytes_encodings_whitespace_base64url() {
    let value = DataItem::ByteString(ByteString::new(Vec::from(hexv("12345678"))));
    diag2value(&value, "b64'Ej RW\teA\n'");
}

#[test]
fn bytes_concatenated_one() {
    let value = DataItem::ByteString(ByteString::new(Vec::from("Hello Ferris!")));
    diag2value(&value, "'Hello ' 'Ferris!'");
}

#[test]
fn bytes_concatenated_two() {
    let value = DataItem::ByteString(ByteString::new(Vec::from("Hello Ferris!")));
    diag2value(&value, "'Hello ' h'46657272697321'");
}

#[test]
fn bytes_concatenated_three() {
    let value = DataItem::ByteString(ByteString::new(Vec::from("Hello Ferris!")));
    diag2value(&value, "'Hello' h'20' 'Ferris!'");
}

#[test]
fn bytes_concatenated_four() {
    let value = DataItem::ByteString(ByteString::new(Vec::from("Hello Ferris!")));
    diag2value(&value, "'' h'48656c6c6f2046657272697321' '' b64''");
}

#[test]
fn bytes_concatenated_five() {
    let value = DataItem::ByteString(ByteString::new(Vec::from("Hello Ferris!")));
    diag2value(&value, "h'4 86 56c 6c6f' h' 20466 57272697321'");
}

#[test]
fn bytes_embedded_one() {
    let value = DataItem::ByteString(ByteString::new(Vec::from(hexv("01"))));
    diag2value(&value, "<<1>>");
}

#[test]
fn bytes_embedded_two() {
    let value = DataItem::ByteString(ByteString::new(Vec::from(hexv("0102"))));
    diag2value(&value, "<<1, 2>>");
}

#[test]
fn bytes_embedded_foo() {
    let value = DataItem::ByteString(ByteString::new(Vec::from(hexv("63666f6ff6"))));
    diag2value(&value, "<<\"foo\", null>>");
}

#[test]
fn bytes_embedded_empty() {
    let value = DataItem::ByteString(ByteString::new(Vec::from(vec![])));
    diag2value(&value, "<<>>");
}

#[test]
fn bytes_embedded_nested() {
    let value = DataItem::ByteString(ByteString::new(Vec::from(hexv("63666f6ff6420102"))));
    diag2value(&value, "<<\"foo\", null, <<1, 2>>>>");
}

#[test]
fn bytes_embedded_concatenated() {
    let value = DataItem::ByteString(ByteString::new(Vec::from(hexv("48656c6c6f4746657272697321"))));
    diag2value(&value, "'Hello' <<'Ferris!'>>");
}
