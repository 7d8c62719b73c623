#![allow(unused_imports)]
use cbor_diag::{
    parse_diag, parse_hex, ByteString, DataItem, FloatLiteral, FloatText, FloatWidth, IntegerWidth,
    Simple, Tag, TextString,
};
use half::f16;
use separator::Separatable;

fn float_value(bits: u64, width: FloatWidth) -> f64 {
    match width {
        FloatWidth::Sixteen => f16::from_bits(bits as u16).to_f64(),
        FloatWidth::ThirtyTwo => f32::from_bits(bits as u32) as f64,
        _ => f64::from_bits(bits),
    }
}

fn epoch_datetime(value: f64) -> String {
    if value - 1.0 <= (i64::MIN as f64) || value >= (i64::MAX as f64) {
        return "offset is too large".to_owned();
    }
    let (value, fract) = if value < 0.0 {
        (value - 1.0, (1.0 + value.fract()) * 1_000_000_000.0)
    } else {
        (value, value.fract() * 1_000_000_000.0)
    };
    #[allow(deprecated)]
    match chrono::NaiveDateTime::from_timestamp_opt(value as i64, fract as u32) {
        Some(date) => format!("datetime({})", date.format("%FT%T%.fZ")),
        None => "offset is too large".to_owned(),
    }
}

fn float_text(bits: u64, width: FloatWidth, kind: FloatText) -> String {
    match kind {
        FloatText::Diag => match width {
            FloatWidth::Sixteen => f16::from_bits(bits as u16).to_string(),
            FloatWidth::ThirtyTwo => f32::from_bits(bits as u32).to_string(),
            _ => f64::from_bits(bits).to_string(),
        },
        FloatText::Plain => float_value(bits, width).to_string(),
        FloatText::Annotation => float_value(bits, width).separated_string(),
        FloatText::NativeAnnotation => match width {
            FloatWidth::ThirtyTwo => f32::from_bits(bits as u32).separated_string(),
            _ => float_value(bits, width).separated_string(),
        },
        FloatText::EpochDatetime => epoch_datetime(float_value(bits, width)),
    }
}

fn literal_value(literal: FloatLiteral) -> f64 {
    match literal {
        FloatLiteral::Decimal(text) => text.parse::<f64>().unwrap_or(f64::NAN),
        FloatLiteral::Hex { negative, mantissa, fraction, exponent_negative, exponent } => {
            let mut value = mantissa as f64;
            if let Some((digits, fraction)) = fraction {
                value += fraction as f64 / 16.0f64.powi(digits as i32);
            }
            let mut exponent = exponent as f64;
            if exponent_negative {
                exponent *= -1.0;
            }
            value *= exponent.exp2();
            if negative {
                value *= -1.0;
            }
            value
        }
        FloatLiteral::Infinity => f64::INFINITY,
        FloatLiteral::NegInfinity => f64::NEG_INFINITY,
        FloatLiteral::NaN => f64::NAN,
    }
}

fn float_bits(literal: FloatLiteral, width: FloatWidth) -> u64 {
    let value = literal_value(literal);
    match width {
        FloatWidth::Sixteen => f16::from_f64(value).to_bits() as u64,
        FloatWidth::ThirtyTwo => (value as f32).to_bits() as u64,
        _ => value.to_bits(),
    }
}

#[allow(dead_code)]
fn float_item(value: f64, bitwidth: FloatWidth) -> DataItem {
    let bits = match bitwidth {
        FloatWidth::Sixteen => f16::from_f64(value).to_bits() as u64,
        FloatWidth::ThirtyTwo => (value as f32).to_bits() as u64,
        _ => value.to_bits(),
    };
    DataItem::Float { value: bits, bitwidth }
}

#[allow(dead_code)]
fn hexv(text: &str) -> Vec<u8> {
    hex::decode(text).unwrap()
}

fn remove_comments(hex: &str) -> String {
    hex.lines().map(|line| line.split('#').next().unwrap().replace(' ', "")).collect()
}

#[allow(dead_code)]
fn diag2value(value: &DataItem, text: &str) {
    assert_eq!(parse_diag(text, &float_bits).unwrap(), *value);
}

#[allow(dead_code)]
fn hex2value(value: &DataItem, hex: &str) {
    assert_eq!(parse_hex(hex).unwrap(), *value);
}

#[allow(dead_code)]
fn value2diag(value: &DataItem, text: &str) {
    assert_eq!(value.to_diag(&float_text), text);
}

#[allow(dead_code)]
fn value2diag_pretty(value: &DataItem, text: &str) {
    assert_eq!(value.to_diag_pretty(&float_text), text);
}

#[allow(dead_code)]
fn value2bytes(value: &DataItem, hex: &str) {
    assert_eq!(hex::encode(value.to_bytes()), remove_comments(hex));
}

#[allow(dead_code)]
fn value2hex(value: &DataItem, hex: &str) {
    assert_eq!(value.to_hex(&float_text), hex);
}

#[test]
fn issues_issue_113_length_estimate_underflow() {
    let value = DataItem::Mapping {
            data: vec![
                (
                    DataItem::Integer {
                        value: 0,
                        bitwidth: IntegerWidth::Zero,
                    },
                    DataItem::ByteString(
                        ByteString {
                            data: hexv("0128bf0000002c").into(),
                            bitwidth: IntegerWidth::Unknown,
                        },
                    ),
                ),
                (
                    DataItem::Integer {
                        value: 1,
                        bitwidth: IntegerWidth::Zero,
                    },
                    DataItem::Tag {
                        tag: Tag(Tag::EPOCH_DATETIME),
                        bitwidth: IntegerWidth::Zero,
                        value: Box::new(DataItem::Integer {
                            value: 1654099789,
                            bitwidth: IntegerWidth::ThirtyTwo,
                        }),
                    },
                ),
                (
                    DataItem::Integer {
                        value: 2,
                        bitwidth: IntegerWidth::Zero,
                    },
                    DataItem::Mapping {
                        data: vec![
                            (
                                DataItem::Integer {
                                    value: 0,
                                    bitwidth: IntegerWidth::Zero,
                                },
                                DataItem::Array {
                                    data: vec![
                                        DataItem::Integer {
                                            value: 4,
                                            bitwidth: IntegerWidth::Zero,
                                        },
                                        DataItem::Integer {
                                            value: 0,
                                            bitwidth: IntegerWidth::Zero,
                                        },
                                    ],
                                    bitwidth: Some(IntegerWidth::Unknown),
                                },
                            ),
                        ],
                        bitwidth: Some(IntegerWidth::Unknown),
                    },
                ),
            ],
            bitwidth: Some(IntegerWidth::Unknown),
        };
    diag2value(&value, "{0:h'0128bf0000002c',1:1(1654099789_2),2:{0:[4,0]}}");
    diag2value(&value, "\n                {\n                    0: h'0128bf0000002c',\n                    1: 1(1654099789_2),\n                    2: {0: [4, 0]},\n                }\n            ");
    value2diag(&value, "{0:h'0128bf0000002c',1:1(1654099789_2),2:{0:[4,0]}}");
    value2diag_pretty(&value, "{\n    0: h'0128bf0000002c',\n    1: 1(1654099789_2),\n    2: {0: [4, 0]},\n}");
}
