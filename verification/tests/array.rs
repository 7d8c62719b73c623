#![allow(unused_imports)]
use cbor_diag::{
    parse_diag, parse_hex, ByteString, DataItem, FloatLiteral, FloatText, FloatWidth, IntegerWidth,
    Simple, Tag, TextString,
};
use half::f16;
use separator::Separatable;

fn float_value(bits: u64, width: FloatWidth) -> f64 {
    match width {
        FloatWidth::Sixteen => f16::from_bits(bits as u16).to_f64(),
        FloatWidth::ThirtyTwo => f32::from_bits(bits as u32) as f64,
        _ => f64::from_bits(bits),
    }
}

fn epoch_datetime(value: f64) -> String {
    if value - 1.0 <= (i64::MIN as f64) || value >= (i64::MAX as f64) {
        return "offset is too large".to_owned();
    }
    let (value, fract) = if value < 0.0 {
        (value - 1.0, (1.0 + value.fract()) * 1_000_000_000.0)
    } else {
        (value, value.fract() * 1_000_000_000.0)
    };
    #[allow(deprecated)]
    match chrono::NaiveDateTime::from_timestamp_opt(value as i64, fract as u32) {
        Some(date) => format!("datetime({})", date.format("%FT%T%.fZ")),
        None => "offset is too large".to_owned(),
    }
}

fn float_text(bits: u64, width: FloatWidth, kind: FloatText) -> String {
    match kind {
        FloatText::Diag => match width {
            FloatWidth::Sixteen => f16::from_bits(bits as u16).to_string(),
            FloatWidth::ThirtyTwo => f32::from_bits(bits as u32).to_string(),
            _ => f64::from_bits(bits).to_string(),
        },
        FloatText::Plain => float_value(bits, width).to_string(),
        FloatText::Annotation => float_value(bits, width).separated_string(),
        FloatText::NativeAnnotation => match width {
            FloatWidth::ThirtyTwo => f32::from_bits(bits as u32).separated_string(),
            _ => float_value(bits, width).separated_string(),
        },
        FloatText::EpochDatetime => epoch_datetime(float_value(bits, width)),
    }
}

fn literal_value(literal: FloatLiteral) -> f64 {
    match literal {
        FloatLiteral::Decimal(text) => text.parse::<f64>().unwrap_or(f64::NAN),
        FloatLiteral::Hex { negative, mantissa, fraction, exponent_negative, exponent } => {
            let mut value = mantissa as f64;
            if let Some((digits, fraction)) = fraction {
                value += fraction as f64 / 16.0f64.powi(digits as i32);
            }
            let mut exponent = exponent as f64;
            if exponent_negative {
                exponent *= -1.0;
            }
            value *= exponent.exp2();
            if negative {
                value *= -1.0;
            }
            value
        }
        FloatLiteral::Infinity => f64::INFINITY,
        FloatLiteral::NegInfinity => f64::NEG_INFINITY,
        FloatLiteral::NaN => f64::NAN,
    }
}

fn float_bits(literal: FloatLiteral, width: FloatWidth) -> u64 {
    let value = literal_value(literal);
    match width {
        FloatWidth::Sixteen => f16::from_f64(value).to_bits() as u64,
        FloatWidth::ThirtyTwo => (value as f32).to_bits() as u64,
        _ => value.to_bits(),
    }
}

#[allow(dead_code)]
fn float_item(value: f64, bitwidth: FloatWidth) -> DataItem {
    let bits = match bitwidth {
        FloatWidth::Sixteen => f16::from_f64(value).to_bits() as u64,
        FloatWidth::ThirtyTwo => (value as f32).to_bits() as u64,
        _ => value.to_bits(),
    };
    DataItem::Float { value: bits, bitwidth }
}

#[allow(dead_code)]
fn hexv(text: &str) -> Vec<u8> {
    hex::decode(text).unwrap()
}

fn remove_comments(hex: &str) -> String {
    hex.lines().map(|line| line.split('#').next().unwrap().replace(' ', "")).collect()
}

#[allow(dead_code)]
fn diag2value(value: &DataItem, text: &str) {
    assert_eq!(parse_diag(text, &float_bits).unwrap(), *value);
}

#[allow(dead_code)]
fn hex2value(value: &DataItem, hex: &str) {
    assert_eq!(parse_hex(hex).unwrap(), *value);
}

#[allow(dead_code)]
fn value2diag(value: &DataItem, text: &str) {
    assert_eq!(value.to_diag(&float_text), text);
}

#[allow(dead_code)]
fn value2diag_pretty(value: &DataItem, text: &str) {
    assert_eq!(value.to_diag_pretty(&float_text), text);
}

#[allow(dead_code)]
fn value2bytes(value: &DataItem, hex: &str) {
    assert_eq!(hex::encode(value.to_bytes()), remove_comments(hex));
}

#[allow(dead_code)]
fn value2hex(value: &DataItem, hex: &str) {
    assert_eq!(value.to_hex(&float_text), hex);
}

#[test]
fn array_diag_empty() {
    let value = DataItem::Array {
                data: vec![],
                bitwidth: Some(IntegerWidth::Unknown),
            };
    diag2value(&value, "[]");
    diag2value(&value, "[]");
    value2diag(&value, "[]");
    value2diag_pretty(&value, "[]");
}

#[test]
fn array_diag_hello() {
    let value = DataItem::Array {
                data: vec![
                    DataItem::TextString(TextString {
                        data: "hello".into(),
                        bitwidth: IntegerWidth::Unknown,
                    }),
                ],
                bitwidth: Some(IntegerWidth::Unknown),
            };
    diag2value(&value, "[\"hello\"]");
    diag2value(&value, "[\"hello\"]");
    value2diag(&value, "[\"hello\"]");
    value2diag_pretty(&value, "[\"hello\"]");
}

#[test]
fn array_diag_hello_world() {
    let value = DataItem::Array {
                data: vec![
                    DataItem::TextString(TextString {
                        data: "hello".into(),
                        bitwidth: IntegerWidth::Unknown,
                    }),
                    DataItem::TextString(TextString {
                        data: "world".into(),
                        bitwidth: IntegerWidth::Unknown,
                    }),
                ],
                bitwidth: Some(IntegerWidth::Unknown),
            };
    diag2value(&value, "[\"hello\",\"world\"]");
    diag2value(&value, "[\"hello\", \"world\"]");
    value2diag(&value, "[\"hello\",\"world\"]");
    value2diag_pretty(&value, "[\"hello\", \"world\"]");
}

#[test]
fn array_diag_non_alpha() {
    let value = DataItem::Array {
                data: vec![
                    DataItem::TextString(TextString {
                        data: "\u{1f1f3}".into(),
                        bitwidth: IntegerWidth::Unknown,
                    }),
                    DataItem::TextString(TextString {
                        data: "\u{1f1ff}".into(),
                        bitwidth: IntegerWidth::Unknown,
                    }),
                ],
                bitwidth: Some(IntegerWidth::Unknown),
            };
    diag2value(&value, "[\"🇳\",\"🇿\"]");
    diag2value(&value, "[\"🇳\", \"🇿\"]");
    value2diag(&value, "[\"🇳\",\"🇿\"]");
    value2diag_pretty(&value, "[\"🇳\", \"🇿\"]");
}

#[test]
fn array_diag_heterogenous() {
    let value = DataItem::Array {
                data: vec![
                    DataItem::TextString(TextString {
                        data: "\u{1f1f3}".into(),
                        bitwidth: IntegerWidth::Unknown,
                    }),
                    DataItem::Integer {
                        value: 23,
                        bitwidth: IntegerWidth::Zero,
                    },
                ],
                bitwidth: Some(IntegerWidth::Unknown),
            };
    diag2value(&value, "[\"🇳\",23]");
    diag2value(&value, "[\"🇳\", 23]");
    value2diag(&value, "[\"🇳\",23]");
    value2diag_pretty(&value, "[\"🇳\", 23]");
}

#[test]
fn array_diag_nested() {
    let value = DataItem::Array {
                data: vec![
                    DataItem::TextString(TextString {
                        data: "\u{1f1f3}".into(),
                        bitwidth: IntegerWidth::Unknown,
                    }),
                    DataItem::Integer {
                        value: 23,
                        bitwidth: IntegerWidth::Zero,
                    },
                    DataItem::Array {
                        data: vec![
                            DataItem::TextString(TextString {
                                data: "\u{1f1f3}".into(),
                                bitwidth: IntegerWidth::Unknown,
                            }),
                            DataItem::Integer {
                                value: 23,
                                bitwidth: IntegerWidth::Zero,
                            },
                        ],
                        bitwidth: Some(IntegerWidth::Unknown),
                    },
                ],
                bitwidth: Some(IntegerWidth::Unknown),
            };
    diag2value(&value, "[\"🇳\",23,[\"🇳\",23]]");
    diag2value(&value, "[\"🇳\", 23, [\"🇳\", 23]]");
    value2diag(&value, "[\"🇳\",23,[\"🇳\",23]]");
    value2diag_pretty(&value, "[\"🇳\", 23, [\"🇳\", 23]]");
}

#[test]
fn array_hex_empty() {
    let value = DataItem::Array {
                data: vec![],
                bitwidth: Some(IntegerWidth::Zero),
            };
    hex2value(&value, "80 # array(0)\n");
    value2bytes(&value, "80 # array(0)\n");
    value2hex(&value, "80 # array(0)\n");
}

#[test]
fn array_hex_hello_world() {
    let value = DataItem::Array {
                data: vec![
                    DataItem::TextString(TextString {
                        data: "hello".into(),
                        bitwidth: IntegerWidth::Zero,
                    }),
                    DataItem::TextString(TextString {
                        data: "world".into(),
                        bitwidth: IntegerWidth::Sixteen,
                    }),
                ],
                bitwidth: Some(IntegerWidth::Eight),
            };
    hex2value(&value, "98 02            # array(2)\n   65            #   text(5)\n      68656c6c6f #     \"hello\"\n   79 0005       #   text(5)\n      776f726c64 #     \"world\"\n");
    value2bytes(&value, "98 02            # array(2)\n   65            #   text(5)\n      68656c6c6f #     \"hello\"\n   79 0005       #   text(5)\n      776f726c64 #     \"world\"\n");
    value2hex(&value, "98 02            # array(2)\n   65            #   text(5)\n      68656c6c6f #     \"hello\"\n   79 0005       #   text(5)\n      776f726c64 #     \"world\"\n");
}

#[test]
fn array_hex_non_alpha() {
    let value = DataItem::Array {
                data: vec![
                    DataItem::TextString(TextString {
                        data: "\u{1f1f3}".into(),
                        bitwidth: IntegerWidth::Zero,
                    }),
                    DataItem::TextString(TextString {
                        data: "\u{1f1ff}".into(),
                        bitwidth: IntegerWidth::Eight,
                    }),
                ],
                bitwidth: Some(IntegerWidth::Sixteen),
            };
    hex2value(&value, "99 0002        # array(2)\n   64          #   text(4)\n      f09f87b3 #     \"🇳\"\n   78 04       #   text(4)\n      f09f87bf #     \"🇿\"\n");
    value2bytes(&value, "99 0002        # array(2)\n   64          #   text(4)\n      f09f87b3 #     \"🇳\"\n   78 04       #   text(4)\n      f09f87bf #     \"🇿\"\n");
    value2hex(&value, "99 0002        # array(2)\n   64          #   text(4)\n      f09f87b3 #     \"🇳\"\n   78 04       #   text(4)\n      f09f87bf #     \"🇿\"\n");
}

#[test]
fn array_hex_heterogenous() {
    let value = DataItem::Array {
                data: vec![
                    DataItem::TextString(TextString {
                        data: "\u{1f1f3}".into(),
                        bitwidth: IntegerWidth::Zero,
                    }),
                    DataItem::Integer {
                        value: 23,
                        bitwidth: IntegerWidth::SixtyFour,
                    },
                ],
                bitwidth: Some(IntegerWidth::Zero),
            };
    hex2value(&value, "82                     # array(2)\n   64                  #   text(4)\n      f09f87b3         #     \"🇳\"\n   1b 0000000000000017 #   unsigned(23)\n");
    value2bytes(&value, "82                     # array(2)\n   64                  #   text(4)\n      f09f87b3         #     \"🇳\"\n   1b 0000000000000017 #   unsigned(23)\n");
    value2hex(&value, "82                     # array(2)\n   64                  #   text(4)\n      f09f87b3         #     \"🇳\"\n   1b 0000000000000017 #   unsigned(23)\n");
}

#[test]
fn array_hex_nested() {
    let value = DataItem::Array {
                data: vec![
                    DataItem::TextString(TextString {
                        data: "\u{1f1f3}".into(),
                        bitwidth: IntegerWidth::Zero,
                    }),
                    DataItem::Integer {
                        value: 23,
                        bitwidth: IntegerWidth::SixtyFour,
                    },
                    DataItem::Array {
                        data: vec![
                            DataItem::TextString(TextString {
                                data: "\u{1f1f3}".into(),
                                bitwidth: IntegerWidth::Zero,
                            }),
                            DataItem::Integer {
                                value: 23,
                                bitwidth: IntegerWidth::SixtyFour,
                            },
                        ],
                        bitwidth: Some(IntegerWidth::ThirtyTwo),
                    },
                ],
                bitwidth: Some(IntegerWidth::Zero),
            };
    hex2value(&value, "83                        # array(3)\n   64                     #   text(4)\n      f09f87b3            #     \"🇳\"\n   1b 0000000000000017    #   unsigned(23)\n   9a 00000002            #   array(2)\n      64                  #     text(4)\n         f09f87b3         #       \"🇳\"\n      1b 0000000000000017 #     unsigned(23)\n");
    value2bytes(&value, "83                        # array(3)\n   64                     #   text(4)\n      f09f87b3            #     \"🇳\"\n   1b 0000000000000017    #   unsigned(23)\n   9a 00000002            #   array(2)\n      64                  #     text(4)\n         f09f87b3         #       \"🇳\"\n      1b 0000000000000017 #     unsigned(23)\n");
    value2hex(&value, "83                        # array(3)\n   64                     #   text(4)\n      f09f87b3            #     \"🇳\"\n   1b 0000000000000017    #   unsigned(23)\n   9a 00000002            #   array(2)\n      64                  #     text(4)\n         f09f87b3         #       \"🇳\"\n      1b 0000000000000017 #     unsigned(23)\n");
}

#[test]
fn array_indefinite_diag_empty() {
    let value = DataItem::Array {
                    data: vec![],
                    bitwidth: None,
                };
    diag2value(&value, "[_]");
    diag2value(&value, "[_ ]");
    value2diag(&value, "[_]");
    value2diag_pretty(&value, "[_ ]");
}

#[test]
fn array_indefinite_diag_hello() {
    let value = DataItem::Array {
                    data: vec![
                        DataItem::TextString(TextString {
                            data: "hello".into(),
                            bitwidth: IntegerWidth::Unknown,
                        }),
                    ],
                    bitwidth: None,
                };
    diag2value(&value, "[_\"hello\"]");
    diag2value(&value, "[_ \"hello\"]");
    value2diag(&value, "[_\"hello\"]");
    value2diag_pretty(&value, "[_ \"hello\"]");
}

#[test]
fn array_indefinite_diag_hello_world() {
    let value = DataItem::Array {
                    data: vec![
                        DataItem::TextString(TextString {
                            data: "hello".into(),
                            bitwidth: IntegerWidth::Unknown,
                        }),
                        DataItem::TextString(TextString {
                            data: "world".into(),
                            bitwidth: IntegerWidth::Unknown,
                        }),
                    ],
                    bitwidth: None,
                };
    diag2value(&value, "[_\"hello\",\"world\"]");
    diag2value(&value, "[_ \"hello\", \"world\"]");
    value2diag(&value, "[_\"hello\",\"world\"]");
    value2diag_pretty(&value, "[_ \"hello\", \"world\"]");
}

#[test]
fn array_indefinite_diag_non_alpha() {
    let value = DataItem::Array {
                    data: vec![
                        DataItem::TextString(TextString {
                            data: "\u{1f1f3}".into(),
                            bitwidth: IntegerWidth::Unknown,
                        }),
                        DataItem::TextString(TextString {
                            data: "\u{1f1ff}".into(),
                            bitwidth: IntegerWidth::Unknown,
                        }),
                    ],
                    bitwidth: None,
                };
    diag2value(&value, "[_\"🇳\",\"🇿\"]");
    diag2value(&value, "[_ \"🇳\", \"🇿\"]");
    value2diag(&value, "[_\"🇳\",\"🇿\"]");
    value2diag_pretty(&value, "[_ \"🇳\", \"🇿\"]");
}

#[test]
fn array_indefinite_diag_heterogenous() {
    let value = DataItem::Array {
                    data: vec![
                        DataItem::TextString(TextString {
                            data: "\u{1f1f3}".into(),
                            bitwidth: IntegerWidth::Unknown,
                        }),
                        DataItem::Integer {
                            value: 23,
                            bitwidth: IntegerWidth::Zero,
                        },
                    ],
                    bitwidth: None,
                };
    diag2value(&value, "[_\"🇳\",23]");
    diag2value(&value, "[_ \"🇳\", 23]");
    value2diag(&value, "[_\"🇳\",23]");
    value2diag_pretty(&value, "[_ \"🇳\", 23]");
}

#[test]
fn array_indefinite_diag_nested() {
    let value = DataItem::Array {
                    data: vec![
                        DataItem::TextString(TextString {
                            data: "\u{1f1f3}".into(),
                            bitwidth: IntegerWidth::Unknown,
                        }),
                        DataItem::Integer {
                            value: 23,
                            bitwidth: IntegerWidth::Zero,
                        },
                        DataItem::Array {
                            data: vec![
                                DataItem::TextString(TextString {
                                    data: "\u{1f1f3}".into(),
                                    bitwidth: IntegerWidth::Unknown,
                                }),
                                DataItem::Integer {
                                    value: 23,
                                    bitwidth: IntegerWidth::Zero,
                                },
                            ],
                            bitwidth: None,
                        },
                    ],
                    bitwidth: None,
                };
    diag2value(&value, "[_\"🇳\",23,[_\"🇳\",23]]");
    diag2value(&value, "[_ \"🇳\", 23, [_ \"🇳\", 23]]");
    value2diag(&value, "[_\"🇳\",23,[_\"🇳\",23]]");
    value2diag_pretty(&value, "[_ \"🇳\", 23, [_ \"🇳\", 23]]");
}

#[test]
fn array_indefinite_hex_empty() {
    let value = DataItem::Array {
                    data: vec![],
                    bitwidth: None,
                };
    hex2value(&value, "9f    # array(*)\n   ff #   break\n");
    value2bytes(&value, "9f    # array(*)\n   ff #   break\n");
    value2hex(&value, "9f    # array(*)\n   ff #   break\n");
}

#[test]
fn array_indefinite_hex_hello_world() {
    let value = DataItem::Array {
                    data: vec![
                        DataItem::TextString(TextString {
                            data: "hello".into(),
                            bitwidth: IntegerWidth::Zero,
                        }),
                        DataItem::TextString(TextString {
                            data: "world".into(),
                            bitwidth: IntegerWidth::Sixteen,
                        }),
                    ],
                    bitwidth: None,
                };
    hex2value(&value, "9f               # array(*)\n   65            #   text(5)\n      68656c6c6f #     \"hello\"\n   79 0005       #   text(5)\n      776f726c64 #     \"world\"\n   ff            #   break\n");
    value2bytes(&value, "9f               # array(*)\n   65            #   text(5)\n      68656c6c6f #     \"hello\"\n   79 0005       #   text(5)\n      776f726c64 #     \"world\"\n   ff            #   break\n");
    value2hex(&value, "9f               # array(*)\n   65            #   text(5)\n      68656c6c6f #     \"hello\"\n   79 0005       #   text(5)\n      776f726c64 #     \"world\"\n   ff            #   break\n");
}

#[test]
fn array_indefinite_hex_non_alpha() {
    let value = DataItem::Array {
                    data: vec![
                        DataItem::TextString(TextString {
                            data: "\u{1f1f3}".into(),
                            bitwidth: IntegerWidth::Zero,
                        }),
                        DataItem::TextString(TextString {
                            data: "\u{1f1ff}".into(),
                            bitwidth: IntegerWidth::Eight,
                        }),
                    ],
                    bitwidth: None,
                };
    hex2value(&value, "9f             # array(*)\n   64          #   text(4)\n      f09f87b3 #     \"🇳\"\n   78 04       #   text(4)\n      f09f87bf #     \"🇿\"\n   ff          #   break\n");
    value2bytes(&value, "9f             # array(*)\n   64          #   text(4)\n      f09f87b3 #     \"🇳\"\n   78 04       #   text(4)\n      f09f87bf #     \"🇿\"\n   ff          #   break\n");
    value2hex(&value, "9f             # array(*)\n   64          #   text(4)\n      f09f87b3 #     \"🇳\"\n   78 04       #   text(4)\n      f09f87bf #     \"🇿\"\n   ff          #   break\n");
}

#[test]
fn array_indefinite_hex_heterogenous() {
    let value = DataItem::Array {
                    data: vec![
                        DataItem::TextString(TextString {
                            data: "\u{1f1f3}".into(),
                            bitwidth: IntegerWidth::Zero,
                        }),
                        DataItem::Integer {
                            value: 23,
                            bitwidth: IntegerWidth::SixtyFour,
                        },
                    ],
                    bitwidth: None,
                };
    hex2value(&value, "9f                     # array(*)\n   64                  #   text(4)\n      f09f87b3         #     \"🇳\"\n   1b 0000000000000017 #   unsigned(23)\n   ff                  #   break\n");
    value2bytes(&value, "9f                     # array(*)\n   64                  #   text(4)\n      f09f87b3         #     \"🇳\"\n   1b 0000000000000017 #   unsigned(23)\n   ff                  #   break\n");
    value2hex(&value, "9f                     # array(*)\n   64                  #   text(4)\n      f09f87b3         #     \"🇳\"\n   1b 0000000000000017 #   unsigned(23)\n   ff                  #   break\n");
}

#[test]
fn array_indefinite_hex_nested() {
    let value = DataItem::Array {
                    data: vec![
                        DataItem::TextString(TextString {
                            data: "\u{1f1f3}".into(),
                            bitwidth: IntegerWidth::Zero,
                        }),
                        DataItem::Integer {
                            value: 23,
                            bitwidth: IntegerWidth::SixtyFour,
                        },
                        DataItem::Array {
                            data: vec![
                                DataItem::TextString(TextString {
                                    data: "\u{1f1f3}".into(),
                                    bitwidth: IntegerWidth::Zero,
                                }),
                                DataItem::Integer {
                                    value: 23,
                                    bitwidth: IntegerWidth::SixtyFour,
                                },
                            ],
                            bitwidth: None,
                        },
                    ],
                    bitwidth: None,
                };
    hex2value(&value, "9f                        # array(*)\n   64                     #   text(4)\n      f09f87b3            #     \"🇳\"\n   1b 0000000000000017    #   unsigned(23)\n   9f                     #   array(*)\n      64                  #     text(4)\n         f09f87b3         #       \"🇳\"\n      1b 0000000000000017 #     unsigned(23)\n      ff                  #     break\n   ff                     #   break\n");
    value2bytes(&value, "9f                        # array(*)\n   64                     #   text(4)\n      f09f87b3            #     \"🇳\"\n   1b 0000000000000017    #   unsigned(23)\n   9f                     #   array(*)\n      64                  #     text(4)\n         f09f87b3         #       \"🇳\"\n      1b 0000000000000017 #     unsigned(23)\n      ff                  #     break\n   ff                     #   break\n");
    value2hex(&value, "9f                        # array(*)\n   64                     #   text(4)\n      f09f87b3            #     \"🇳\"\n   1b 0000000000000017    #   unsigned(23)\n   9f                     #   array(*)\n      64                  #     text(4)\n         f09f87b3         #       \"🇳\"\n      1b 0000000000000017 #     unsigned(23)\n      ff                  #     break\n   ff                     #   break\n");
}
