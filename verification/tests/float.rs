#![allow(unused_imports)]
use std::f64::{INFINITY, NAN, NEG_INFINITY};
use cbor_diag::{
    parse_diag, parse_hex, ByteString, DataItem, FloatLiteral, FloatText, FloatWidth, IntegerWidth,
    Simple, Tag, TextString,
};
use half::f16;
use separator::Separatable;

fn float_value(bits: u64, width: FloatWidth) -> f64 {
    match width {
        FloatWidth::Sixteen => f16::from_bits(bits as u16).to_f64(),
        FloatWidth::ThirtyTwo => f32::from_bits(bits as u32) as f64,
        _ => f64::from_bits(bits),
    }
}

fn epoch_datetime(value: f64) -> String {
    if value - 1.0 <= (i64::MIN as f64) || value >= (i64::MAX as f64) {
        return "offset is too large".to_owned();
    }
    let (value, fract) = if value < 0.0 {
        (value - 1.0, (1.0 + value.fract()) * 1_000_000_000.0)
    } else {
        (value, value.fract() * 1_000_000_000.0)
    };
    #[allow(deprecated)]
    match chrono::NaiveDateTime::from_timestamp_opt(value as i64, fract as u32) {
        Some(date) => format!("datetime({})", date.format("%FT%T%.fZ")),
        None => "offset is too large".to_owned(),
    }
}

fn float_text(bits: u64, width: FloatWidth, kind: FloatText) -> String {
    match kind {
        FloatText::Diag => match width {
            FloatWidth::Sixteen => f16::from_bits(bits as u16).to_string(),
            FloatWidth::ThirtyTwo => f32::from_bits(bits as u32).to_string(),
            _ => f64::from_bits(bits).to_string(),
        },
        FloatText::Plain => float_value(bits, width).to_string(),
        FloatText::Annotation => float_value(bits, width).separated_string(),
        FloatText::NativeAnnotation => match width {
            FloatWidth::ThirtyTwo => f32::from_bits(bits as u32).separated_string(),
            _ => float_value(bits, width).separated_string(),
        },
        FloatText::EpochDatetime => epoch_datetime(float_value(bits, width)),
    }
}

fn literal_value(literal: FloatLiteral) -> f64 {
    match literal {
        FloatLiteral::Decimal(text) => text.parse::<f64>().unwrap_or(f64::NAN),
        FloatLiteral::Hex { negative, mantissa, fraction, exponent_negative, exponent } => {
            let mut value = mantissa as f64;
            if let Some((digits, fraction)) = fraction {
                value += fraction as f64 / 16.0f64.powi(digits as i32);
            }
            let mut exponent = exponent as f64;
            if exponent_negative {
                exponent *= -1.0;
            }
            value *= exponent.exp2();
            if negative {
                value *= -1.0;
            }
            value
        }
        FloatLiteral::Infinity => f64::INFINITY,
        FloatLiteral::NegInfinity => f64::NEG_INFINITY,
        FloatLiteral::NaN => f64::NAN,
    }
}

fn float_bits(literal: FloatLiteral, width: FloatWidth) -> u64 {
    let value = literal_value(literal);
    match width {
        FloatWidth::Sixteen => f16::from_f64(value).to_bits() as u64,
        FloatWidth::ThirtyTwo => (value as f32).to_bits() as u64,
        _ => value.to_bits(),
    }
}

#[allow(dead_code)]
fn float_item(value: f64, bitwidth: FloatWidth) -> DataItem {
    let bits = match bitwidth {
        FloatWidth::Sixteen => f16::from_f64(value).to_bits() as u64,
        FloatWidth::ThirtyTwo => (value as f32).to_bits() as u64,
        _ => value.to_bits(),
    };
    DataItem::Float { value: bits, bitwidth }
}

#[allow(dead_code)]
fn hexv(text: &str) -> Vec<u8> {
    hex::decode(text).unwrap()
}

fn remove_comments(hex: &str) -> String {
    hex.lines().map(|line| line.split('#').next().unwrap().replace(' ', "")).collect()
}

#[allow(dead_code)]
fn diag2value(value: &DataItem, text: &str) {
    assert_eq!(parse_diag(text, &float_bits).unwrap(), *value);
}

#[allow(dead_code)]
fn hex2value(value: &DataItem, hex: &str) {
    assert_eq!(parse_hex(hex).unwrap(), *value);
}

#[allow(dead_code)]
fn value2diag(value: &DataItem, text: &str) {
    assert_eq!(value.to_diag(&float_text), text);
}

#[allow(dead_code)]
fn value2diag_pretty(value: &DataItem, text: &str) {
    assert_eq!(value.to_diag_pretty(&float_text), text);
}

#[allow(dead_code)]
fn value2bytes(value: &DataItem, hex: &str) {
    assert_eq!(hex::encode(value.to_bytes()), remove_comments(hex));
}

#[allow(dead_code)]
fn value2hex(value: &DataItem, hex: &str) {
    assert_eq!(value.to_hex(&float_text), hex);
}

#[test]
fn float_unknown_zero() {
    let value = float_item(0.0, FloatWidth::Unknown);
    diag2value(&value, "0.0");
    diag2value(&value, "0.0");
    value2diag(&value, "0.0");
    value2diag_pretty(&value, "0.0");
}

#[test]
fn float_unknown_one() {
    let value = float_item(1.0, FloatWidth::Unknown);
    diag2value(&value, "1.0");
    diag2value(&value, "1.0");
    value2diag(&value, "1.0");
    value2diag_pretty(&value, "1.0");
}

#[test]
fn float_unknown_half() {
    let value = float_item(0.5, FloatWidth::Unknown);
    diag2value(&value, "0.5");
    diag2value(&value, "0.5");
    value2diag(&value, "0.5");
    value2diag_pretty(&value, "0.5");
}

#[test]
fn float_unknown_infinity() {
    let value = float_item(INFINITY, FloatWidth::Unknown);
    diag2value(&value, "Infinity");
    diag2value(&value, "Infinity");
    value2diag(&value, "Infinity");
    value2diag_pretty(&value, "Infinity");
}

#[test]
fn float_unknown_neg_infinity() {
    let value = float_item(NEG_INFINITY, FloatWidth::Unknown);
    diag2value(&value, "-Infinity");
    diag2value(&value, "-Infinity");
    value2diag(&value, "-Infinity");
    value2diag_pretty(&value, "-Infinity");
}

#[test]
fn float_unknown_nan() {
    let value = float_item(NAN, FloatWidth::Unknown);
    value2diag(&value, "NaN");
    value2diag_pretty(&value, "NaN");
}

#[test]
fn float_f16_zero() {
    let value = float_item(0.0, FloatWidth::Sixteen);
    diag2value(&value, "0.0_1");
    diag2value(&value, "0.0_1");
    hex2value(&value, "f9 0000 # float(0)\n");
    value2diag(&value, "0.0_1");
    value2diag_pretty(&value, "0.0_1");
    value2bytes(&value, "f9 0000 # float(0)\n");
    value2hex(&value, "f9 0000 # float(0)\n");
}

#[test]
fn float_f16_one() {
    let value = float_item(1.0, FloatWidth::Sixteen);
    diag2value(&value, "1.0_1");
    diag2value(&value, "1.0_1");
    hex2value(&value, "f9 3c00 # float(1)\n");
    value2diag(&value, "1.0_1");
    value2diag_pretty(&value, "1.0_1");
    value2bytes(&value, "f9 3c00 # float(1)\n");
    value2hex(&value, "f9 3c00 # float(1)\n");
}

#[test]
fn float_f16_half() {
    let value = float_item(0.5, FloatWidth::Sixteen);
    diag2value(&value, "0.5_1");
    diag2value(&value, "0.5_1");
    hex2value(&value, "f9 3800 # float(0.5)\n");
    value2diag(&value, "0.5_1");
    value2diag_pretty(&value, "0.5_1");
    value2bytes(&value, "f9 3800 # float(0.5)\n");
    value2hex(&value, "f9 3800 # float(0.5)\n");
}

#[test]
fn float_f16_infinity() {
    let value = float_item(INFINITY, FloatWidth::Sixteen);
    diag2value(&value, "Infinity_1");
    diag2value(&value, "Infinity_1");
    hex2value(&value, "f9 7c00 # float(Infinity)\n");
    value2diag(&value, "Infinity_1");
    value2diag_pretty(&value, "Infinity_1");
    value2bytes(&value, "f9 7c00 # float(Infinity)\n");
    value2hex(&value, "f9 7c00 # float(Infinity)\n");
}

#[test]
fn float_f16_neg_infinity() {
    let value = float_item(NEG_INFINITY, FloatWidth::Sixteen);
    diag2value(&value, "-Infinity_1");
    diag2value(&value, "-Infinity_1");
    hex2value(&value, "f9 fc00 # float(-Infinity)\n");
    value2diag(&value, "-Infinity_1");
    value2diag_pretty(&value, "-Infinity_1");
    value2bytes(&value, "f9 fc00 # float(-Infinity)\n");
    value2hex(&value, "f9 fc00 # float(-Infinity)\n");
}

#[test]
fn float_f16_nan() {
    let value = float_item(NAN, FloatWidth::Sixteen);
    value2diag(&value, "NaN_1");
    value2diag_pretty(&value, "NaN_1");
    value2bytes(&value, "f9 7e00 # float(NaN)\n");
    value2hex(&value, "f9 7e00 # float(NaN)\n");
}

#[test]
fn float_f32_zero() {
    let value = float_item(0.0, FloatWidth::ThirtyTwo);
    diag2value(&value, "0.0_2");
    diag2value(&value, "0.0_2");
    hex2value(&value, "fa 00000000 # float(0)\n");
    value2diag(&value, "0.0_2");
    value2diag_pretty(&value, "0.0_2");
    value2bytes(&value, "fa 00000000 # float(0)\n");
    value2hex(&value, "fa 00000000 # float(0)\n");
}

#[test]
fn float_f32_one() {
    let value = float_item(1.0, FloatWidth::ThirtyTwo);
    diag2value(&value, "1.0_2");
    diag2value(&value, "1.0_2");
    hex2value(&value, "fa 3f800000 # float(1)\n");
    value2diag(&value, "1.0_2");
    value2diag_pretty(&value, "1.0_2");
    value2bytes(&value, "fa 3f800000 # float(1)\n");
    value2hex(&value, "fa 3f800000 # float(1)\n");
}

#[test]
fn float_f32_half() {
    let value = float_item(0.5, FloatWidth::ThirtyTwo);
    diag2value(&value, "0.5_2");
    diag2value(&value, "0.5_2");
    hex2value(&value, "fa 3f000000 # float(0.5)\n");
    value2diag(&value, "0.5_2");
    value2diag_pretty(&value, "0.5_2");
    value2bytes(&value, "fa 3f000000 # float(0.5)\n");
    value2hex(&value, "fa 3f000000 # float(0.5)\n");
}

#[test]
fn float_f32_infinity() {
    let value = float_item(INFINITY, FloatWidth::ThirtyTwo);
    diag2value(&value, "Infinity_2");
    diag2value(&value, "Infinity_2");
    hex2value(&value, "fa 7f800000 # float(Infinity)\n");
    value2diag(&value, "Infinity_2");
    value2diag_pretty(&value, "Infinity_2");
    value2bytes(&value, "fa 7f800000 # float(Infinity)\n");
    value2hex(&value, "fa 7f800000 # float(Infinity)\n");
}

#[test]
fn float_f32_neg_infinity() {
    let value = float_item(NEG_INFINITY, FloatWidth::ThirtyTwo);
    diag2value(&value, "-Infinity_2");
    diag2value(&value, "-Infinity_2");
    hex2value(&value, "fa ff800000 # float(-Infinity)\n");
    value2diag(&value, "-Infinity_2");
    value2diag_pretty(&value, "-Infinity_2");
    value2bytes(&value, "fa ff800000 # float(-Infinity)\n");
    value2hex(&value, "fa ff800000 # float(-Infinity)\n");
}

#[test]
fn float_f32_nan() {
    let value = float_item(NAN, FloatWidth::ThirtyTwo);
    value2diag(&value, "NaN_2");
    value2diag_pretty(&value, "NaN_2");
    value2bytes(&value, "fa 7fc00000 # float(NaN)\n");
    value2hex(&value, "fa 7fc00000 # float(NaN)\n");
}

#[test]
fn float_f64_zero() {
    let value = float_item(0.0, FloatWidth::SixtyFour);
    diag2value(&value, "0.0_3");
    diag2value(&value, "0.0_3");
    hex2value(&value, "fb 0000000000000000 # float(0)\n");
    value2diag(&value, "0.0_3");
    value2diag_pretty(&value, "0.0_3");
    value2bytes(&value, "fb 0000000000000000 # float(0)\n");
    value2hex(&value, "fb 0000000000000000 # float(0)\n");
}

#[test]
fn float_f64_one() {
    let value = float_item(1.0, FloatWidth::SixtyFour);
    diag2value(&value, "1.0_3");
    diag2value(&value, "1.0_3");
    hex2value(&value, "fb 3ff0000000000000 # float(1)\n");
    value2diag(&value, "1.0_3");
    value2diag_pretty(&value, "1.0_3");
    value2bytes(&value, "fb 3ff0000000000000 # float(1)\n");
    value2hex(&value, "fb 3ff0000000000000 # float(1)\n");
}

#[test]
fn float_f64_half() {
    let value = float_item(0.5, FloatWidth::SixtyFour);
    diag2value(&value, "0.5_3");
    diag2value(&value, "0.5_3");
    hex2value(&value, "fb 3fe0000000000000 # float(0.5)\n");
    value2diag(&value, "0.5_3");
    value2diag_pretty(&value, "0.5_3");
    value2bytes(&value, "fb 3fe0000000000000 # float(0.5)\n");
    value2hex(&value, "fb 3fe0000000000000 # float(0.5)\n");
}

#[test]
fn float_f64_infinity() {
    let value = float_item(f64::INFINITY, FloatWidth::SixtyFour);
    diag2value(&value, "Infinity_3");
    diag2value(&value, "Infinity_3");
    hex2value(&value, "fb 7ff0000000000000 # float(Infinity)\n");
    value2diag(&value, "Infinity_3");
    value2diag_pretty(&value, "Infinity_3");
    value2bytes(&value, "fb 7ff0000000000000 # float(Infinity)\n");
    value2hex(&value, "fb 7ff0000000000000 # float(Infinity)\n");
}

#[test]
fn float_f64_neg_infinity() {
    let value = float_item(f64::NEG_INFINITY, FloatWidth::SixtyFour);
    diag2value(&value, "-Infinity_3");
    diag2value(&value, "-Infinity_3");
    hex2value(&value, "fb fff0000000000000 # float(-Infinity)\n");
    value2diag(&value, "-Infinity_3");
    value2diag_pretty(&value, "-Infinity_3");
    value2bytes(&value, "fb fff0000000000000 # float(-Infinity)\n");
    value2hex(&value, "fb fff0000000000000 # float(-Infinity)\n");
}

#[test]
fn float_f64_nan() {
    let value = float_item(f64::NAN, FloatWidth::SixtyFour);
    value2diag(&value, "NaN_3");
    value2diag_pretty(&value, "NaN_3");
    value2bytes(&value, "fb 7ff8000000000000 # float(NaN)\n");
    value2hex(&value, "fb 7ff8000000000000 # float(NaN)\n");
}
