//! Floating point values held as bit patterns, and the texts of them that
//! only the caller can compute.
use vstd::prelude::*;

use crate::syntax::FloatWidth;

verus! {

/// The texts of a floating point value that renderers ask the caller for.
#[derive(Copy, Clone, Debug, PartialEq, Eq)]
pub enum FloatText {
    /// The shortest decimal text of the value at its own width (Rust's
    /// `Display` of the `f16`, `f32` or `f64`).
    Diag,
    /// The shortest decimal text of the value widened to 64 bits.
    Plain,
    /// The value widened to 64 bits, in decimal with thousands separators.
    Annotation,
    /// The value at its own width, in decimal with thousands separators.
    NativeAnnotation,
    /// The annotation of the value read as seconds since the Unix epoch:
    /// `datetime(...)`, or `offset is too large`.
    EpochDatetime,
}

/// The exponent bits of a float bit pattern.
pub open spec fn float_exponent(v: u64, w: FloatWidth) -> u64 {
    match w {
        FloatWidth::Sixteen => (v >> 10u64) & 0x1fu64,
        FloatWidth::ThirtyTwo => (v >> 23u64) & 0xffu64,
        _ => (v >> 52u64) & 0x7ffu64,
    }
}

/// The mantissa bits of a float bit pattern.
pub open spec fn float_mantissa(v: u64, w: FloatWidth) -> u64 {
    match w {
        FloatWidth::Sixteen => v & 0x3ffu64,
        FloatWidth::ThirtyTwo => v & 0x7f_ffffu64,
        _ => v & 0xf_ffff_ffff_ffffu64,
    }
}

/// The all-ones exponent of a width.
pub open spec fn float_max_exponent(w: FloatWidth) -> u64 {
    match w {
        FloatWidth::Sixteen => 0x1f,
        FloatWidth::ThirtyTwo => 0xff,
        _ => 0x7ff,
    }
}

/// Whether a float bit pattern is a NaN.
pub open spec fn is_nan(v: u64, w: FloatWidth) -> bool {
    float_exponent(v, w) == float_max_exponent(w) && float_mantissa(v, w) != 0
}

/// Whether a float bit pattern is an infinity.
pub open spec fn is_infinite(v: u64, w: FloatWidth) -> bool {
    float_exponent(v, w) == float_max_exponent(w) && float_mantissa(v, w) == 0
}

/// Whether the sign bit of a float bit pattern is set.
pub open spec fn is_sign_negative(v: u64, w: FloatWidth) -> bool {
    match w {
        FloatWidth::Sixteen => (v >> 15u64) & 1u64 == 1,
        FloatWidth::ThirtyTwo => (v >> 31u64) & 1u64 == 1,
        _ => (v >> 63u64) & 1u64 == 1,
    }
}

/// Classifies a float bit pattern: `(is_nan, is_infinite, is_sign_negative)`.
pub fn classify(v: u64, w: FloatWidth) -> (r: (bool, bool, bool))
    ensures
        r == (is_nan(v, w), is_infinite(v, w), is_sign_negative(v, w)),
{
    let (e, m, s, max) = match w {
        FloatWidth::Sixteen => ((v >> 10) & 0x1f, v & 0x3ff, (v >> 15) & 1, 0x1fu64),
        FloatWidth::ThirtyTwo => ((v >> 23) & 0xff, v & 0x7f_ffff, (v >> 31) & 1, 0xffu64),
        _ => ((v >> 52) & 0x7ff, v & 0xf_ffff_ffff_ffff, (v >> 63) & 1, 0x7ffu64),
    };
    (e == max && m != 0, e == max && m == 0, s == 1)
}

/// Whether a caller-supplied float text function can be called on any input.
pub open spec fn callable<F: Fn(u64, FloatWidth, FloatText) -> String>(f: &F) -> bool {
    forall|v: u64, w: FloatWidth, k: FloatText| #[trigger] f.requires((v, w, k))
}

/// Whether every text that `f` returns is the one that `ft` gives.
pub open spec fn renders<F: Fn(u64, FloatWidth, FloatText) -> String>(
    f: &F,
    ft: spec_fn(u64, FloatWidth, FloatText) -> Seq<char>,
) -> bool {
    forall|v: u64, w: FloatWidth, k: FloatText, s: String| #[trigger] f.ensures((v, w, k), s) ==> s@ == ft(v, w, k)
}

} // verus!
