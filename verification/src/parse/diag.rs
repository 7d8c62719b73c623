//! Parsing diagnostic notation.
//!
//! The grammar is written as spec functions from the text and a position to
//! what they read there and the position after it (see `lexical`). What value
//! a floating point literal stands for is the caller's to compute: the parser
//! hands each literal, with the width its encoding indicator asks for, to a
//! function of the caller's, and the grammar speaks of that function as `fb`.
use vstd::prelude::*;

use vstd::utf8::{decode_utf8, encode_utf8, valid_utf8};

use crate::encode::bytes::{append_bytes, item_to_bytes, item_bytes, items_bytes};
use crate::encode::hex::char_range;
use crate::syntax::{
    ByteString, DataItem, FloatWidth, IntegerWidth, Simple, SpecBytes, SpecItem, SpecText, Tag,
    TextString, bytestrings_view, items_view, pairs_view, textstrings_view,
};
use crate::error::{Error, Result};
use crate::text::{chars_of, owned, push_str, string_from_chars, utf8_string};
use super::lexical::{
    Class, Read, closing, closing_of, encoded_bytes, encoded_bytes_of, encoding, encoding_of, has_at,
    has_at_of, lemma_number, lemma_quoted, lemma_run_end, lemma_skip, limit128, number, number_of,
    quoted, quoted_of, radix_number, radix_number_of, run_end, run_end_of, skip, skip_of,
};

verus! {

/// A floating point literal as written in diagnostic notation.
pub enum FloatLiteral {
    /// A decimal literal as written: an optional sign, digits, a point,
    /// digits, and optionally `e` or `E`, an optional sign and digits.
    Decimal(String),
    /// A hexadecimal literal: an optional sign, `0x` and the integer part,
    /// optionally a point and a fraction (how many hex digits it has, and
    /// their value), then `p`, an optional `-` and a decimal exponent.
    Hex {
        negative: bool,
        mantissa: u128,
        fraction: Option<(usize, u64)>,
        exponent_negative: bool,
        exponent: u128,
    },
    /// `Infinity`.
    Infinity,
    /// `-Infinity`.
    NegInfinity,
    /// `NaN`.
    NaN,
}

/// The model of a floating point literal.
pub enum SpecFloatLiteral {
    Decimal(Seq<char>),
    Hex {
        negative: bool,
        mantissa: u128,
        fraction: Option<(usize, u64)>,
        exponent_negative: bool,
        exponent: u128,
    },
    Infinity,
    NegInfinity,
    NaN,
}

impl View for FloatLiteral {
    type V = SpecFloatLiteral;

    open spec fn view(&self) -> SpecFloatLiteral {
        match self {
            FloatLiteral::Decimal(t) => SpecFloatLiteral::Decimal(t@),
            FloatLiteral::Hex { negative, mantissa, fraction, exponent_negative, exponent } => SpecFloatLiteral::Hex {
                negative: *negative,
                mantissa: *mantissa,
                fraction: *fraction,
                exponent_negative: *exponent_negative,
                exponent: *exponent,
            },
            FloatLiteral::Infinity => SpecFloatLiteral::Infinity,
            FloatLiteral::NegInfinity => SpecFloatLiteral::NegInfinity,
            FloatLiteral::NaN => SpecFloatLiteral::NaN,
        }
    }
}

/// The bit pattern that a float literal stands for at a width (see
/// `syntax::DataItem` for how the bits of each width are held).
pub type FloatBits = spec_fn(SpecFloatLiteral, FloatWidth) -> u64;

/// Whether a caller's float function can be called on any literal and width.
pub open spec fn float_callable<G: Fn(FloatLiteral, FloatWidth) -> u64>(g: &G) -> bool {
    forall|l: FloatLiteral, w: FloatWidth| #[trigger] g.requires((l, w))
}

/// Whether every bit pattern that `g` returns is the one that `fb` gives.
pub open spec fn decodes<G: Fn(FloatLiteral, FloatWidth) -> u64>(g: &G, fb: FloatBits) -> bool {
    forall|l: FloatLiteral, w: FloatWidth, b: u64| #[trigger] g.ensures((l, w), b) ==> b == fb(l@, w)
}

/// An optional sign at `i`: whether it is `-`, and the position after it.
pub open spec fn sign(s: Seq<char>, i: nat) -> (bool, nat) {
    if i < s.len() && (s[i as int] == '+' || s[i as int] == '-') {
        (s[i as int] == '-', i + 1)
    } else {
        (false, i)
    }
}

/// The fraction of a hexadecimal float: a point and hex digits whose value
/// fits in a `u64`, read as the number of digits and their value.
pub open spec fn hex_fraction(s: Seq<char>, i: nat) -> Read<(usize, u64)> {
    match radix_number(s, i, "."@, Class::Hex, 16) {
        Some((v, j)) => if v < 0x1_0000_0000_0000_0000nat {
            Some((((j - i - 1) as usize, v as u64), j))
        } else {
            None
        },
        None => None,
    }
}

/// A hexadecimal float literal.
pub open spec fn hex_float(s: Seq<char>, i: nat) -> Read<SpecFloatLiteral> {
    let (negative, a) = sign(s, i);
    match radix_number(s, a, "0x"@, Class::Hex, 16) {
        Some((m, b)) => {
            let (fraction, c) = match hex_fraction(s, b) {
                Some((f, c)) => (Some(f), c),
                None => (None, b),
            };
            if has_at(s, c, seq!['p']) {
                let (exponent_negative, d) = if c + 1 < s.len() && s[(c + 1) as int] == '-' {
                    (true, c + 2)
                } else {
                    (false, c + 1)
                };
                match radix_number(s, d, Seq::empty(), Class::Decimal, 10) {
                    Some((e, f)) => Some((
                        SpecFloatLiteral::Hex {
                            negative,
                            mantissa: m as u128,
                            fraction,
                            exponent_negative,
                            exponent: e as u128,
                        },
                        f,
                    )),
                    None => None,
                }
            } else {
                None
            }
        },
        None => None,
    }
}

/// Where a decimal float literal at `i` ends: an optional sign, digits, a
/// point, digits, and an exponent if one follows.
pub open spec fn decimal_float_end(s: Seq<char>, i: nat) -> Option<nat> {
    let (_, a) = sign(s, i);
    let b = run_end(s, a, Class::Decimal);
    if b > a && has_at(s, b, seq!['.']) {
        let c = run_end(s, b + 1, Class::Decimal);
        if c > b + 1 {
            if c < s.len() && (s[c as int] == 'e' || s[c as int] == 'E') {
                let (_, d) = sign(s, c + 1);
                let e = run_end(s, d, Class::Decimal);
                if e > d {
                    Some(e)
                } else {
                    Some(c)
                }
            } else {
                Some(c)
            }
        } else {
            None
        }
    } else {
        None
    }
}

/// A float literal: hexadecimal, decimal, `Infinity`, `-Infinity` or `NaN`.
pub open spec fn float_value(s: Seq<char>, i: nat) -> Read<SpecFloatLiteral> {
    match hex_float(s, i) {
        Some(r) => Some(r),
        None => match decimal_float_end(s, i) {
            Some(e) => Some((SpecFloatLiteral::Decimal(s.subrange(i as int, e as int)), e)),
            None => if has_at(s, i, "Infinity"@) {
                Some((SpecFloatLiteral::Infinity, i + 8))
            } else if has_at(s, i, "-Infinity"@) {
                Some((SpecFloatLiteral::NegInfinity, i + 9))
            } else if has_at(s, i, "NaN"@) {
                Some((SpecFloatLiteral::NaN, i + 3))
            } else {
                None
            },
        },
    }
}

/// The float width an encoding indicator above zero stands for.
pub open spec fn float_width(e: nat) -> FloatWidth {
    if e == 1 {
        FloatWidth::Sixteen
    } else if e == 2 {
        FloatWidth::ThirtyTwo
    } else {
        FloatWidth::SixtyFour
    }
}

/// A float: a literal and an optional encoding indicator above zero.
pub open spec fn float_item(s: Seq<char>, i: nat, fb: FloatBits) -> Read<SpecItem> {
    match float_value(s, i) {
        Some((l, p)) => {
            let (w, q) = match encoding(s, p) {
                Some((e, q)) => if e > 0 {
                    (float_width(e), q)
                } else {
                    (FloatWidth::Unknown, p)
                },
                None => (FloatWidth::Unknown, p),
            };
            Some((SpecItem::Float { value: fb(l, w), bitwidth: w }, q))
        },
        None => None,
    }
}

/// `Zero` in place of `Unknown` for a value small enough to need no
/// additional bytes.
pub open spec fn small_width(w: IntegerWidth, small: bool) -> IntegerWidth {
    if w == IntegerWidth::Unknown && small {
        IntegerWidth::Zero
    } else {
        w
    }
}

/// An unsigned integer.
pub open spec fn integer_item(s: Seq<char>, i: nat) -> Read<SpecItem> {
    match number(s, i, 0xffff_ffff_ffff_ffff) {
        Some(((v, w), p)) => Some((SpecItem::Integer { value: v as u64, bitwidth: small_width(w, v <= 23) }, p)),
        None => None,
    }
}

/// A negative integer: `-` and a number `n` from 1 to 2^64, standing for
/// the item with value `n - 1`.
pub open spec fn negative_item(s: Seq<char>, i: nat) -> Read<SpecItem> {
    if has_at(s, i, seq!['-']) {
        match number(s, i + 1, (limit128() - 1) as nat) {
            Some(((v, w), p)) => if 0 < v && v - 1 < 0x1_0000_0000_0000_0000nat {
                Some((SpecItem::Negative { value: (v - 1) as u64, bitwidth: small_width(w, v <= 24) }, p))
            } else {
                None
            },
            None => None,
        }
    } else {
        None
    }
}

/// A simple value: `false`, `true`, `null`, `undefined`, or `simple(n)`.
pub open spec fn simple_item(s: Seq<char>, i: nat) -> Read<SpecItem> {
    if has_at(s, i, "false"@) {
        Some((SpecItem::Simple(20), i + 5))
    } else if has_at(s, i, "true"@) {
        Some((SpecItem::Simple(21), i + 4))
    } else if has_at(s, i, "null"@) {
        Some((SpecItem::Simple(22), i + 4))
    } else if has_at(s, i, "undefined"@) {
        Some((SpecItem::Simple(23), i + 9))
    } else {
        match radix_number(s, i, "simple("@, Class::Decimal, 10) {
            Some((v, p)) => if has_at(s, p, seq![')']) && v < 256 {
                Some((SpecItem::Simple(v as u8), p + 1))
            } else {
                None
            },
            None => None,
        }
    }
}

/// A quoted text string, with white space and comments around it.
pub open spec fn text_piece(s: Seq<char>, i: nat) -> Read<Seq<char>> {
    match quoted(s, skip(s, i), '"') {
        Some((t, p)) => Some((t, skip(s, p))),
        None => None,
    }
}

/// Whether a piece read from `p` on ended at `q` after it, within the text.
/// A repetition whose piece reads nothing fails; positions never leave the
/// text.
pub open spec fn advances(s: Seq<char>, p: nat, q: nat) -> bool {
    p < q <= s.len()
}

/// Prepends a value to what a repetition reads.
pub open spec fn prepend<T>(x: Seq<T>, r: Read<Seq<T>>) -> Read<Seq<T>> {
    match r {
        Some((xs, q)) => Some((x + xs, q)),
        None => None,
    }
}

/// A tagged item: a number, and an item in parentheses.
pub open spec fn tagged_item(s: Seq<char>, i: nat, fb: FloatBits) -> Read<SpecItem>
    decreases s.len() - i, 0nat,
{
    proof {
        lemma_number(s, i, 0xffff_ffff_ffff_ffff);
    }
    match number(s, i, 0xffff_ffff_ffff_ffff) {
        Some(((t, w), p)) => if has_at(s, p, seq!['(']) {
            match item(s, p + 1, fb) {
                Some((x, q)) => if has_at(s, q, seq![')']) {
                    Some((
                        SpecItem::Tag { tag: t as u64, bitwidth: small_width(w, t <= 23), value: Box::new(x) },
                        q + 1,
                    ))
                } else {
                    None
                },
                None => None,
            }
        } else {
            None
        },
        None => None,
    }
}

/// A definite byte string, with white space and comments around it: an
/// encoded string (`h'..'`, `b32'..'`, `h32'..'`, `b64'..'` in either
/// alphabet), the encodings of items in `<<` and `>>`, or text in single
/// quotes.
pub open spec fn definite_bytes(s: Seq<char>, i: nat, fb: FloatBits) -> Read<Seq<u8>>
    decreases s.len() - i, 0nat,
{
    let j = skip(s, i);
    proof {
        lemma_skip(s, i);
        reveal_strlit("<<");
    }
    let r = match encoded_bytes(s, j, "h"@, Class::Hex) {
        Some(r) => Some(r),
        None => match encoded_bytes(s, j, "b32"@, Class::Base32) {
            Some(r) => Some(r),
            None => match encoded_bytes(s, j, "h32"@, Class::Base32Hex) {
                Some(r) => Some(r),
                None => match encoded_bytes(s, j, "b64"@, Class::Base64Url) {
                    Some(r) => Some(r),
                    None => match encoded_bytes(s, j, "b64"@, Class::Base64) {
                        Some(r) => Some(r),
                        None => if has_at(s, j, "<<"@) {
                            match items_list(s, j + 2, fb) {
                                Some((xs, p)) => if has_at(s, p, ">>"@) {
                                    Some((items_bytes(xs), p + 2))
                                } else {
                                    None
                                },
                                None => None,
                            }
                        } else {
                            match quoted(s, j, '\'') {
                                Some((t, p)) => Some((encode_utf8(t), p)),
                                None => None,
                            }
                        },
                    },
                },
            },
        },
    };
    match r {
        Some((b, p)) => Some((b, skip(s, p))),
        None => None,
    }
}

/// More definite byte strings, from `p` on, concatenated.
pub open spec fn bytes_more(s: Seq<char>, p: nat, fb: FloatBits) -> Read<Seq<u8>>
    decreases s.len() - p, 1nat,
{
    match definite_bytes(s, p, fb) {
        Some((b, q)) => if !advances(s, p, q) {
            None
        } else {
            prepend(b, bytes_more(s, q, fb))
        },
        None => Some((Seq::empty(), p)),
    }
}

/// One or more definite byte strings, concatenated.
pub open spec fn bytes_run(s: Seq<char>, i: nat, fb: FloatBits) -> Read<Seq<u8>>
    decreases s.len() - i, 2nat,
{
    match definite_bytes(s, i, fb) {
        Some((b, p)) => if !advances(s, i, p) {
            None
        } else {
            prepend(b, bytes_more(s, p, fb))
        },
        None => None,
    }
}

/// More byte string chunks, each after a comma, from `p` on.
pub open spec fn chunks_more(s: Seq<char>, p: nat, fb: FloatBits) -> Read<Seq<SpecBytes>>
    decreases s.len() - p, 3nat,
{
    if has_at(s, p, seq![',']) {
        match bytes_run(s, p + 1, fb) {
            Some((b, q)) => if !advances(s, p, q) {
                None
            } else {
                prepend(seq![unknown_bytes(b)], chunks_more(s, q, fb))
            },
            None => Some((Seq::empty(), p)),
        }
    } else {
        Some((Seq::empty(), p))
    }
}

/// Byte string chunks separated by commas; there may be none.
pub open spec fn bytes_chunks(s: Seq<char>, i: nat, fb: FloatBits) -> Read<Seq<SpecBytes>>
    decreases s.len() - i, 3nat,
{
    match bytes_run(s, i, fb) {
        Some((b, p)) => if !advances(s, i, p) {
            None
        } else {
            prepend(seq![unknown_bytes(b)], chunks_more(s, p, fb))
        },
        None => Some((Seq::empty(), i)),
    }
}

/// The model of a byte string chunk read from diagnostic notation.
pub open spec fn unknown_bytes(b: Seq<u8>) -> SpecBytes {
    SpecBytes { data: b, bitwidth: IntegerWidth::Unknown }
}

/// The model of a text string chunk read from diagnostic notation.
pub open spec fn unknown_text(t: Seq<char>) -> SpecText {
    SpecText { data: t, bitwidth: IntegerWidth::Unknown }
}

/// A byte string: definite strings concatenated, or chunks of them in
/// `(_` and `)`.
pub open spec fn bytestring_item(s: Seq<char>, i: nat, fb: FloatBits) -> Read<SpecItem>
    decreases s.len() - i, 4nat,
{
    proof {
        reveal_strlit("(_");
    }
    match bytes_run(s, i, fb) {
        Some((b, p)) => Some((SpecItem::ByteString(unknown_bytes(b)), p)),
        None => if has_at(s, i, "(_"@) {
            match bytes_chunks(s, i + 2, fb) {
                Some((cs, p)) => match closing(s, p, ")"@) {
                    Some(q) => Some((SpecItem::IndefiniteByteString(cs), q)),
                    None => None,
                },
                None => None,
            }
        } else {
            None
        },
    }
}

/// A byte string, or a text string as UTF-8.
pub open spec fn string_bytes(s: Seq<char>, p: nat, fb: FloatBits) -> Read<Seq<u8>>
    decreases s.len() - p, 1nat,
{
    match definite_bytes(s, p, fb) {
        Some(r) => Some(r),
        None => match text_piece(s, p) {
            Some((t, q)) => Some((encode_utf8(t), q)),
            None => None,
        },
    }
}

/// The bytes after a first text string: byte strings, and text strings as
/// UTF-8, concatenated.
pub open spec fn text_rest(s: Seq<char>, p: nat, fb: FloatBits) -> Read<Seq<u8>>
    decreases s.len() - p, 2nat,
{
    match string_bytes(s, p, fb) {
        Some((b, q)) => if !advances(s, p, q) {
            None
        } else {
            prepend(b, text_rest(s, q, fb))
        },
        None => Some((Seq::empty(), p)),
    }
}

/// A text string, and byte or text strings after it, concatenated; what
/// follows the first must be valid UTF-8 as a whole.
pub open spec fn text_run(s: Seq<char>, i: nat, fb: FloatBits) -> Read<Seq<char>>
    decreases s.len() - i, 3nat,
{
    proof {
        lemma_skip(s, i);
        lemma_quoted(s, skip(s, i), '"');
        if let Some((t, p)) = quoted(s, skip(s, i), '"') {
            lemma_skip(s, p);
        }
    }
    match text_piece(s, i) {
        Some((t, p)) => match text_rest(s, p, fb) {
            Some((b, q)) => if valid_utf8(b) {
                Some((t + decode_utf8(b), q))
            } else {
                None
            },
            None => None,
        },
        None => None,
    }
}

/// More text string chunks, each after a comma, from `p` on.
pub open spec fn text_chunks_more(s: Seq<char>, p: nat, fb: FloatBits) -> Read<Seq<SpecText>>
    decreases s.len() - p, 4nat,
{
    if has_at(s, p, seq![',']) {
        match text_run(s, p + 1, fb) {
            Some((t, q)) => if !advances(s, p, q) {
                None
            } else {
                prepend(seq![unknown_text(t)], text_chunks_more(s, q, fb))
            },
            None => Some((Seq::empty(), p)),
        }
    } else {
        Some((Seq::empty(), p))
    }
}

/// Text string chunks separated by commas; there may be none.
pub open spec fn text_chunks(s: Seq<char>, i: nat, fb: FloatBits) -> Read<Seq<SpecText>>
    decreases s.len() - i, 4nat,
{
    match text_run(s, i, fb) {
        Some((t, p)) => if !advances(s, i, p) {
            None
        } else {
            prepend(seq![unknown_text(t)], text_chunks_more(s, p, fb))
        },
        None => Some((Seq::empty(), i)),
    }
}

/// A text string: strings concatenated, or chunks of them in `(_` and `)`.
pub open spec fn textstring_item(s: Seq<char>, i: nat, fb: FloatBits) -> Read<SpecItem>
    decreases s.len() - i, 4nat,
{
    proof {
        reveal_strlit("(_");
    }
    match text_run(s, i, fb) {
        Some((t, p)) => Some((SpecItem::TextString(unknown_text(t)), p)),
        None => if has_at(s, i, "(_"@) {
            match text_chunks(s, i + 2, fb) {
                Some((cs, p)) => match closing(s, p, ")"@) {
                    Some(q) => Some((SpecItem::IndefiniteTextString(cs), q)),
                    None => None,
                },
                None => None,
            }
        } else {
            None
        },
    }
}

/// The position after `open`, with white space and comments around it.
pub open spec fn opening(s: Seq<char>, i: nat, open: Seq<char>) -> Option<nat> {
    let a = skip(s, i);
    if has_at(s, a, open) {
        Some(skip(s, a + open.len()))
    } else {
        None
    }
}

/// Items separated by commas after `open`, and a closing `]`: an array
/// whose length is encoded with `bitwidth` (`None` for the indefinite length
/// form).
pub open spec fn array_form(s: Seq<char>, i: nat, open: Seq<char>, bitwidth: Option<IntegerWidth>, fb: FloatBits) -> Read<SpecItem>
    decreases s.len() - i, 0nat,
{
    proof {
        lemma_skip(s, i);
        lemma_skip(s, skip(s, i) + open.len());
    }
    match opening(s, i, open) {
        Some(b) => if b <= i {
            None
        } else {
            match items_list(s, b, fb) {
                Some((xs, p)) => match closing(s, p, "]"@) {
                    Some(q) => Some((SpecItem::Array { data: xs, bitwidth }, q)),
                    None => None,
                },
                None => None,
            }
        },
        None => None,
    }
}

/// An array: items separated by commas in `[` and `]`, or in `[_` and `]`
/// for the indefinite length form.
pub open spec fn array_item(s: Seq<char>, i: nat, fb: FloatBits) -> Read<SpecItem>
    decreases s.len() - i, 1nat,
{
    match array_form(s, i, "["@, Some(IntegerWidth::Unknown), fb) {
        Some(r) => Some(r),
        None => array_form(s, i, "[_"@, None, fb),
    }
}

/// Pairs separated by commas after `open`, and a closing `}`: a map whose
/// length is encoded with `bitwidth` (`None` for the indefinite length form).
pub open spec fn map_form(s: Seq<char>, i: nat, open: Seq<char>, bitwidth: Option<IntegerWidth>, fb: FloatBits) -> Read<SpecItem>
    decreases s.len() - i, 0nat,
{
    proof {
        lemma_skip(s, i);
        lemma_skip(s, skip(s, i) + open.len());
    }
    match opening(s, i, open) {
        Some(b) => if b <= i {
            None
        } else {
            match pairs_list(s, b, fb) {
                Some((xs, p)) => match closing(s, p, "}"@) {
                    Some(q) => Some((SpecItem::Mapping { data: xs, bitwidth }, q)),
                    None => None,
                },
                None => None,
            }
        },
        None => None,
    }
}

/// A map: pairs separated by commas in `{` and `}`, or in `{_` and `}` for
/// the indefinite length form.
pub open spec fn map_item(s: Seq<char>, i: nat, fb: FloatBits) -> Read<SpecItem>
    decreases s.len() - i, 1nat,
{
    match map_form(s, i, "{"@, Some(IntegerWidth::Unknown), fb) {
        Some(r) => Some(r),
        None => map_form(s, i, "{_"@, None, fb),
    }
}

/// A data item, with white space and comments around it. The kinds of item
/// are tried in order: float, tagged item, integer, negative integer, byte
/// string, text string, array, map, simple value.
pub open spec fn item(s: Seq<char>, i: nat, fb: FloatBits) -> Read<SpecItem>
    decreases s.len() - i, 5nat,
{
    let j = skip(s, i);
    proof {
        lemma_skip(s, i);
    }
    let r = match float_item(s, j, fb) {
        Some(r) => Some(r),
        None => match tagged_item(s, j, fb) {
            Some(r) => Some(r),
            None => match integer_item(s, j) {
                Some(r) => Some(r),
                None => match negative_item(s, j) {
                    Some(r) => Some(r),
                    None => match bytestring_item(s, j, fb) {
                        Some(r) => Some(r),
                        None => match textstring_item(s, j, fb) {
                            Some(r) => Some(r),
                            None => match array_item(s, j, fb) {
                                Some(r) => Some(r),
                                None => match map_item(s, j, fb) {
                                    Some(r) => Some(r),
                                    None => simple_item(s, j),
                                },
                            },
                        },
                    },
                },
            },
        },
    };
    match r {
        Some((x, p)) => Some((x, skip(s, p))),
        None => None,
    }
}

/// More items, each after a comma, from `p` on.
pub open spec fn items_more(s: Seq<char>, p: nat, fb: FloatBits) -> Read<Seq<SpecItem>>
    decreases s.len() - p, 6nat,
{
    if has_at(s, p, seq![',']) {
        match item(s, p + 1, fb) {
            Some((x, q)) => if !advances(s, p, q) {
                None
            } else {
                prepend(seq![x], items_more(s, q, fb))
            },
            None => Some((Seq::empty(), p)),
        }
    } else {
        Some((Seq::empty(), p))
    }
}

/// Items separated by commas; there may be none.
pub open spec fn items_list(s: Seq<char>, i: nat, fb: FloatBits) -> Read<Seq<SpecItem>>
    decreases s.len() - i, 6nat,
{
    match item(s, i, fb) {
        Some((x, p)) => if !advances(s, i, p) {
            None
        } else {
            prepend(seq![x], items_more(s, p, fb))
        },
        None => Some((Seq::empty(), i)),
    }
}

/// A pair of a map: an item, a colon, and an item.
pub open spec fn pair_item(s: Seq<char>, i: nat, fb: FloatBits) -> Read<(SpecItem, SpecItem)>
    decreases s.len() - i, 6nat,
{
    match item(s, i, fb) {
        Some((k, p)) => if p < i {
            None
        } else if has_at(s, p, seq![':']) {
            match item(s, p + 1, fb) {
                Some((v, q)) => Some(((k, v), q)),
                None => None,
            }
        } else {
            None
        },
        None => None,
    }
}

/// More pairs, each after a comma, from `p` on.
pub open spec fn pairs_more(s: Seq<char>, p: nat, fb: FloatBits) -> Read<Seq<(SpecItem, SpecItem)>>
    decreases s.len() - p, 7nat,
{
    if has_at(s, p, seq![',']) {
        match pair_item(s, p + 1, fb) {
            Some((x, q)) => if !advances(s, p, q) {
                None
            } else {
                prepend(seq![x], pairs_more(s, q, fb))
            },
            None => Some((Seq::empty(), p)),
        }
    } else {
        Some((Seq::empty(), p))
    }
}

/// Pairs separated by commas; there may be none.
pub open spec fn pairs_list(s: Seq<char>, i: nat, fb: FloatBits) -> Read<Seq<(SpecItem, SpecItem)>>
    decreases s.len() - i, 7nat,
{
    match pair_item(s, i, fb) {
        Some((x, p)) => if !advances(s, i, p) {
            None
        } else {
            prepend(seq![x], pairs_more(s, p, fb))
        },
        None => Some((Seq::empty(), i)),
    }
}

/// What a read gives, by the model of the value read.
pub open spec fn read_of<T: View>(r: Option<(T, usize)>) -> Read<T::V> {
    match r {
        Some((x, p)) => Some((x@, p as nat)),
        None => None,
    }
}

/// Whether the text has the character `c` at position `i`.
fn has_char_at(s: &[char], i: usize, c: char) -> (b: bool)
    ensures
        b == has_at(s@, i as nat, seq![c]),
{
    if i < s.len() && s[i] == c {
        assert(s@.subrange(i as int, i + 1) =~= seq![c]);
        true
    } else {
        proof {
            if i < s@.len() {
                assert(s@.subrange(i as int, i + 1)[0] == s@[i as int]);
            }
        }
        false
    }
}

/// An optional sign (see `sign`).
fn sign_of(s: &[char], i: usize) -> (r: (bool, usize))
    ensures
        (r.0, r.1 as nat) == sign(s@, i as nat),
        i <= r.1 <= i + 1,
{
    if i < s.len() && (s[i] == '+' || s[i] == '-') {
        (s[i] == '-', i + 1)
    } else {
        (false, i)
    }
}

/// The fraction of a hexadecimal float (see `hex_fraction`).
fn hex_fraction_of(s: &[char], i: usize) -> (r: Option<((usize, u64), usize)>)
    ensures
        match r {
            Some((f, j)) => hex_fraction(s@, i as nat) == Some((f, j as nat)),
            None => hex_fraction(s@, i as nat) is None,
        },
        r matches Some((f, j)) ==> i < j <= s@.len(),
{
    proof {
        reveal_strlit(".");
    }
    match radix_number_of(s, i, ".", Class::Hex, 16) {
        Some((v, j)) => if v < 0x1_0000_0000_0000_0000u128 {
            Some(((j - i - 1, v as u64), j))
        } else {
            None
        },
        None => None,
    }
}

/// A hexadecimal float literal (see `hex_float`).
fn hex_float_of(s: &[char], i: usize) -> (r: Option<(FloatLiteral, usize)>)
    ensures
        read_of(r) == hex_float(s@, i as nat),
        r matches Some((l, j)) ==> i < j <= s@.len(),
{
    let n = s.len();
    let (negative, a) = sign_of(s, i);
    match radix_number_of(s, a, "0x", Class::Hex, 16) {
        Some((m, b)) => {
            let (fraction, c) = match hex_fraction_of(s, b) {
                Some((f, c)) => (Some(f), c),
                None => (None, b),
            };
            if has_char_at(s, c, 'p') {
                let (exponent_negative, d) = if c + 1 < n && s[c + 1] == '-' {
                    (true, c + 2)
                } else {
                    (false, c + 1)
                };
                proof {
                    reveal_strlit("");
                    assert(""@ =~= Seq::<char>::empty());
                }
                match radix_number_of(s, d, "", Class::Decimal, 10) {
                    Some((e, f)) => Some((
                        FloatLiteral::Hex { negative, mantissa: m, fraction, exponent_negative, exponent: e },
                        f,
                    )),
                    None => None,
                }
            } else {
                None
            }
        },
        None => None,
    }
}

/// Where a decimal float literal ends (see `decimal_float_end`).
fn decimal_float_end_of(s: &[char], i: usize) -> (r: Option<usize>)
    ensures
        match r {
            Some(e) => decimal_float_end(s@, i as nat) == Some(e as nat),
            None => decimal_float_end(s@, i as nat) is None,
        },
        r matches Some(e) ==> i < e <= s@.len(),
{
    let n = s.len();
    let (_, a) = sign_of(s, i);
    let b = run_end_of(s, a, Class::Decimal);
    proof {
        lemma_run_end(s@, a as nat, Class::Decimal);
    }
    if b > a && has_char_at(s, b, '.') {
        proof {
            assert(seq!['.'] =~= "."@) by {
                reveal_strlit(".");
            }
        }
        let c = run_end_of(s, b + 1, Class::Decimal);
        proof {
            lemma_run_end(s@, (b + 1) as nat, Class::Decimal);
        }
        if c > b + 1 {
            if c < n && (s[c] == 'e' || s[c] == 'E') {
                let (_, d) = sign_of(s, c + 1);
                let e = run_end_of(s, d, Class::Decimal);
                proof {
                    lemma_run_end(s@, d as nat, Class::Decimal);
                }
                if e > d {
                    Some(e)
                } else {
                    Some(c)
                }
            } else {
                Some(c)
            }
        } else {
            None
        }
    } else {
        None
    }
}

/// A float literal (see `float_value`).
fn float_value_of(s: &[char], i: usize) -> (r: Option<(FloatLiteral, usize)>)
    ensures
        read_of(r) == float_value(s@, i as nat),
        r matches Some((l, j)) ==> i < j <= s@.len(),
{
    let n = s.len();
    proof {
        reveal_strlit("Infinity");
        reveal_strlit("-Infinity");
        reveal_strlit("NaN");
    }
    match hex_float_of(s, i) {
        Some(r) => Some(r),
        None => match decimal_float_end_of(s, i) {
            Some(e) => {
                let text = char_range(s, i, e);
                Some((FloatLiteral::Decimal(string_from_chars(text.as_slice())), e))
            },
            None => if has_at_of(s, i, "Infinity") {
                Some((FloatLiteral::Infinity, i + 8))
            } else if has_at_of(s, i, "-Infinity") {
                Some((FloatLiteral::NegInfinity, i + 9))
            } else if has_at_of(s, i, "NaN") {
                Some((FloatLiteral::NaN, i + 3))
            } else {
                None
            },
        },
    }
}

/// A float item (see `float_item`): the caller's `g` gives the bit pattern
/// of the literal at the indicated width.
fn float_item_of<G: Fn(FloatLiteral, FloatWidth) -> u64>(s: &[char], i: usize, g: &G) -> (r: Option<(DataItem, usize)>)
    requires
        float_callable(g),
    ensures
        forall|fb: FloatBits| #[trigger] decodes(g, fb) ==> read_of(r) == float_item(s@, i as nat, fb),
        r matches Some((x, j)) ==> i < j <= s@.len(),
{
    match float_value_of(s, i) {
        Some((l, p)) => {
            let (w, q) = match encoding_of(s, p) {
                Some((e, q)) => if e > 0 {
                    (if e == 1 {
                        FloatWidth::Sixteen
                    } else if e == 2 {
                        FloatWidth::ThirtyTwo
                    } else {
                        FloatWidth::SixtyFour
                    }, q)
                } else {
                    (FloatWidth::Unknown, p)
                },
                None => (FloatWidth::Unknown, p),
            };
            let ghost lv = l@;
            let bits = g(l, w);
            Some((DataItem::Float { value: bits, bitwidth: w }, q))
        },
        None => None,
    }
}

/// `Zero` in place of `Unknown` for a small value (see `small_width`).
fn small_width_of(w: IntegerWidth, small: bool) -> (r: IntegerWidth)
    ensures
        r == small_width(w, small),
{
    match w {
        IntegerWidth::Unknown => if small {
            IntegerWidth::Zero
        } else {
            w
        },
        _ => w,
    }
}

/// An unsigned integer (see `integer_item`).
fn integer_item_of(s: &[char], i: usize) -> (r: Option<(DataItem, usize)>)
    ensures
        read_of(r) == integer_item(s@, i as nat),
        r matches Some((x, j)) ==> i < j <= s@.len(),
{
    match number_of(s, i, 0xffff_ffff_ffff_ffff) {
        Some((v, w, p)) => Some((DataItem::Integer { value: v as u64, bitwidth: small_width_of(w, v <= 23) }, p)),
        None => None,
    }
}

/// A negative integer (see `negative_item`).
fn negative_item_of(s: &[char], i: usize) -> (r: Option<(DataItem, usize)>)
    ensures
        read_of(r) == negative_item(s@, i as nat),
        r matches Some((x, j)) ==> i < j <= s@.len(),
{
    let n = s.len();
    if has_char_at(s, i, '-') {
        match number_of(s, i + 1, u128::MAX) {
            Some((v, w, p)) => if 0 < v && v - 1 < 0x1_0000_0000_0000_0000u128 {
                Some((DataItem::Negative { value: (v - 1) as u64, bitwidth: small_width_of(w, v <= 24) }, p))
            } else {
                None
            },
            None => None,
        }
    } else {
        None
    }
}

/// A simple value (see `simple_item`).
fn simple_item_of(s: &[char], i: usize) -> (r: Option<(DataItem, usize)>)
    ensures
        read_of(r) == simple_item(s@, i as nat),
        r matches Some((x, j)) ==> i < j <= s@.len(),
{
    let n = s.len();
    proof {
        reveal_strlit("false");
        reveal_strlit("true");
        reveal_strlit("null");
        reveal_strlit("undefined");
    }
    if has_at_of(s, i, "false") {
        Some((DataItem::Simple(Simple(20)), i + 5))
    } else if has_at_of(s, i, "true") {
        Some((DataItem::Simple(Simple(21)), i + 4))
    } else if has_at_of(s, i, "null") {
        Some((DataItem::Simple(Simple(22)), i + 4))
    } else if has_at_of(s, i, "undefined") {
        Some((DataItem::Simple(Simple(23)), i + 9))
    } else {
        match radix_number_of(s, i, "simple(", Class::Decimal, 10) {
            Some((v, p)) => if has_char_at(s, p, ')') && v < 256 {
                Some((DataItem::Simple(Simple(v as u8)), p + 1))
            } else {
                None
            },
            None => None,
        }
    }
}

/// A quoted text string with white space and comments around it (see
/// `text_piece`).
fn text_piece_of(s: &[char], i: usize) -> (r: Option<(Vec<char>, usize)>)
    requires
        i <= s@.len(),
    ensures
        read_of(r) == text_piece(s@, i as nat),
        r matches Some((t, j)) ==> i < j <= s@.len(),
{
    let n = s.len();
    let j = skip_of(s, i);
    match quoted_of(s, j, '"') {
        Some((t, p)) => Some((t, skip_of(s, p))),
        None => None,
    }
}

/// What a read of items gives, by their models.
pub open spec fn items_read(r: Option<(Vec<DataItem>, usize)>) -> Read<Seq<SpecItem>> {
    match r {
        Some((v, p)) => Some((items_view(v@), p as nat)),
        None => None,
    }
}

/// What a read of pairs gives, by their models.
pub open spec fn pairs_read(r: Option<(Vec<(DataItem, DataItem)>, usize)>) -> Read<Seq<(SpecItem, SpecItem)>> {
    match r {
        Some((v, p)) => Some((pairs_view(v@), p as nat)),
        None => None,
    }
}

/// What a read of byte string chunks gives, by their models.
pub open spec fn bytestrings_read(r: Option<(Vec<ByteString>, usize)>) -> Read<Seq<SpecBytes>> {
    match r {
        Some((v, p)) => Some((bytestrings_view(v@), p as nat)),
        None => None,
    }
}

/// What a read of text string chunks gives, by their models.
pub open spec fn textstrings_read(r: Option<(Vec<TextString>, usize)>) -> Read<Seq<SpecText>> {
    match r {
        Some((v, p)) => Some((textstrings_view(v@), p as nat)),
        None => None,
    }
}

proof fn lemma_prepend_prepend<T>(a: Seq<T>, b: Seq<T>, r: Read<Seq<T>>)
    ensures
        prepend(a, prepend(b, r)) == prepend(a + b, r),
{
    if let Some((xs, q)) = r {
        assert(a + (b + xs) =~= (a + b) + xs);
    }
}

proof fn lemma_prepend_empty<T>(a: Seq<T>, p: nat)
    ensures
        prepend(a, Some((Seq::<T>::empty(), p))) == Some((a, p)),
{
    assert(a + Seq::<T>::empty() =~= a);
}

proof fn lemma_items_view_push(v: Seq<DataItem>, x: DataItem)
    ensures
        items_view(v.push(x)) == items_view(v) + seq![x@],
{
    assert(v.push(x).drop_last() =~= v);
    assert(items_view(v).push(x@) =~= items_view(v) + seq![x@]);
}

proof fn lemma_pairs_view_push(v: Seq<(DataItem, DataItem)>, x: (DataItem, DataItem))
    ensures
        pairs_view(v.push(x)) == pairs_view(v) + seq![(x.0@, x.1@)],
{
    assert(v.push(x).drop_last() =~= v);
    assert(pairs_view(v).push((x.0@, x.1@)) =~= pairs_view(v) + seq![(x.0@, x.1@)]);
}

/// The encodings of items, concatenated.
fn items_to_bytes(xs: &[DataItem]) -> (b: Vec<u8>)
    ensures
        b@ == items_bytes(items_view(xs@)),
{
    proof {
        crate::syntax::lemma_items_view(xs@);
    }
    let mut b: Vec<u8> = Vec::new();
    let mut k: usize = 0;
    assert(items_view(xs@).take(0) =~= Seq::<SpecItem>::empty());
    while k < xs.len()
        invariant
            k <= xs@.len(),
            b@ == items_bytes(items_view(xs@).take(k as int)),
            items_view(xs@).len() == xs@.len(),
            forall|j: int| 0 <= j < xs@.len() ==> #[trigger] items_view(xs@)[j] == xs@[j].view_item(),
        decreases xs@.len() - k,
    {
        item_to_bytes(&mut b, &xs[k]);
        k = k + 1;
        assert(items_view(xs@).take(k as int).drop_last() =~= items_view(xs@).take(k - 1));
    }
    assert(items_view(xs@).take(xs@.len() as int) =~= items_view(xs@));
    b
}

/// The UTF-8 encoding of some characters, as bytes.
fn utf8_bytes(t: &[char]) -> (b: Vec<u8>)
    ensures
        b@ == encode_utf8(t@),
{
    let st = string_from_chars(t);
    let mut b: Vec<u8> = Vec::new();
    append_bytes(&mut b, st.as_str().as_bytes());
    b
}

/// The position after `open` with white space and comments around it (see
/// `opening`).
fn opening_of(s: &[char], i: usize, open: &str) -> (r: Option<usize>)
    requires
        i <= s@.len(),
        open@.len() > 0,
    ensures
        match r {
            Some(b) => opening(s@, i as nat, open@) == Some(b as nat),
            None => opening(s@, i as nat, open@) is None,
        },
        r matches Some(b) ==> i < b <= s@.len(),
{
    let n = s.len();
    let a = skip_of(s, i);
    if has_at_of(s, a, open) {
        let len = crate::text::chars_of(open).len();
        Some(skip_of(s, a + len))
    } else {
        None
    }
}

/// A tagged item (see `tagged_item`).
fn tagged_of<G: Fn(FloatLiteral, FloatWidth) -> u64>(s: &[char], i: usize, g: &G) -> (r: Option<(DataItem, usize)>)
    requires
        i <= s@.len(),
        float_callable(g),
    ensures
        forall|fb: FloatBits| #[trigger] decodes(g, fb) ==> read_of(r) == tagged_item(s@, i as nat, fb),
        r matches Some((x, j)) ==> i <= j <= s@.len(),
    decreases s@.len() - i, 0nat,
{
    let n = s.len();
    match number_of(s, i, 0xffff_ffff_ffff_ffff) {
        Some((t, w, p)) => if has_char_at(s, p, '(') {
            match item_of(s, p + 1, g) {
                Some((x, q)) => if has_char_at(s, q, ')') {
                    Some((DataItem::Tag { tag: Tag(t as u64), bitwidth: small_width_of(w, t <= 23), value: Box::new(x) }, q + 1))
                } else {
                    None
                },
                None => None,
            }
        } else {
            None
        },
        None => None,
    }
}

/// A definite byte string (see `definite_bytes`).
fn definite_bytes_of<G: Fn(FloatLiteral, FloatWidth) -> u64>(s: &[char], i: usize, g: &G) -> (r: Option<(Vec<u8>, usize)>)
    requires
        i <= s@.len(),
        float_callable(g),
    ensures
        forall|fb: FloatBits| #[trigger] decodes(g, fb) ==> read_of(r) == definite_bytes(s@, i as nat, fb),
        r matches Some((b, j)) ==> i <= j <= s@.len(),
    decreases s@.len() - i, 0nat,
{
    let n = s.len();
    proof {
        reveal_strlit("<<");
        reveal_strlit(">>");
    }
    let j = skip_of(s, i);
    let r = match encoded_bytes_of(s, j, "h", Class::Hex) {
        Some(r) => Some(r),
        None => match encoded_bytes_of(s, j, "b32", Class::Base32) {
            Some(r) => Some(r),
            None => match encoded_bytes_of(s, j, "h32", Class::Base32Hex) {
                Some(r) => Some(r),
                None => match encoded_bytes_of(s, j, "b64", Class::Base64Url) {
                    Some(r) => Some(r),
                    None => match encoded_bytes_of(s, j, "b64", Class::Base64) {
                        Some(r) => Some(r),
                        None => if has_at_of(s, j, "<<") {
                            match items_list_of(s, j + 2, g) {
                                Some((xs, p)) => if has_at_of(s, p, ">>") {
                                    Some((items_to_bytes(xs.as_slice()), p + 2))
                                } else {
                                    None
                                },
                                None => None,
                            }
                        } else {
                            match quoted_of(s, j, '\'') {
                                Some((t, p)) => Some((utf8_bytes(t.as_slice()), p)),
                                None => None,
                            }
                        },
                    },
                },
            },
        },
    };
    match r {
        Some((b, p)) => Some((b, skip_of(s, p))),
        None => None,
    }
}

/// One or more definite byte strings, concatenated (see `bytes_run`).
fn bytes_run_of<G: Fn(FloatLiteral, FloatWidth) -> u64>(s: &[char], i: usize, g: &G) -> (r: Option<(Vec<u8>, usize)>)
    requires
        i <= s@.len(),
        float_callable(g),
    ensures
        forall|fb: FloatBits| #[trigger] decodes(g, fb) ==> read_of(r) == bytes_run(s@, i as nat, fb),
        r matches Some((b, j)) ==> i <= j <= s@.len(),
    decreases s@.len() - i, 2nat,
{
    let n = s.len();
    match definite_bytes_of(s, i, g) {
        None => None,
        Some((first, p0)) => {
            if p0 <= i {
                return None;
            }
            let mut out = first;
            let mut p = p0;
            loop
                invariant
                    i < p <= s@.len(),
                    n == s@.len(),
                    float_callable(g),
                    forall|fb: FloatBits| #[trigger] decodes(g, fb) ==> bytes_run(s@, i as nat, fb) == prepend(out@, bytes_more(s@, p as nat, fb)),
                decreases s@.len() - p,
            {
                match definite_bytes_of(s, p, g) {
                    None => {
                        proof {
                            lemma_prepend_empty(out@, p as nat);
                        }
                        return Some((out, p));
                    },
                    Some((b, q)) => {
                        if q <= p {
                            return None;
                        }
                        let ghost before = out@;
                        append_bytes(&mut out, b.as_slice());
                        proof {
                            assert forall|fb: FloatBits| #[trigger] decodes(g, fb) implies bytes_run(s@, i as nat, fb) == prepend(out@, bytes_more(s@, q as nat, fb)) by {
                                lemma_prepend_prepend(before, b@, bytes_more(s@, q as nat, fb));
                            }
                        }
                        p = q;
                    },
                }
            }
        },
    }
}

/// Byte string chunks separated by commas (see `bytes_chunks`).
fn bytes_chunks_of<G: Fn(FloatLiteral, FloatWidth) -> u64>(s: &[char], i: usize, g: &G) -> (r: Option<(Vec<ByteString>, usize)>)
    requires
        i <= s@.len(),
        float_callable(g),
    ensures
        forall|fb: FloatBits| #[trigger] decodes(g, fb) ==> bytestrings_read(r) == bytes_chunks(s@, i as nat, fb),
        r matches Some((b, j)) ==> i <= j <= s@.len(),
    decreases s@.len() - i, 3nat,
{
    let n = s.len();
    match bytes_run_of(s, i, g) {
        None => Some((Vec::new(), i)),
        Some((first, p0)) => {
            if p0 <= i {
                return None;
            }
            let mut out: Vec<ByteString> = Vec::new();
            out.push(ByteString { data: first, bitwidth: IntegerWidth::Unknown });
            assert(bytestrings_view(out@) =~= seq![unknown_bytes(first@)]);
            let mut p = p0;
            loop
                invariant
                    i < p <= s@.len(),
                    n == s@.len(),
                    float_callable(g),
                    forall|fb: FloatBits| #[trigger] decodes(g, fb) ==> bytes_chunks(s@, i as nat, fb) == prepend(bytestrings_view(out@), chunks_more(s@, p as nat, fb)),
                decreases s@.len() - p,
            {
                if !has_char_at(s, p, ',') {
                    proof {
                        lemma_prepend_empty(bytestrings_view(out@), p as nat);
                    }
                    return Some((out, p));
                }
                match bytes_run_of(s, p + 1, g) {
                    None => {
                        proof {
                            lemma_prepend_empty(bytestrings_view(out@), p as nat);
                        }
                        return Some((out, p));
                    },
                    Some((b, q)) => {
                        if q <= p {
                            return None;
                        }
                        let ghost before = bytestrings_view(out@);
                        let ghost chunk = unknown_bytes(b@);
                        out.push(ByteString { data: b, bitwidth: IntegerWidth::Unknown });
                        assert(bytestrings_view(out@) =~= before + seq![chunk]);
                        proof {
                            assert forall|fb: FloatBits| #[trigger] decodes(g, fb) implies bytes_chunks(s@, i as nat, fb) == prepend(bytestrings_view(out@), chunks_more(s@, q as nat, fb)) by {
                                lemma_prepend_prepend(before, seq![chunk], chunks_more(s@, q as nat, fb));
                            }
                        }
                        p = q;
                    },
                }
            }
        },
    }
}

/// A byte string (see `bytestring_item`).
fn bytestring_of<G: Fn(FloatLiteral, FloatWidth) -> u64>(s: &[char], i: usize, g: &G) -> (r: Option<(DataItem, usize)>)
    requires
        i <= s@.len(),
        float_callable(g),
    ensures
        forall|fb: FloatBits| #[trigger] decodes(g, fb) ==> read_of(r) == bytestring_item(s@, i as nat, fb),
        r matches Some((x, j)) ==> i <= j <= s@.len(),
    decreases s@.len() - i, 4nat,
{
    let n = s.len();
    proof {
        reveal_strlit("(_");
        reveal_strlit(")");
    }
    match bytes_run_of(s, i, g) {
        Some((b, p)) => Some((DataItem::ByteString(ByteString { data: b, bitwidth: IntegerWidth::Unknown }), p)),
        None => if has_at_of(s, i, "(_") {
            match bytes_chunks_of(s, i + 2, g) {
                Some((cs, p)) => match closing_of(s, p, ")") {
                    Some(q) => Some((DataItem::IndefiniteByteString(cs), q)),
                    None => None,
                },
                None => None,
            }
        } else {
            None
        },
    }
}

/// A byte string, or a text string as UTF-8 (see `string_bytes`).
fn string_bytes_of<G: Fn(FloatLiteral, FloatWidth) -> u64>(s: &[char], i: usize, g: &G) -> (r: Option<(Vec<u8>, usize)>)
    requires
        i <= s@.len(),
        float_callable(g),
    ensures
        forall|fb: FloatBits| #[trigger] decodes(g, fb) ==> read_of(r) == string_bytes(s@, i as nat, fb),
        r matches Some((b, j)) ==> i <= j <= s@.len(),
    decreases s@.len() - i, 1nat,
{
    match definite_bytes_of(s, i, g) {
        Some(r) => Some(r),
        None => match text_piece_of(s, i) {
            Some((u, e)) => Some((utf8_bytes(u.as_slice()), e)),
            None => None,
        },
    }
}

/// The strings after a first text string, as bytes (see `text_rest`).
fn text_rest_of<G: Fn(FloatLiteral, FloatWidth) -> u64>(s: &[char], p: usize, g: &G) -> (r: Option<(Vec<u8>, usize)>)
    requires
        p <= s@.len(),
        float_callable(g),
    ensures
        forall|fb: FloatBits| #[trigger] decodes(g, fb) ==> read_of(r) == text_rest(s@, p as nat, fb),
        r matches Some((b, j)) ==> p <= j <= s@.len(),
    decreases s@.len() - p, 2nat,
{
    let n = s.len();
    let mut bytes: Vec<u8> = Vec::new();
    let mut q = p;
    loop
        invariant
            p <= q <= s@.len(),
            n == s@.len(),
            float_callable(g),
            forall|fb: FloatBits| #[trigger] decodes(g, fb) ==> text_rest(s@, p as nat, fb) == prepend(bytes@, text_rest(s@, q as nat, fb)),
        decreases s@.len() - q,
    {
        match string_bytes_of(s, q, g) {
            None => {
                proof {
                    lemma_prepend_empty(bytes@, q as nat);
                }
                return Some((bytes, q));
            },
            Some((b, e)) => {
                if e <= q {
                    return None;
                }
                let ghost before = bytes@;
                append_bytes(&mut bytes, b.as_slice());
                proof {
                    assert forall|fb: FloatBits| #[trigger] decodes(g, fb) implies text_rest(s@, p as nat, fb) == prepend(bytes@, text_rest(s@, e as nat, fb)) by {
                        lemma_prepend_prepend(before, b@, text_rest(s@, e as nat, fb));
                    }
                }
                q = e;
            },
        }
    }
}

/// A text string and the strings after it (see `text_run`).
fn text_run_of<G: Fn(FloatLiteral, FloatWidth) -> u64>(s: &[char], i: usize, g: &G) -> (r: Option<(Vec<char>, usize)>)
    requires
        i <= s@.len(),
        float_callable(g),
    ensures
        forall|fb: FloatBits| #[trigger] decodes(g, fb) ==> read_of(r) == text_run(s@, i as nat, fb),
        r matches Some((t, j)) ==> i <= j <= s@.len(),
    decreases s@.len() - i, 3nat,
{
    match text_piece_of(s, i) {
        None => None,
        Some((first, p)) => match text_rest_of(s, p, g) {
            Some((bytes, q)) => match utf8_string(bytes.as_slice()) {
                Some(rest) => {
                    let mut out = first;
                    push_str(&mut out, rest.as_str());
                    Some((out, q))
                },
                None => None,
            },
            None => None,
        },
    }
}

/// Text string chunks separated by commas (see `text_chunks`).
fn text_chunks_of<G: Fn(FloatLiteral, FloatWidth) -> u64>(s: &[char], i: usize, g: &G) -> (r: Option<(Vec<TextString>, usize)>)
    requires
        i <= s@.len(),
        float_callable(g),
    ensures
        forall|fb: FloatBits| #[trigger] decodes(g, fb) ==> textstrings_read(r) == text_chunks(s@, i as nat, fb),
        r matches Some((b, j)) ==> i <= j <= s@.len(),
    decreases s@.len() - i, 4nat,
{
    let n = s.len();
    match text_run_of(s, i, g) {
        None => Some((Vec::new(), i)),
        Some((first, p0)) => {
            if p0 <= i {
                return None;
            }
            let mut out: Vec<TextString> = Vec::new();
            out.push(TextString { data: string_from_chars(first.as_slice()), bitwidth: IntegerWidth::Unknown });
            assert(textstrings_view(out@) =~= seq![unknown_text(first@)]);
            let mut p = p0;
            loop
                invariant
                    i < p <= s@.len(),
                    n == s@.len(),
                    float_callable(g),
                    forall|fb: FloatBits| #[trigger] decodes(g, fb) ==> text_chunks(s@, i as nat, fb) == prepend(textstrings_view(out@), text_chunks_more(s@, p as nat, fb)),
                decreases s@.len() - p,
            {
                if !has_char_at(s, p, ',') {
                    proof {
                        lemma_prepend_empty(textstrings_view(out@), p as nat);
                    }
                    return Some((out, p));
                }
                match text_run_of(s, p + 1, g) {
                    None => {
                        proof {
                            lemma_prepend_empty(textstrings_view(out@), p as nat);
                        }
                        return Some((out, p));
                    },
                    Some((t, q)) => {
                        if q <= p {
                            return None;
                        }
                        let ghost before = textstrings_view(out@);
                        let ghost chunk = unknown_text(t@);
                        out.push(TextString { data: string_from_chars(t.as_slice()), bitwidth: IntegerWidth::Unknown });
                        assert(textstrings_view(out@) =~= before + seq![chunk]);
                        proof {
                            assert forall|fb: FloatBits| #[trigger] decodes(g, fb) implies text_chunks(s@, i as nat, fb) == prepend(textstrings_view(out@), text_chunks_more(s@, q as nat, fb)) by {
                                lemma_prepend_prepend(before, seq![chunk], text_chunks_more(s@, q as nat, fb));
                            }
                        }
                        p = q;
                    },
                }
            }
        },
    }
}

/// A text string (see `textstring_item`).
fn textstring_of<G: Fn(FloatLiteral, FloatWidth) -> u64>(s: &[char], i: usize, g: &G) -> (r: Option<(DataItem, usize)>)
    requires
        i <= s@.len(),
        float_callable(g),
    ensures
        forall|fb: FloatBits| #[trigger] decodes(g, fb) ==> read_of(r) == textstring_item(s@, i as nat, fb),
        r matches Some((x, j)) ==> i <= j <= s@.len(),
    decreases s@.len() - i, 4nat,
{
    let n = s.len();
    proof {
        reveal_strlit("(_");
        reveal_strlit(")");
    }
    match text_run_of(s, i, g) {
        Some((t, p)) => Some((DataItem::TextString(TextString { data: string_from_chars(t.as_slice()), bitwidth: IntegerWidth::Unknown }), p)),
        None => if has_at_of(s, i, "(_") {
            match text_chunks_of(s, i + 2, g) {
                Some((cs, p)) => match closing_of(s, p, ")") {
                    Some(q) => Some((DataItem::IndefiniteTextString(cs), q)),
                    None => None,
                },
                None => None,
            }
        } else {
            None
        },
    }
}

/// An array after `open` (see `array_form`).
fn array_form_of<G: Fn(FloatLiteral, FloatWidth) -> u64>(
    s: &[char],
    i: usize,
    open: &str,
    bitwidth: Option<IntegerWidth>,
    g: &G,
) -> (r: Option<(DataItem, usize)>)
    requires
        i <= s@.len(),
        open@.len() > 0,
        float_callable(g),
    ensures
        forall|fb: FloatBits| #[trigger] decodes(g, fb) ==> read_of(r) == array_form(s@, i as nat, open@, bitwidth, fb),
        r matches Some((x, j)) ==> i <= j <= s@.len(),
    decreases s@.len() - i, 0nat,
{
    match opening_of(s, i, open) {
        Some(b) => match items_list_of(s, b, g) {
            Some((xs, p)) => match closing_of(s, p, "]") {
                Some(q) => Some((DataItem::Array { data: xs, bitwidth }, q)),
                None => None,
            },
            None => None,
        },
        None => None,
    }
}

/// An array (see `array_item`).
fn array_of<G: Fn(FloatLiteral, FloatWidth) -> u64>(s: &[char], i: usize, g: &G) -> (r: Option<(DataItem, usize)>)
    requires
        i <= s@.len(),
        float_callable(g),
    ensures
        forall|fb: FloatBits| #[trigger] decodes(g, fb) ==> read_of(r) == array_item(s@, i as nat, fb),
        r matches Some((x, j)) ==> i <= j <= s@.len(),
    decreases s@.len() - i, 1nat,
{
    proof {
        reveal_strlit("[");
        reveal_strlit("[_");
    }
    match array_form_of(s, i, "[", Some(IntegerWidth::Unknown), g) {
        Some(r) => Some(r),
        None => array_form_of(s, i, "[_", None, g),
    }
}

/// A map after `open` (see `map_form`).
fn map_form_of<G: Fn(FloatLiteral, FloatWidth) -> u64>(
    s: &[char],
    i: usize,
    open: &str,
    bitwidth: Option<IntegerWidth>,
    g: &G,
) -> (r: Option<(DataItem, usize)>)
    requires
        i <= s@.len(),
        open@.len() > 0,
        float_callable(g),
    ensures
        forall|fb: FloatBits| #[trigger] decodes(g, fb) ==> read_of(r) == map_form(s@, i as nat, open@, bitwidth, fb),
        r matches Some((x, j)) ==> i <= j <= s@.len(),
    decreases s@.len() - i, 0nat,
{
    match opening_of(s, i, open) {
        Some(b) => match pairs_list_of(s, b, g) {
            Some((xs, p)) => match closing_of(s, p, "}") {
                Some(q) => Some((DataItem::Mapping { data: xs, bitwidth }, q)),
                None => None,
            },
            None => None,
        },
        None => None,
    }
}

/// A map (see `map_item`).
fn map_of<G: Fn(FloatLiteral, FloatWidth) -> u64>(s: &[char], i: usize, g: &G) -> (r: Option<(DataItem, usize)>)
    requires
        i <= s@.len(),
        float_callable(g),
    ensures
        forall|fb: FloatBits| #[trigger] decodes(g, fb) ==> read_of(r) == map_item(s@, i as nat, fb),
        r matches Some((x, j)) ==> i <= j <= s@.len(),
    decreases s@.len() - i, 1nat,
{
    proof {
        reveal_strlit("{");
        reveal_strlit("{_");
    }
    match map_form_of(s, i, "{", Some(IntegerWidth::Unknown), g) {
        Some(r) => Some(r),
        None => map_form_of(s, i, "{_", None, g),
    }
}

/// A data item with white space and comments around it (see `item`).
fn item_of<G: Fn(FloatLiteral, FloatWidth) -> u64>(s: &[char], i: usize, g: &G) -> (r: Option<(DataItem, usize)>)
    requires
        i <= s@.len(),
        float_callable(g),
    ensures
        forall|fb: FloatBits| #[trigger] decodes(g, fb) ==> read_of(r) == item(s@, i as nat, fb),
        r matches Some((x, j)) ==> i <= j <= s@.len(),
    decreases s@.len() - i, 5nat,
{
    let n = s.len();
    let j = skip_of(s, i);
    let r = match float_item_of(s, j, g) {
        Some(r) => Some(r),
        None => match tagged_of(s, j, g) {
            Some(r) => Some(r),
            None => match integer_item_of(s, j) {
                Some(r) => Some(r),
                None => match negative_item_of(s, j) {
                    Some(r) => Some(r),
                    None => match bytestring_of(s, j, g) {
                        Some(r) => Some(r),
                        None => match textstring_of(s, j, g) {
                            Some(r) => Some(r),
                            None => match array_of(s, j, g) {
                                Some(r) => Some(r),
                                None => match map_of(s, j, g) {
                                    Some(r) => Some(r),
                                    None => simple_item_of(s, j),
                                },
                            },
                        },
                    },
                },
            },
        },
    };
    match r {
        Some((x, p)) => Some((x, skip_of(s, p))),
        None => None,
    }
}

/// Items separated by commas (see `items_list`).
fn items_list_of<G: Fn(FloatLiteral, FloatWidth) -> u64>(s: &[char], i: usize, g: &G) -> (r: Option<(Vec<DataItem>, usize)>)
    requires
        i <= s@.len(),
        float_callable(g),
    ensures
        forall|fb: FloatBits| #[trigger] decodes(g, fb) ==> items_read(r) == items_list(s@, i as nat, fb),
        r matches Some((b, j)) ==> i <= j <= s@.len(),
    decreases s@.len() - i, 6nat,
{
    let n = s.len();
    match item_of(s, i, g) {
        None => Some((Vec::new(), i)),
        Some((first, p0)) => {
            if p0 <= i {
                return None;
            }
            let mut out: Vec<DataItem> = Vec::new();
            let ghost x0 = first@;
            out.push(first);
            proof {
                lemma_items_view_push(Seq::empty(), out@[0]);
                assert(Seq::<DataItem>::empty().push(out@[0]) =~= out@);
                assert(items_view(Seq::<DataItem>::empty()) =~= Seq::<SpecItem>::empty());
                assert(Seq::<SpecItem>::empty() + seq![x0] =~= seq![x0]);
            }
            let mut p = p0;
            loop
                invariant
                    i < p <= s@.len(),
                    n == s@.len(),
                    float_callable(g),
                    forall|fb: FloatBits| #[trigger] decodes(g, fb) ==> items_list(s@, i as nat, fb) == prepend(items_view(out@), items_more(s@, p as nat, fb)),
                decreases s@.len() - p,
            {
                if !has_char_at(s, p, ',') {
                    proof {
                        lemma_prepend_empty(items_view(out@), p as nat);
                    }
                    return Some((out, p));
                }
                match item_of(s, p + 1, g) {
                    None => {
                        proof {
                            lemma_prepend_empty(items_view(out@), p as nat);
                        }
                        return Some((out, p));
                    },
                    Some((x, q)) => {
                        if q <= p {
                            return None;
                        }
                        let ghost before = out@;
                        let ghost xv = x@;
                        out.push(x);
                        proof {
                            lemma_items_view_push(before, out@[out@.len() - 1]);
                            assert(before.push(out@[out@.len() - 1]) =~= out@);
                            assert forall|fb: FloatBits| #[trigger] decodes(g, fb) implies items_list(s@, i as nat, fb) == prepend(items_view(out@), items_more(s@, q as nat, fb)) by {
                                lemma_prepend_prepend(items_view(before), seq![xv], items_more(s@, q as nat, fb));
                            }
                        }
                        p = q;
                    },
                }
            }
        },
    }
}

/// A pair of a map (see `pair_item`).
fn pair_of<G: Fn(FloatLiteral, FloatWidth) -> u64>(s: &[char], i: usize, g: &G) -> (r: Option<((DataItem, DataItem), usize)>)
    requires
        i <= s@.len(),
        float_callable(g),
    ensures
        forall|fb: FloatBits| #[trigger] decodes(g, fb) ==> read_of(r) == pair_item(s@, i as nat, fb),
        r matches Some((x, j)) ==> i <= j <= s@.len(),
    decreases s@.len() - i, 6nat,
{
    let n = s.len();
    match item_of(s, i, g) {
        Some((k, p)) => if has_char_at(s, p, ':') {
            match item_of(s, p + 1, g) {
                Some((v, q)) => Some(((k, v), q)),
                None => None,
            }
        } else {
            None
        },
        None => None,
    }
}

/// Pairs separated by commas (see `pairs_list`).
fn pairs_list_of<G: Fn(FloatLiteral, FloatWidth) -> u64>(s: &[char], i: usize, g: &G) -> (r: Option<(Vec<(DataItem, DataItem)>, usize)>)
    requires
        i <= s@.len(),
        float_callable(g),
    ensures
        forall|fb: FloatBits| #[trigger] decodes(g, fb) ==> pairs_read(r) == pairs_list(s@, i as nat, fb),
        r matches Some((b, j)) ==> i <= j <= s@.len(),
    decreases s@.len() - i, 7nat,
{
    let n = s.len();
    match pair_of(s, i, g) {
        None => Some((Vec::new(), i)),
        Some((first, p0)) => {
            if p0 <= i {
                return None;
            }
            let mut out: Vec<(DataItem, DataItem)> = Vec::new();
            let ghost x0 = (first.0@, first.1@);
            out.push(first);
            proof {
                lemma_pairs_view_push(Seq::empty(), out@[0]);
                assert(Seq::<(DataItem, DataItem)>::empty().push(out@[0]) =~= out@);
                assert(pairs_view(Seq::<(DataItem, DataItem)>::empty()) =~= Seq::<(SpecItem, SpecItem)>::empty());
                assert(Seq::<(SpecItem, SpecItem)>::empty() + seq![x0] =~= seq![x0]);
            }
            let mut p = p0;
            loop
                invariant
                    i < p <= s@.len(),
                    n == s@.len(),
                    float_callable(g),
                    forall|fb: FloatBits| #[trigger] decodes(g, fb) ==> pairs_list(s@, i as nat, fb) == prepend(pairs_view(out@), pairs_more(s@, p as nat, fb)),
                decreases s@.len() - p,
            {
                if !has_char_at(s, p, ',') {
                    proof {
                        lemma_prepend_empty(pairs_view(out@), p as nat);
                    }
                    return Some((out, p));
                }
                match pair_of(s, p + 1, g) {
                    None => {
                        proof {
                            lemma_prepend_empty(pairs_view(out@), p as nat);
                        }
                        return Some((out, p));
                    },
                    Some((x, q)) => {
                        if q <= p {
                            return None;
                        }
                        let ghost before = out@;
                        let ghost xv = (x.0@, x.1@);
                        out.push(x);
                        proof {
                            lemma_pairs_view_push(before, out@[out@.len() - 1]);
                            assert(before.push(out@[out@.len() - 1]) =~= out@);
                            assert forall|fb: FloatBits| #[trigger] decodes(g, fb) implies pairs_list(s@, i as nat, fb) == prepend(pairs_view(out@), pairs_more(s@, q as nat, fb)) by {
                                lemma_prepend_prepend(pairs_view(before), seq![xv], pairs_more(s@, q as nat, fb));
                            }
                        }
                        p = q;
                    },
                }
            }
        },
    }
}

/// What `Debug` writes for a string slice: the text in double quotes, with
/// escapes.
pub uninterp spec fn debug_text(s: Seq<char>) -> Seq<char>;

/// `format!("{:?}", s)`: the `Debug` text of a string slice.
#[verifier::external_body]
fn str_debug(s: &str) -> (r: String)
    ensures
        r@ == debug_text(s@),
{
    format!("{:?}", s)
}

/// The message of the error for text that does not start with a data item.
pub open spec fn parse_error_message() -> Seq<char> {
    "Parsing error (invalid diagnostic notation)"@
}

/// The message of the error for text left after a data item.
pub open spec fn remaining_text_message(rest: Seq<char>) -> Seq<char> {
    "Remaining text ("@ + debug_text(rest) + ")"@
}

/// What parsing `text` as exactly one data item gives, with `fb` giving the
/// bit patterns of float literals.
pub open spec fn parse_diag_gives(text: Seq<char>, fb: FloatBits, r: Result<DataItem>) -> bool {
    match item(text, 0, fb) {
        Some((x, p)) => if p >= text.len() {
            r matches Ok(v) && v@ == x
        } else {
            r matches Err(e) && e.message() == remaining_text_message(text.skip(p as int))
        },
        None => r matches Err(e) && e.message() == parse_error_message(),
    }
}

/// Parse a string containing a diagnostic notation encoded CBOR data item.
///
/// Note that diagnostic notation is a diagnostic format, not meant to be
/// parsed: this parser attempts to read back what this crate writes, and
/// little else. Prefer passing around binary or hex encoded data items.
///
/// `g` gives the bit pattern of each floating point literal at the width
/// that its encoding indicator asks for.
pub fn parse_diag<G: Fn(FloatLiteral, FloatWidth) -> u64>(text: &str, g: &G) -> (r: Result<DataItem>)
    requires
        float_callable(g),
    ensures
        forall|fb: FloatBits| #[trigger] decodes(g, fb) ==> parse_diag_gives(text@, fb, r),
{
    let chars = chars_of(text);
    let s = chars.as_slice();
    match item_of(s, 0, g) {
        None => Err(Error::Todo(owned("Parsing error (invalid diagnostic notation)"))),
        Some((x, p)) => if p == s.len() {
            Ok(x)
        } else {
            let rest = string_from_chars(char_range(s, p, s.len()).as_slice());
            let debug = str_debug(rest.as_str());
            let mut msg: Vec<char> = Vec::new();
            push_str(&mut msg, "Remaining text (");
            push_str(&mut msg, debug.as_str());
            push_str(&mut msg, ")");
            proof {
                assert(s@.subrange(p as int, s@.len() as int) =~= text@.skip(p as int));
            }
            Err(Error::Todo(string_from_chars(msg.as_slice())))
        },
    }
}

} // verus!
