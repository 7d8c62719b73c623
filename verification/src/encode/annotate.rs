//! The texts that annotated hex adds to what it shows of tagged items, and
//! the outside functions that compute the parts of them this library does
//! not compute itself.
use vstd::prelude::*;

use vstd::utf8::encode_utf8;

use super::hex::{
    SpecLine, leaf, Line, push_hex, hex_digits, hex_number, bytes_lines, own_line, with_sublines,
    sublines_width, lines_view, lemma_lines_view, lemma_lines_view_push, bytes_to_hex, push_own_line,
    sublines_hex_width, slice_range, hex_digit_chars,
};
use crate::codecs::{base64_nopad_encode, base64_text, hex_lower, hexlower_encode};
use crate::float::{FloatText, callable, renders};
use crate::syntax::{ByteString, DataItem, FloatWidth, IntegerWidth, Simple, SpecBytes, SpecItem, SpecText, Tag, TextString, items_view, lemma_items_view};
use crate::text::{chars_of, decimal, owned, push_chars, push_decimal, push_str, string_from_chars};

verus! {

/// Decimal digits with a comma before each group of three digits counted
/// from the right.
pub open spec fn grouped(digits: Seq<char>) -> Seq<char>
    decreases digits.len(),
{
    if digits.len() <= 3 {
        digits
    } else {
        grouped(digits.take(digits.len() - 3)) + seq![','] + digits.skip(digits.len() - 3)
    }
}

/// An integer in decimal with thousands separators.
pub open spec fn separated(v: int) -> Seq<char> {
    if v < 0 {
        seq!['-'] + grouped(decimal((-v) as nat))
    } else {
        grouped(decimal(v as nat))
    }
}

/// `Separatable::separated_string` of the `separator` crate on a `u64`: the
/// decimal digits with a comma before every third digit from the right.
#[verifier::external_body]
pub(crate) fn separated_u64(v: u64) -> (s: String)
    ensures
        s@ == separated(v as int),
{
    separator::Separatable::separated_string(&v)
}

/// `Separatable::separated_string` of the `separator` crate on an `i64`: a
/// minus sign for negative values, then the decimal digits of the magnitude
/// with a comma before every third digit from the right.
#[verifier::external_body]
pub(crate) fn separated_i64(v: i64) -> (s: String)
    ensures
        s@ == separated(v as int),
{
    separator::Separatable::separated_string(&v)
}

/// `Separatable::separated_string` of the `separator` crate on an `i128`, as
/// for `i64`.
#[verifier::external_body]
pub(crate) fn separated_i128(v: i128) -> (s: String)
    ensures
        s@ == separated(v as int),
{
    separator::Separatable::separated_string(&v)
}


/// An annotation line: a line with no hex of its own.
pub open spec fn note(comment: Seq<char>) -> SpecLine {
    leaf(Seq::empty(), comment)
}

/// An annotation line from its text.
pub fn note_line(comment: Vec<char>) -> (l: Line)
    ensures
        l@ == note(comment@),
{
    proof { reveal_strlit(""); }
    Line::new(owned(""), string_from_chars(comment.as_slice()))
}

/// An annotation line from a string slice.
pub fn note_str(comment: &str) -> (l: Line)
    ensures
        l@ == note(comment@),
{
    proof { reveal_strlit(""); }
    Line::new(owned(""), owned(comment))
}

// ---------------------------------------------------------------------------
// Dates and times, computed by `chrono`.

/// What `chrono` makes of an RFC 3339 datetime: the seconds since the Unix
/// epoch (`%s%.f`), or the parse error's message.
pub uninterp spec fn rfc3339_epoch(text: Seq<char>) -> Result<Seq<char>, Seq<char>>;

/// `chrono::DateTime::parse_from_rfc3339` followed by `format("%s%.f")`: the
/// time since the epoch of an RFC 3339 datetime, or the error's `Display`.
#[verifier::external_body]
fn rfc3339_epoch_of(text: &str) -> (r: Result<String, String>)
    ensures
        match r {
            Ok(s) => rfc3339_epoch(text@) == Ok::<Seq<char>, Seq<char>>(s@),
            Err(e) => rfc3339_epoch(text@) == Err::<Seq<char>, Seq<char>>(e@),
        },
{
    match chrono::DateTime::parse_from_rfc3339(text) {
        Ok(date) => Ok(date.format("%s%.f").to_string()),
        Err(err) => Err(err.to_string()),
    }
}

/// What `chrono` makes of a count of seconds since the Unix epoch: the
/// datetime as `%FT%T%.fZ`, or nothing when it is out of range.
pub uninterp spec fn timestamp_datetime(secs: i64) -> Option<Seq<char>>;

/// `chrono::NaiveDateTime::from_timestamp_opt(secs, 0)` followed by
/// `format("%FT%T%.fZ")`.
#[verifier::external_body]
#[allow(deprecated)]
fn timestamp_datetime_of(secs: i64) -> (r: Option<String>)
    ensures
        match r {
            Some(s) => timestamp_datetime(secs) == Some(s@),
            None => timestamp_datetime(secs) == None::<Seq<char>>,
        },
{
    chrono::NaiveDateTime::from_timestamp_opt(secs, 0).map(|date| date.format("%FT%T%.fZ").to_string())
}

/// What `chrono` makes of a `%Y-%m-%d` date: the days since 1970-01-01, or
/// the parse error's message.
pub uninterp spec fn iso_date_days(text: Seq<char>) -> Result<i64, Seq<char>>;

/// `chrono::NaiveDate::parse_from_str(text, "%Y-%m-%d")` followed by the
/// number of days since 1970-01-01 (`signed_duration_since(..).num_days()`).
#[verifier::external_body]
fn iso_date_days_of(text: &str) -> (r: Result<i64, String>)
    ensures
        match r {
            Ok(d) => iso_date_days(text@) == Ok::<i64, Seq<char>>(d),
            Err(e) => iso_date_days(text@) == Err::<i64, Seq<char>>(e@),
        },
{
    let epoch = chrono::NaiveDate::from_ymd_opt(1970, 1, 1).unwrap();
    match chrono::NaiveDate::parse_from_str(text, "%Y-%m-%d") {
        Ok(date) => Ok(date.signed_duration_since(epoch).num_days()),
        Err(err) => Err(err.to_string()),
    }
}

/// What `chrono` makes of a count of milliseconds after 1970-01-01: the
/// date as `%F`, or nothing when it is out of range.
pub uninterp spec fn epoch_millis_date(millis: i64) -> Option<Seq<char>>;

/// `chrono::NaiveDate::from_ymd_opt(1970, 1, 1)`, `checked_add_signed` of
/// `chrono::Duration::milliseconds(millis)`, then `format("%F")`.
#[verifier::external_body]
fn epoch_millis_date_of(millis: i64) -> (r: Option<String>)
    ensures
        match r {
            Some(s) => epoch_millis_date(millis) == Some(s@),
            None => epoch_millis_date(millis) == None::<Seq<char>>,
        },
{
    let epoch = chrono::NaiveDate::from_ymd_opt(1970, 1, 1).unwrap();
    epoch.checked_add_signed(chrono::Duration::milliseconds(millis)).map(|date| date.format("%F").to_string())
}

// ---------------------------------------------------------------------------
// Big numbers, computed by `num-bigint` and `num-rational`.

/// The value of big-endian bytes.
pub open spec fn big_value(s: Seq<u8>) -> nat
    decreases s.len(),
{
    if s.len() == 0 { 0 } else { big_value(s.drop_last()) * 256 + s.last() as nat }
}

/// `num_bigint::BigUint::from_bytes_be` and its `Display`: the decimal
/// digits of the big-endian value of the bytes.
#[verifier::external_body]
fn biguint_decimal(data: &[u8]) -> (s: String)
    ensures
        s@ == decimal(big_value(data@)),
{
    num_bigint::BigUint::from_bytes_be(data).to_string()
}

/// Big-endian bytes of one more than the value of `data`.
fn increment(data: &[u8]) -> (r: Vec<u8>)
    ensures
        big_value(r@) == big_value(data@) + 1,
    decreases data@.len(),
{
    if data.len() == 0 {
        let mut r: Vec<u8> = Vec::new();
        r.push(1);
        assert(r@.drop_last() =~= Seq::<u8>::empty());
        assert(big_value(r@.drop_last()) == 0);
        assert(big_value(r@) == 1);
        return r;
    }
    let last = data[data.len() - 1];
    let front = crate::encode::hex::slice_range(data, 0, data.len() - 1);
    assert(front@ =~= data@.drop_last());
    if last < 255 {
        let mut r = front;
        r.push(last + 1);
        assert(r@.drop_last() =~= data@.drop_last());
        r
    } else {
        let mut r = increment(front.as_slice());
        let ghost inc = r@;
        r.push(0);
        assert(r@.drop_last() =~= inc);
        r
    }
}

/// The sign and big-endian magnitude of an integer.
pub enum Mantissa {
    Plus(Vec<u8>),
    Minus(Vec<u8>),
}

/// The value of a mantissa.
pub open spec fn mantissa_value(m: Mantissa) -> int {
    match m {
        Mantissa::Plus(b) => big_value(b@) as int,
        Mantissa::Minus(b) => -(big_value(b@) as int),
    }
}

/// An integer in decimal, with a minus sign when negative.
pub open spec fn int_text(v: int) -> Seq<char> {
    if v < 0 { seq!['-'] + decimal((-v) as nat) } else { decimal(v as nat) }
}

/// The greatest common divisor.
pub open spec fn gcd(a: nat, b: nat) -> nat
    decreases b,
{
    if b == 0 { a } else { gcd(b, a % b) }
}

/// `base` to the power `exp`.
pub open spec fn power(base: nat, exp: nat) -> nat
    decreases exp,
{
    if exp == 0 { 1 } else { base * power(base, (exp - 1) as nat) }
}

/// How `num_rational` writes the fraction `m / d` (for `d > 0`): reduced to
/// lowest terms, as the numerator alone when the denominator is one, else
/// as `numerator/denominator`.
pub open spec fn ratio_text(m: int, d: nat) -> Seq<char> {
    let g = gcd(if m < 0 { (-m) as nat } else { m as nat }, d);
    let n = m / (g as int);
    let dd = d / g;
    if dd == 1 { int_text(n) } else { int_text(n) + seq!['/'] + decimal(dd) }
}

/// `num_rational::Ratio::from_integer(m) * Ratio::from_integer(pow(base, exponent))`
/// with its `Display`: the integer `m * base^exponent` in decimal.
#[verifier::external_body]
fn scaled_up_text(m: &Mantissa, base: u64, exponent: usize) -> (s: String)
    ensures
        s@ == ratio_text(mantissa_value(*m) * power(base as nat, exponent as nat), 1),
{
    let mantissa = match m {
        Mantissa::Plus(b) => num_bigint::BigInt::from_bytes_be(num_bigint::Sign::Plus, b),
        Mantissa::Minus(b) => num_bigint::BigInt::from_bytes_be(num_bigint::Sign::Minus, b),
    };
    let multiplier = num_rational::Ratio::from_integer(num_traits::pow::pow(num_bigint::BigInt::from(base), exponent));
    (num_rational::Ratio::from_integer(mantissa) * multiplier).to_string()
}

/// `num_rational::Ratio::from_integer(m) * Ratio::new(1, pow(base, exponent))`
/// with its `Display`: the fraction `m / base^exponent` in lowest terms.
#[verifier::external_body]
fn scaled_down_text(m: &Mantissa, base: u64, exponent: usize) -> (s: String)
    requires
        base > 0,
    ensures
        s@ == ratio_text(mantissa_value(*m), power(base as nat, exponent as nat)),
{
    let mantissa = match m {
        Mantissa::Plus(b) => num_bigint::BigInt::from_bytes_be(num_bigint::Sign::Plus, b),
        Mantissa::Minus(b) => num_bigint::BigInt::from_bytes_be(num_bigint::Sign::Minus, b),
    };
    let denominator = num_traits::pow::pow(num_bigint::BigInt::from(base), exponent);
    let multiplier = num_rational::Ratio::new(num_bigint::BigInt::from(1), denominator);
    (num_rational::Ratio::from_integer(mantissa) * multiplier).to_string()
}


// ---------------------------------------------------------------------------
// URLs, base64 text, UUIDs and base58, computed by `url`, `data_encoding`,
// `uuid` and `bs58`.

/// Whether `url` parses a text as a URL.
pub uninterp spec fn url_valid(text: Seq<char>) -> bool;

/// `url::Url::parse(text).is_ok()`.
#[verifier::external_body]
fn url_valid_of(text: &str) -> (b: bool)
    ensures
        b == url_valid(text@),
{
    url::Url::parse(text).is_ok()
}

/// What `data_encoding::BASE64URL_NOPAD.decode` gives for some input: the
/// bytes, or the error's message.
pub uninterp spec fn base64url_decoded(input: Seq<u8>) -> Result<Seq<u8>, Seq<char>>;

/// What `data_encoding::BASE64.decode` gives for some input: the bytes, or
/// the error's message.
pub uninterp spec fn base64_decoded(input: Seq<u8>) -> Result<Seq<u8>, Seq<char>>;

/// `data_encoding::BASE64URL_NOPAD.decode`, the error rendered by `Display`.
#[verifier::external_body]
pub(crate) fn base64url_decode(input: &[u8]) -> (r: Result<Vec<u8>, String>)
    ensures
        match r {
            Ok(v) => base64url_decoded(input@) == Ok::<Seq<u8>, Seq<char>>(v@),
            Err(e) => base64url_decoded(input@) == Err::<Seq<u8>, Seq<char>>(e@),
        },
{
    data_encoding::BASE64URL_NOPAD.decode(input).map_err(|err| err.to_string())
}

/// `data_encoding::BASE64.decode`, the error rendered by `Display`.
#[verifier::external_body]
pub(crate) fn base64_decode(input: &[u8]) -> (r: Result<Vec<u8>, String>)
    ensures
        match r {
            Ok(v) => base64_decoded(input@) == Ok::<Seq<u8>, Seq<char>>(v@),
            Err(e) => base64_decoded(input@) == Err::<Seq<u8>, Seq<char>>(e@),
        },
{
    data_encoding::BASE64.decode(input).map_err(|err| err.to_string())
}

/// `uuid::Uuid::from_slice(data).is_ok()`: the slice has sixteen bytes.
#[verifier::external_body]
fn uuid_fits(data: &[u8]) -> (b: bool)
    ensures
        b == (data@.len() == 16),
{
    uuid::Uuid::from_slice(data).is_ok()
}

/// Whether all of a sequence of bytes are `b`.
pub open spec fn all_bytes_are(s: Seq<u8>, b: u8) -> bool {
    forall|i: int| 0 <= i < s.len() ==> #[trigger] s[i] == b
}

/// The name (`Debug`) of the version `uuid` recognizes in sixteen bytes.
pub open spec fn uuid_version_name(b: Seq<u8>) -> Option<Seq<char>> {
    let v = b[6] >> 4u8;
    if v == 0 && all_bytes_are(b, 0) {
        Some("Nil"@)
    } else if v == 1 {
        Some("Mac"@)
    } else if v == 2 {
        Some("Dce"@)
    } else if v == 3 {
        Some("Md5"@)
    } else if v == 4 {
        Some("Random"@)
    } else if v == 5 {
        Some("Sha1"@)
    } else if v == 6 {
        Some("SortMac"@)
    } else if v == 7 {
        Some("SortRand"@)
    } else if v == 8 {
        Some("Custom"@)
    } else if v == 15 && all_bytes_are(b, 0xff) {
        Some("Max"@)
    } else {
        None
    }
}

/// `uuid::Uuid::get_version` of sixteen bytes, rendered by `Debug`.
#[verifier::external_body]
fn uuid_version(data: &[u8]) -> (r: Option<String>)
    requires
        data@.len() == 16,
    ensures
        match r {
            Some(s) => uuid_version_name(data@) == Some(s@),
            None => uuid_version_name(data@) == None::<Seq<char>>,
        },
{
    uuid::Uuid::from_slice(data).ok().and_then(|u| u.get_version()).map(|v| format!("{v:?}"))
}

/// The name (`Debug`) of the variant `uuid` reads from the ninth byte.
pub open spec fn uuid_variant_name(b: u8) -> Seq<char> {
    if b & 0x80u8 == 0 {
        "NCS"@
    } else if b & 0xc0u8 == 0x80 {
        "RFC4122"@
    } else if b & 0xe0u8 == 0xc0 {
        "Microsoft"@
    } else {
        "Future"@
    }
}

/// `uuid::Uuid::get_variant` of sixteen bytes, rendered by `Debug`.
#[verifier::external_body]
fn uuid_variant(data: &[u8]) -> (s: String)
    requires
        data@.len() == 16,
    ensures
        s@ == uuid_variant_name(data@[8]),
{
    format!("{:?}", uuid::Uuid::from_slice(data).unwrap().get_variant())
}

/// `uuid::Uuid::get_version_num` of sixteen bytes: the high nibble of the
/// seventh byte.
#[verifier::external_body]
fn uuid_version_num(data: &[u8]) -> (n: usize)
    requires
        data@.len() == 16,
    ensures
        n == data@[6] >> 4u8,
{
    uuid::Uuid::from_slice(data).unwrap().get_version_num()
}

/// The hyphenated form of sixteen bytes: lowercase hex in groups of four,
/// two, two, two and six bytes.
pub open spec fn uuid_hyphenated(b: Seq<u8>) -> Seq<char> {
    hex_lower(b.subrange(0, 4)) + seq!['-'] + hex_lower(b.subrange(4, 6)) + seq!['-'] + hex_lower(b.subrange(6, 8))
        + seq!['-'] + hex_lower(b.subrange(8, 10)) + seq!['-'] + hex_lower(b.subrange(10, 16))
}

/// The `Display` of a `uuid::Uuid` made of sixteen bytes: its hyphenated form.
#[verifier::external_body]
fn uuid_display(data: &[u8]) -> (s: String)
    requires
        data@.len() == 16,
    ensures
        s@ == uuid_hyphenated(data@),
{
    uuid::Uuid::from_slice(data).unwrap().to_string()
}

/// The digit `d` (below 58) of the Bitcoin base58 alphabet
/// `123456789ABCDEFGHJKLMNPQRSTUVWXYZabcdefghijkmnopqrstuvwxyz`.
pub open spec fn base58_char(d: nat) -> char {
    if d < 9 {
        (('1' as u8) + d) as char
    } else if d < 17 {
        (('A' as u8) + d - 9) as char
    } else if d < 22 {
        (('J' as u8) + d - 17) as char
    } else if d < 33 {
        (('P' as u8) + d - 22) as char
    } else if d < 44 {
        (('a' as u8) + d - 33) as char
    } else {
        (('m' as u8) + d - 44) as char
    }
}

/// The base58 digits of a number, without leading zeros (none for zero).
pub open spec fn base58_digits(n: nat) -> Seq<char>
    decreases n,
{
    if n == 0 { Seq::empty() } else { base58_digits(n / 58) + seq![base58_char(n % 58)] }
}

/// The number of zero bytes that some bytes start with.
pub open spec fn leading_zeros(data: Seq<u8>) -> nat
    decreases data.len(),
{
    if data.len() > 0 && data[0] == 0 { 1 + leading_zeros(data.skip(1)) } else { 0 }
}

/// The base58 text (Bitcoin alphabet) that `bs58` makes of some bytes: a
/// `1` for each leading zero byte, then the base58 digits of their
/// big-endian value.
pub open spec fn base58_text(data: Seq<u8>) -> Seq<char> {
    Seq::new(leading_zeros(data), |i: int| '1') + base58_digits(big_value(data))
}

/// `bs58::encode(data).into_string()`.
#[verifier::external_body]
fn base58_encode(data: &[u8]) -> (s: String)
    ensures
        s@ == base58_text(data@),
{
    bs58::encode(data).into_string()
}


// ---------------------------------------------------------------------------
// The annotation lines of tagged items.

/// The annotation of a standard datetime string (tag 0).
pub open spec fn datetime_epoch_line(x: SpecItem) -> SpecLine {
    match x {
        SpecItem::TextString(t) => match rfc3339_epoch(t.data) {
            Ok(e) => note("epoch("@ + e + seq![')']),
            Err(e) => note("error parsing datetime: "@ + e),
        },
        _ => note("invalid type for datetime"@),
    }
}

/// The annotation of a datetime found from a count of seconds.
pub open spec fn datetime_note(d: Option<Seq<char>>) -> SpecLine {
    match d {
        Some(d) => note("datetime("@ + d + seq![')']),
        None => note("offset is too large"@),
    }
}

/// The annotation of an epoch-based datetime (tag 1).
pub open spec fn epoch_datetime_line(x: SpecItem, ft: spec_fn(u64, FloatWidth, FloatText) -> Seq<char>) -> SpecLine {
    match x {
        SpecItem::Integer { value, .. } => if value >= i64::MAX {
            note("offset is too large"@)
        } else {
            datetime_note(timestamp_datetime(value as i64))
        },
        SpecItem::Negative { value, .. } => if value >= i64::MAX {
            note("offset is too large"@)
        } else {
            datetime_note(timestamp_datetime((-1 - value) as i64))
        },
        SpecItem::Float { value, bitwidth } => note(ft(value, bitwidth, FloatText::EpochDatetime)),
        _ => note("invalid type for epoch datetime"@),
    }
}

/// The annotation of a standard date string (tag 1004).
pub open spec fn date_epoch_line(x: SpecItem) -> SpecLine {
    match x {
        SpecItem::TextString(t) => match iso_date_days(t.data) {
            Ok(d) => note("epoch("@ + separated(d as int) + seq![')']),
            Err(e) => note("error parsing date: "@ + e),
        },
        _ => note("invalid type for date"@),
    }
}

/// The days an epoch-based date stands for, if they fit in an `i64`.
pub open spec fn epoch_days(x: SpecItem) -> Option<int> {
    match x {
        SpecItem::Integer { value, .. } => if value <= i64::MAX { Some(value as int) } else { None },
        SpecItem::Negative { value, .. } => if value <= i64::MAX { Some(-1 - value) } else { None },
        _ => None,
    }
}

/// The annotation of an epoch-based date (tag 100).
pub open spec fn epoch_date_line(x: SpecItem) -> SpecLine {
    if !(x is Integer || x is Negative) {
        note("invalid type for epoch date"@)
    } else {
        match epoch_days(x) {
            Some(d) => {
                let ms = d * 86_400_000;
                if i64::MIN <= ms <= i64::MAX {
                    match epoch_millis_date(ms as i64) {
                        Some(t) => note("date("@ + t + seq![')']),
                        None => note("date offset is too large for this tool"@),
                    }
                } else {
                    note("date offset is too large for this tool"@)
                }
            },
            None => note("date offset is too large for this tool"@),
        }
    }
}

/// The annotation of a shareable item (tag 28), numbered by how many came before.
pub open spec fn shareable_line(refs: u64) -> SpecLine {
    note("reference("@ + separated(refs as int) + seq![')'])
}

/// The annotation of a reference to a shared item (tag 29).
pub open spec fn shared_ref_line(x: SpecItem, refs: u64) -> SpecLine {
    match x {
        SpecItem::Integer { value, .. } => if value < refs {
            note("reference-to("@ + separated(value as int) + seq![')'])
        } else {
            note("reference-to("@ + separated(value as int) + "), not previously shared"@)
        },
        _ => note("invalid type for shared ref"@),
    }
}

/// The annotation of a positive bignum (tag 2).
pub open spec fn positive_bignum_line(x: SpecItem) -> SpecLine {
    match x {
        SpecItem::ByteString(b) => note("bignum("@ + decimal(big_value(b.data)) + seq![')']),
        _ => note("invalid type for bignum"@),
    }
}

/// The annotation of a negative bignum (tag 3).
pub open spec fn negative_bignum_line(x: SpecItem) -> SpecLine {
    match x {
        SpecItem::ByteString(b) => note("bignum(-"@ + decimal(big_value(b.data) + 1) + seq![')']),
        _ => note("invalid type for bignum"@),
    }
}

/// The exponent of a decimal fraction or bigfloat, and whether it is
/// positive, or what is wrong with it.
pub open spec fn fraction_exponent(x: SpecItem) -> Result<(nat, bool), Seq<char>> {
    match x {
        SpecItem::Integer { value, .. } => if value <= usize::MAX {
            Ok((value as nat, true))
        } else {
            Err("exponent is too large"@)
        },
        SpecItem::Negative { value, .. } => if value < usize::MAX {
            Ok((value as nat + 1, false))
        } else {
            Err("exponent is too large"@)
        },
        _ => Err("invalid type"@),
    }
}

/// The mantissa of a decimal fraction or bigfloat, or what is wrong with it.
pub open spec fn fraction_mantissa(x: SpecItem) -> Result<int, Seq<char>> {
    match x {
        SpecItem::Integer { value, .. } => Ok(value as int),
        SpecItem::Negative { value, .. } => Ok(-1 - value),
        SpecItem::Tag { tag, value, .. } => if tag == 2 {
            match *value {
                SpecItem::ByteString(b) => Ok(big_value(b.data) as int),
                _ => Err("invalid type"@),
            }
        } else if tag == 3 {
            match *value {
                SpecItem::ByteString(b) => Ok(-1 - big_value(b.data)),
                _ => Err("invalid type"@),
            }
        } else {
            Err("invalid type"@)
        },
        _ => Err("invalid type"@),
    }
}

/// The value of a decimal fraction (`base` 10) or bigfloat (`base` 2) as
/// text, or what is wrong with it.
pub open spec fn fraction_text(x: SpecItem, base: nat) -> Result<Seq<char>, Seq<char>> {
    match x {
        SpecItem::Array { data, .. } => if data.len() != 2 {
            Err("invalid type"@)
        } else {
            match fraction_exponent(data[0]) {
                Err(e) => Err(e),
                Ok((exp, positive)) => match fraction_mantissa(data[1]) {
                    Err(e) => Err(e),
                    Ok(m) => Ok(if positive {
                        ratio_text(m * power(base, exp), 1)
                    } else {
                        ratio_text(m, power(base, exp))
                    }),
                },
            }
        },
        _ => Err("invalid type"@),
    }
}

/// The annotation of a decimal fraction (tag 4) or bigfloat (tag 5).
pub open spec fn fraction_line(x: SpecItem, base: nat, name: Seq<char>) -> SpecLine {
    match fraction_text(x, base) {
        Ok(t) => note(name + seq!['('] + t + seq![')']),
        Err(e) => note(e + " for "@ + name),
    }
}

/// The annotation of a URI (tag 32).
pub open spec fn uri_line(x: SpecItem) -> SpecLine {
    match x {
        SpecItem::TextString(t) => if url_valid(t.data) {
            note("valid URL (checked against URL Standard, not RFC 3986)"@)
        } else {
            note("invalid URL (checked against URL Standard, not RFC 3986)"@)
        },
        _ => note("invalid type for uri"@),
    }
}

/// Text with each `#` followed by two spaces shortened to the `#`.
pub open spec fn collapse_hash(s: Seq<char>) -> Seq<char>
    decreases s.len(),
{
    if s.len() == 0 {
        Seq::empty()
    } else if s.len() >= 3 && s[0] == '#' && s[1] == ' ' && s[2] == ' ' {
        seq!['#'] + collapse_hash(s.skip(3))
    } else {
        seq![s[0]] + collapse_hash(s.skip(1))
    }
}

/// The lines of decoded base64 data: the data shown as byte string lines
/// nested one level, without their first three columns.
pub open spec fn decoded_lines(d: Seq<u8>) -> Seq<SpecLine> {
    let sub = bytes_lines(None, d);
    let w = sublines_width(sub);
    Seq::new(sub.len(), |i: int| note(collapse_hash(own_line(sub[i].hex, sub[i].comment, w, 1).drop_last().skip(3))))
}

/// The annotation of base64url (`url`) or base64 encoded text (tags 33 and 34).
pub open spec fn base64_line(x: SpecItem, url: bool) -> SpecLine {
    let name = if url { "base64url"@ } else { "base64"@ };
    match x {
        SpecItem::TextString(t) => match (if url { base64url_decoded(encode_utf8(t.data)) } else { base64_decoded(encode_utf8(t.data)) }) {
            Ok(d) => with_sublines(note(name + " decoded"@), decoded_lines(d)),
            Err(e) => note(e + " for "@ + name),
        },
        _ => note("invalid type for "@ + name),
    }
}

/// The annotation of a UUID (tag 37).
pub open spec fn uuid_line(x: SpecItem) -> SpecLine {
    match x {
        SpecItem::ByteString(b) => if b.data.len() == 16 {
            with_sublines(
                note("uuid(variant("@ + uuid_variant_name(b.data[8]) + "), version("@ + decimal((b.data[6] >> 4u8) as nat)
                    + ", "@ + (match uuid_version_name(b.data) { Some(v) => v, None => "Unknown"@ }) + "))"@),
                seq![
                    note("base16("@ + uuid_hyphenated(b.data) + seq![')']),
                    note("base58("@ + base58_text(b.data) + seq![')']),
                    note("base64("@ + base64_text(b.data, false, false) + seq![')']),
                ],
            )
        } else {
            note("invalid data length for uuid"@)
        },
        _ => note("invalid type for uuid"@),
    }
}


// ---------------------------------------------------------------------------
// Network addresses, written as `std::net` writes them.

/// An IPv4 address in dotted decimal.
pub open spec fn ipv4_text(b: Seq<u8>) -> Seq<char> {
    decimal(b[0] as nat) + seq!['.'] + decimal(b[1] as nat) + seq!['.'] + decimal(b[2] as nat) + seq!['.'] + decimal(b[3] as nat)
}

/// A MAC address: six bytes in two lowercase hex digits each, separated by colons.
pub open spec fn mac_text(b: Seq<u8>) -> Seq<char> {
    hex_number(b[0] as nat, 2) + seq![':'] + hex_number(b[1] as nat, 2) + seq![':'] + hex_number(b[2] as nat, 2)
        + seq![':'] + hex_number(b[3] as nat, 2) + seq![':'] + hex_number(b[4] as nat, 2) + seq![':'] + hex_number(b[5] as nat, 2)
}

/// The first `k` bytes of a MAC address, separated by colons.
pub open spec fn mac_prefix(b: Seq<u8>, k: nat) -> Seq<char>
    decreases k,
{
    if k <= 1 {
        hex_number(b[0] as nat, 2)
    } else {
        mac_prefix(b, (k - 1) as nat) + seq![':'] + hex_number(b[k - 1] as nat, 2)
    }
}

/// Segment `i` of an IPv6 address: two bytes, big-endian.
pub open spec fn segment(b: Seq<u8>, i: int) -> nat {
    b[2 * i] as nat * 256 + b[2 * i + 1] as nat
}

/// The longest run of zero segments from segment `i` on (the first of the
/// longest), given the run in progress and the longest so far, as its start
/// and length.
pub open spec fn zero_run(b: Seq<u8>, i: nat, cur: (nat, nat), best: (nat, nat)) -> (nat, nat)
    decreases 8 - i,
{
    if i >= 8 {
        best
    } else if segment(b, i as int) == 0 {
        let cur = if cur.1 == 0 { (i, 1nat) } else { (cur.0, cur.1 + 1) };
        zero_run(b, i + 1, cur, if cur.1 > best.1 { cur } else { best })
    } else {
        zero_run(b, i + 1, (0, 0), best)
    }
}

/// Segments `from` up to (not including) `to` in lowercase hex without
/// leading zeros, separated by colons.
pub open spec fn segments_text(b: Seq<u8>, from: nat, to: nat) -> Seq<char>
    decreases to - from,
{
    if from >= to {
        Seq::empty()
    } else if from + 1 == to {
        hex_digits(segment(b, from as int))
    } else {
        hex_digits(segment(b, from as int)) + seq![':'] + segments_text(b, from + 1, to)
    }
}

/// An IPv6 address: an IPv4-mapped address as `::ffff:` and the IPv4
/// address, else the segments with the first longest run of two or more zero
/// segments written as `::`.
pub open spec fn ipv6_text(b: Seq<u8>) -> Seq<char> {
    if segment(b, 0) == 0 && segment(b, 1) == 0 && segment(b, 2) == 0 && segment(b, 3) == 0 && segment(b, 4) == 0
        && segment(b, 5) == 0xffff {
        "::ffff:"@ + ipv4_text(b.subrange(12, 16))
    } else {
        let run = zero_run(b, 0, (0, 0), (0, 0));
        if run.1 > 1 {
            segments_text(b, 0, run.0) + seq![':', ':'] + segments_text(b, run.0 + run.1, 8)
        } else {
            segments_text(b, 0, 8)
        }
    }
}

/// The annotation of a network address (tag 260).
pub open spec fn network_address_line(x: SpecItem) -> SpecLine {
    match x {
        SpecItem::ByteString(b) => if b.data.len() == 4 {
            note("IPv4 address("@ + ipv4_text(b.data) + seq![')'])
        } else if b.data.len() == 6 {
            note("MAC address("@ + mac_text(b.data) + seq![')'])
        } else if b.data.len() == 16 {
            note("IPv6 address("@ + ipv6_text(b.data) + seq![')'])
        } else {
            note("invalid data length for network address"@)
        },
        _ => note("invalid type for network address"@),
    }
}

/// An address of `n` bytes (four or sixteen) as text.
pub open spec fn address_text(b: Seq<u8>, n: nat) -> Seq<char> {
    if n == 4 { ipv4_text(b) } else { ipv6_text(b) }
}

/// A prefix padded with zero bytes to `n` bytes.
pub open spec fn padded(p: Seq<u8>, n: nat) -> Seq<u8> {
    p + Seq::new((n - p.len()) as nat, |i: int| 0u8)
}

/// The name of the address family of `n`-byte addresses.
pub open spec fn family(n: nat) -> Seq<char> {
    if n == 4 { "IPv4"@ } else { "IPv6"@ }
}

/// The annotation of an IPv4 (`n` = 4) or IPv6 (`n` = 16) prefix of
/// `length` bits.
pub open spec fn prefix_line(p: Seq<u8>, length: u64, n: nat) -> SpecLine {
    if p.len() > 0 && p.last() == 0 {
        note("invalid prefix, ends with zero byte"@)
    } else if p.len() > n {
        note("invalid data length for "@ + family(n) + " prefix"@)
    } else {
        note(family(n) + " prefix("@ + address_text(padded(p, n), n) + seq!['/'] + decimal(length as nat) + seq![')'])
    }
}

/// The annotation of an address `a` followed in `data` by a prefix length
/// or null, and maybe a zone.
pub open spec fn zoned_line(data: Seq<SpecItem>, a: Seq<u8>, n: nat) -> SpecLine {
    let invalid = note("invalid type for network address"@);
    let addr = address_text(a, n);
    let length: Option<Option<u64>> = if data.len() < 2 {
        None
    } else {
        match data[1] {
            SpecItem::Integer { value, .. } => Some(Some(value)),
            SpecItem::Simple(v) => if v == 22 { Some(None) } else { None },
            _ => None,
        }
    };
    let zone: Option<Option<Seq<char>>> = if data.len() < 3 {
        Some(None)
    } else {
        match data[2] {
            SpecItem::Integer { value, .. } => Some(Some(decimal(value as nat))),
            SpecItem::TextString(t) => Some(Some(t.data)),
            _ => None,
        }
    };
    match (length, zone) {
        (Some(Some(l)), Some(Some(z))) => note(family(n) + " address-and-zone-and-prefix("@ + addr + seq!['%'] + z
            + seq!['/'] + decimal(l as nat) + seq![')']),
        (Some(Some(l)), Some(None)) => note(family(n) + " address-and-prefix("@ + addr + seq!['/'] + decimal(l as nat) + seq![')']),
        (Some(None), Some(Some(z))) => note(family(n) + " address-and-zone("@ + addr + seq!['%'] + z + seq![')']),
        _ => invalid,
    }
}

/// The annotation of an IPv4 (`n` = 4, tag 52) or IPv6 (`n` = 16, tag 54)
/// address, prefix, or address with prefix or zone.
pub open spec fn address_line(x: SpecItem, n: nat) -> SpecLine {
    let invalid = note("invalid type for network address"@);
    match x {
        SpecItem::ByteString(b) => if b.data.len() == n {
            note(family(n) + " address("@ + address_text(b.data, n) + seq![')'])
        } else {
            note("invalid data length for "@ + family(n) + " address"@)
        },
        SpecItem::Array { data, .. } => if data.len() == 0 {
            invalid
        } else {
            match data[0] {
                SpecItem::Integer { value: length, .. } => if data.len() >= 2 && data[1] is ByteString {
                    prefix_line(data[1]->ByteString_0.data, length, n)
                } else {
                    invalid
                },
                SpecItem::ByteString(a) => if a.data.len() != n {
                    note("invalid data length for "@ + family(n) + " address"@)
                } else {
                    zoned_line(data, a.data, n)
                },
                _ => invalid,
            }
        },
        _ => invalid,
    }
}


// ---------------------------------------------------------------------------
// Building the annotation lines.

/// An annotation line holding a string.
pub fn note_string(comment: String) -> (l: Line)
    ensures
        l@ == note(comment@),
{
    proof { reveal_strlit(""); }
    Line::new(owned(""), comment)
}

/// The annotation of a standard datetime string (tag 0).
pub fn datetime_epoch(value: &DataItem) -> (l: Line)
    ensures
        l@ == datetime_epoch_line(value@),
{
    match value {
        DataItem::TextString(t) => {
            let mut c: Vec<char> = Vec::new();
            match rfc3339_epoch_of(t.data.as_str()) {
                Ok(e) => {
                    push_str(&mut c, "epoch(");
                    push_str(&mut c, e.as_str());
                    c.push(')');
                    assert(c@ =~= "epoch("@ + e@ + seq![')']);
                },
                Err(e) => {
                    push_str(&mut c, "error parsing datetime: ");
                    push_str(&mut c, e.as_str());
                },
            }
            note_line(c)
        },
        _ => note_str("invalid type for datetime"),
    }
}

/// The annotation of a datetime found from a count of seconds.
fn datetime_note_of(secs: i64) -> (l: Line)
    ensures
        l@ == datetime_note(timestamp_datetime(secs)),
{
    match timestamp_datetime_of(secs) {
        Some(d) => {
            let mut c: Vec<char> = Vec::new();
            push_str(&mut c, "datetime(");
            push_str(&mut c, d.as_str());
            c.push(')');
            assert(c@ =~= "datetime("@ + d@ + seq![')']);
            note_line(c)
        },
        None => note_str("offset is too large"),
    }
}

/// The annotation of an epoch-based datetime (tag 1); `f` gives that of a
/// floating point count of seconds.
pub fn epoch_datetime<F: Fn(u64, FloatWidth, FloatText) -> String>(value: &DataItem, f: &F) -> (l: Line)
    requires
        callable(f),
    ensures
        forall|ft: spec_fn(u64, FloatWidth, FloatText) -> Seq<char>| #[trigger] renders(f, ft)
            ==> l@ == epoch_datetime_line(value@, ft),
{
    match value {
        DataItem::Integer { value: v, .. } => {
            if *v >= i64::MAX as u64 {
                note_str("offset is too large")
            } else {
                datetime_note_of(*v as i64)
            }
        },
        DataItem::Negative { value: v, .. } => {
            if *v >= i64::MAX as u64 {
                note_str("offset is too large")
            } else {
                datetime_note_of(-1 - *v as i64)
            }
        },
        DataItem::Float { value: v, bitwidth } => note_string(f(*v, *bitwidth, FloatText::EpochDatetime)),
        _ => note_str("invalid type for epoch datetime"),
    }
}

/// The annotation of a standard date string (tag 1004).
pub fn date_epoch(value: &DataItem) -> (l: Line)
    ensures
        l@ == date_epoch_line(value@),
{
    match value {
        DataItem::TextString(t) => {
            let mut c: Vec<char> = Vec::new();
            match iso_date_days_of(t.data.as_str()) {
                Ok(d) => {
                    push_str(&mut c, "epoch(");
                    push_str(&mut c, separated_i64(d).as_str());
                    c.push(')');
                    assert(c@ =~= "epoch("@ + separated(d as int) + seq![')']);
                },
                Err(e) => {
                    push_str(&mut c, "error parsing date: ");
                    push_str(&mut c, e.as_str());
                },
            }
            note_line(c)
        },
        _ => note_str("invalid type for date"),
    }
}

/// The annotation of an epoch-based date (tag 100).
pub fn epoch_date(value: &DataItem) -> (l: Line)
    ensures
        l@ == epoch_date_line(value@),
{
    let days: Option<i64> = match value {
        DataItem::Integer { value: v, .. } => if *v <= i64::MAX as u64 { Some(*v as i64) } else { None },
        DataItem::Negative { value: v, .. } => if *v <= i64::MAX as u64 { Some(-1 - *v as i64) } else { None },
        _ => {
            return note_str("invalid type for epoch date");
        },
    };
    match days {
        Some(d) => match d.checked_mul(86_400_000) {
            Some(ms) => {
                assert(ms != i64::MIN);
                match epoch_millis_date_of(ms) {
                    Some(t) => {
                        let mut c: Vec<char> = Vec::new();
                        push_str(&mut c, "date(");
                        push_str(&mut c, t.as_str());
                        c.push(')');
                        assert(c@ =~= "date("@ + t@ + seq![')']);
                        note_line(c)
                    },
                    None => note_str("date offset is too large for this tool"),
                }
            },
            None => note_str("date offset is too large for this tool"),
        },
        None => note_str("date offset is too large for this tool"),
    }
}

/// The annotation of a shareable item (tag 28).
pub fn shareable(refs: u64) -> (l: Line)
    ensures
        l@ == shareable_line(refs),
{
    let mut c: Vec<char> = Vec::new();
    push_str(&mut c, "reference(");
    push_str(&mut c, separated_u64(refs).as_str());
    c.push(')');
    assert(c@ =~= "reference("@ + separated(refs as int) + seq![')']);
    note_line(c)
}

/// The annotation of a reference to a shared item (tag 29).
pub fn shared_ref(value: &DataItem, known_references: u64) -> (l: Line)
    ensures
        l@ == shared_ref_line(value@, known_references),
{
    match value {
        DataItem::Integer { value: v, .. } => {
            let mut c: Vec<char> = Vec::new();
            push_str(&mut c, "reference-to(");
            push_str(&mut c, separated_u64(*v).as_str());
            if *v < known_references {
                c.push(')');
                assert(c@ =~= "reference-to("@ + separated(*v as int) + seq![')']);
            } else {
                push_str(&mut c, "), not previously shared");
                assert(c@ =~= "reference-to("@ + separated(*v as int) + "), not previously shared"@);
            }
            note_line(c)
        },
        _ => note_str("invalid type for shared ref"),
    }
}

/// The annotation of a positive bignum (tag 2).
pub fn positive_bignum(value: &DataItem) -> (l: Line)
    ensures
        l@ == positive_bignum_line(value@),
{
    match value {
        DataItem::ByteString(b) => {
            let mut c: Vec<char> = Vec::new();
            push_str(&mut c, "bignum(");
            push_str(&mut c, biguint_decimal(b.data.as_slice()).as_str());
            c.push(')');
            assert(c@ =~= "bignum("@ + decimal(big_value(b.data@)) + seq![')']);
            note_line(c)
        },
        _ => note_str("invalid type for bignum"),
    }
}

/// The annotation of a negative bignum (tag 3).
pub fn negative_bignum(value: &DataItem) -> (l: Line)
    ensures
        l@ == negative_bignum_line(value@),
{
    match value {
        DataItem::ByteString(b) => {
            let magnitude = increment(b.data.as_slice());
            let mut c: Vec<char> = Vec::new();
            push_str(&mut c, "bignum(-");
            push_str(&mut c, biguint_decimal(magnitude.as_slice()).as_str());
            c.push(')');
            assert(c@ =~= "bignum(-"@ + decimal(big_value(b.data@) + 1) + seq![')']);
            note_line(c)
        },
        _ => note_str("invalid type for bignum"),
    }
}

/// Big-endian bytes of a number.
fn be_bytes(v: u128) -> (r: Vec<u8>)
    ensures
        big_value(r@) == v,
    decreases v,
{
    if v < 256 {
        let mut r: Vec<u8> = Vec::new();
        r.push(v as u8);
        assert(r@.drop_last() =~= Seq::<u8>::empty());
        assert(big_value(r@.drop_last()) == 0);
        r
    } else {
        let mut r = be_bytes(v / 256);
        let ghost front = r@;
        r.push((v % 256) as u8);
        assert(r@.drop_last() =~= front);
        r
    }
}

/// The mantissa of a decimal fraction or bigfloat.
fn fraction_mantissa_of(value: &DataItem) -> (r: Result<Mantissa, String>)
    ensures
        r matches Ok(m) ==> fraction_mantissa(value@) == Ok::<int, Seq<char>>(mantissa_value(m)),
        r matches Err(e) ==> fraction_mantissa(value@) == Err::<int, Seq<char>>(e@),
{
    match value {
        DataItem::Integer { value: v, .. } => {
            let b = be_bytes(*v as u128);
            assert(mantissa_value(Mantissa::Plus(b)) == *v as int);
            assert(fraction_mantissa(value@) == Ok::<int, Seq<char>>(*v as int));
            Ok(Mantissa::Plus(b))
        },
        DataItem::Negative { value: v, .. } => {
            let b = be_bytes(*v as u128 + 1);
            assert(mantissa_value(Mantissa::Minus(b)) == -1 - *v as int);
            Ok(Mantissa::Minus(b))
        },
        DataItem::Tag { tag, value: inner, .. } => {
            if tag.0 == Tag::POSITIVE_BIGNUM || tag.0 == Tag::NEGATIVE_BIGNUM {
                match &**inner {
                    DataItem::ByteString(b) => {
                        assert((**inner)@ == SpecItem::ByteString(b@));
                        if tag.0 == Tag::POSITIVE_BIGNUM {
                            let copy = slice_range(b.data.as_slice(), 0, b.data.len());
                            assert(copy@ =~= b.data@);
                            Ok(Mantissa::Plus(copy))
                        } else {
                            Ok(Mantissa::Minus(increment(b.data.as_slice())))
                        }
                    },
                    _ => Err(owned("invalid type")),
                }
            } else {
                Err(owned("invalid type"))
            }
        },
        _ => Err(owned("invalid type")),
    }
}

/// The value of a decimal fraction (`base` 10) or bigfloat (`base` 2) as text.
fn fraction_text_of(value: &DataItem, base: u64) -> (r: Result<String, String>)
    requires
        base > 0,
    ensures
        match r {
            Ok(t) => fraction_text(value@, base as nat) == Ok::<Seq<char>, Seq<char>>(t@),
            Err(e) => fraction_text(value@, base as nat) == Err::<Seq<char>, Seq<char>>(e@),
        },
{
    match value {
        DataItem::Array { data, .. } => {
            proof { lemma_items_view(data@); }
            if data.len() != 2 {
                return Err(owned("invalid type"));
            }
            let (exponent, positive) = match &data[0] {
                DataItem::Integer { value: v, .. } => {
                    if *v <= usize::MAX as u64 {
                        (*v as usize, true)
                    } else {
                        return Err(owned("exponent is too large"));
                    }
                },
                DataItem::Negative { value: v, .. } => {
                    if *v < usize::MAX as u64 {
                        (*v as usize + 1, false)
                    } else {
                        return Err(owned("exponent is too large"));
                    }
                },
                _ => {
                    return Err(owned("invalid type"));
                },
            };
            let mantissa = match fraction_mantissa_of(&data[1]) {
                Ok(m) => m,
                Err(e) => {
                    return Err(e);
                },
            };
            if positive {
                Ok(scaled_up_text(&mantissa, base, exponent))
            } else {
                Ok(scaled_down_text(&mantissa, base, exponent))
            }
        },
        _ => Err(owned("invalid type")),
    }
}

/// The annotation of a decimal fraction (`base` 10, tag 4) or bigfloat
/// (`base` 2, tag 5), named `name`.
fn fraction(value: &DataItem, base: u64, name: &str) -> (l: Line)
    requires
        base > 0,
    ensures
        l@ == fraction_line(value@, base as nat, name@),
{
    let mut c: Vec<char> = Vec::new();
    match fraction_text_of(value, base) {
        Ok(t) => {
            push_str(&mut c, name);
            c.push('(');
            push_str(&mut c, t.as_str());
            c.push(')');
            assert(c@ =~= name@ + seq!['('] + t@ + seq![')']);
        },
        Err(e) => {
            push_str(&mut c, e.as_str());
            push_str(&mut c, " for ");
            push_str(&mut c, name);
        },
    }
    note_line(c)
}

/// The annotation of a decimal fraction (tag 4).
pub fn decimal_fraction(value: &DataItem) -> (l: Line)
    ensures
        l@ == fraction_line(value@, 10, "decimal fraction"@),
{
    fraction(value, 10, "decimal fraction")
}

/// The annotation of a bigfloat (tag 5).
pub fn bigfloat(value: &DataItem) -> (l: Line)
    ensures
        l@ == fraction_line(value@, 2, "bigfloat"@),
{
    fraction(value, 2, "bigfloat")
}

/// The annotation of a URI (tag 32).
pub fn uri(value: &DataItem) -> (l: Line)
    ensures
        l@ == uri_line(value@),
{
    match value {
        DataItem::TextString(t) => {
            if url_valid_of(t.data.as_str()) {
                note_str("valid URL (checked against URL Standard, not RFC 3986)")
            } else {
                note_str("invalid URL (checked against URL Standard, not RFC 3986)")
            }
        },
        _ => note_str("invalid type for uri"),
    }
}


/// The text with each `#` followed by two spaces shortened to the `#`.
fn collapse_hash_of(s: &[char]) -> (r: Vec<char>)
    ensures
        r@ == collapse_hash(s@),
{
    let mut r: Vec<char> = Vec::new();
    let mut i: usize = 0;
    assert(s@.skip(0) =~= s@);
    while i < s.len()
        invariant
            i <= s@.len(),
            r@ + collapse_hash(s@.skip(i as int)) == collapse_hash(s@),
        decreases s@.len() - i,
    {
        let ghost rest = s@.skip(i as int);
        if s.len() - i >= 3 && s[i] == '#' && s[i + 1] == ' ' && s[i + 2] == ' ' {
            assert(rest[0] == '#' && rest[1] == ' ' && rest[2] == ' ');
            assert(rest.skip(3) =~= s@.skip(i + 3));
            r.push('#');
            i = i + 3;
        } else {
            assert(rest[0] == s@[i as int]);
            assert(rest.skip(1) =~= s@.skip(i + 1));
            r.push(s[i]);
            i = i + 1;
        }
        assert(r@ + collapse_hash(s@.skip(i as int)) =~= collapse_hash(s@));
    }
    assert(s@.skip(i as int) =~= Seq::<char>::empty());
    assert(r@ + collapse_hash(s@.skip(i as int)) =~= r@);
    r
}

/// The lines of decoded base64 data (see `decoded_lines`).
fn decoded_lines_of(d: &[u8]) -> (lines: Vec<Line>)
    ensures
        lines_view(lines@) == decoded_lines(d@),
{
    let sub = bytes_to_hex(None, d);
    let w = sublines_hex_width(sub.as_slice());
    proof { lemma_lines_view(sub@); }
    let mut lines: Vec<Line> = Vec::new();
    let mut i: usize = 0;
    while i < sub.len()
        invariant
            i <= sub@.len(),
            lines_view(sub@).len() == sub@.len(),
            forall|j: int| 0 <= j < sub@.len() ==> #[trigger] lines_view(sub@)[j] == sub@[j]@,
            lines_view(sub@) == bytes_lines(None, d@),
            w == sublines_width(lines_view(sub@)),
            lines_view(lines@) == decoded_lines(d@).take(i as int),
        decreases sub@.len() - i,
    {
        let mut text: Vec<char> = Vec::new();
        push_own_line(&sub[i].hex, &sub[i].comment, w, 1, &mut text);
        let ghost whole = text@;
        assert(whole.len() >= 4);
        let trimmed = crate::encode::hex::char_range(text.as_slice(), 3, text.len() - 1);
        assert(trimmed@ =~= whole.drop_last().skip(3));
        let collapsed = collapse_hash_of(trimmed.as_slice());
        let line = note_line(collapsed);
        proof { lemma_lines_view_push(lines@, line); }
        lines.push(line);
        i = i + 1;
        assert(lines_view(lines@) =~= decoded_lines(d@).take(i as int));
    }
    assert(decoded_lines(d@).take(i as int) =~= decoded_lines(d@));
    lines
}

/// The annotation of base64url (`url`) or base64 encoded text (tags 33 and 34).
fn base64_base(value: &DataItem, url: bool) -> (l: Line)
    ensures
        l@ == base64_line(value@, url),
{
    let name = if url { "base64url" } else { "base64" };
    match value {
        DataItem::TextString(t) => {
            let bytes = t.data.as_str().as_bytes();
            let decoded = if url { base64url_decode(bytes) } else { base64_decode(bytes) };
            let mut c: Vec<char> = Vec::new();
            match decoded {
                Ok(d) => {
                    push_str(&mut c, name);
                    push_str(&mut c, " decoded");
                    let mut line = note_line(c);
                    line.sublines = decoded_lines_of(d.as_slice());
                    assert(line@ =~= base64_line(value@, url));
                    line
                },
                Err(e) => {
                    push_str(&mut c, e.as_str());
                    push_str(&mut c, " for ");
                    push_str(&mut c, name);
                    note_line(c)
                },
            }
        },
        _ => {
            let mut c: Vec<char> = Vec::new();
            push_str(&mut c, "invalid type for ");
            push_str(&mut c, name);
            note_line(c)
        },
    }
}

/// The annotation of base64url encoded text (tag 33).
pub fn base64url(value: &DataItem) -> (l: Line)
    ensures
        l@ == base64_line(value@, true),
{
    base64_base(value, true)
}

/// The annotation of base64 encoded text (tag 34).
pub fn base64(value: &DataItem) -> (l: Line)
    ensures
        l@ == base64_line(value@, false),
{
    base64_base(value, false)
}

/// The annotation of a UUID (tag 37).
pub fn uuid(value: &DataItem) -> (l: Line)
    ensures
        l@ == uuid_line(value@),
{
    match value {
        DataItem::ByteString(b) => {
            let data = b.data.as_slice();
            if uuid_fits(data) {
                let variant = uuid_variant(data);
                let version = match uuid_version(data) {
                    Some(v) => v,
                    None => owned("Unknown"),
                };
                let mut c: Vec<char> = Vec::new();
                push_str(&mut c, "uuid(variant(");
                push_str(&mut c, variant.as_str());
                push_str(&mut c, "), version(");
                push_decimal(&mut c, uuid_version_num(data) as u128);
                push_str(&mut c, ", ");
                push_str(&mut c, version.as_str());
                push_str(&mut c, "))");
                assert(c@ =~= "uuid(variant("@ + uuid_variant_name(data@[8]) + "), version("@ + decimal((data@[6] >> 4u8) as nat)
                    + ", "@ + (match uuid_version_name(data@) { Some(v) => v, None => "Unknown"@ }) + "))"@);
                let mut line = note_line(c);
                let ghost head = line@;
                let mut c16: Vec<char> = Vec::new();
                push_str(&mut c16, "base16(");
                push_str(&mut c16, uuid_display(data).as_str());
                c16.push(')');
                line.push(note_line(c16));
                let mut c58: Vec<char> = Vec::new();
                push_str(&mut c58, "base58(");
                push_str(&mut c58, base58_encode(data).as_str());
                c58.push(')');
                line.push(note_line(c58));
                let mut c64: Vec<char> = Vec::new();
                push_str(&mut c64, "base64(");
                push_str(&mut c64, base64_nopad_encode(data).as_str());
                c64.push(')');
                line.push(note_line(c64));
                assert(c16@ =~= "base16("@ + uuid_hyphenated(data@) + seq![')']);
                assert(c58@ =~= "base58("@ + base58_text(data@) + seq![')']);
                assert(c64@ =~= "base64("@ + base64_text(data@, false, false) + seq![')']);
                assert(head.sublines =~= Seq::<SpecLine>::empty());
                assert(line@.sublines =~= seq![note(c16@), note(c58@), note(c64@)]);
                assert(line@ =~= uuid_line(value@));
                line
            } else {
                note_str("invalid data length for uuid")
            }
        },
        _ => note_str("invalid type for uuid"),
    }
}


/// Appends an IPv4 address in dotted decimal.
fn push_ipv4(out: &mut Vec<char>, b: &[u8], at: usize)
    requires
        at + 4 <= b@.len(),
    ensures
        final(out)@ == old(out)@ + ipv4_text(b@.subrange(at as int, at + 4)),
{
    let ghost start = out@;
    push_decimal(out, b[at] as u128);
    out.push('.');
    push_decimal(out, b[at + 1] as u128);
    out.push('.');
    push_decimal(out, b[at + 2] as u128);
    out.push('.');
    push_decimal(out, b[at + 3] as u128);
    let ghost a = b@.subrange(at as int, at + 4);
    assert(a[0] == b@[at as int] && a[1] == b@[at + 1] && a[2] == b@[at + 2] && a[3] == b@[at + 3]);
    assert(out@ =~= start + ipv4_text(a));
}

/// Appends a MAC address.
fn push_mac(out: &mut Vec<char>, b: &[u8])
    requires
        b@.len() == 6,
    ensures
        final(out)@ == old(out)@ + mac_text(b@),
{
    let ghost start = out@;
    push_hex(out, b[0] as u128, 2);
    let mut i: usize = 1;
    while i < 6
        invariant
            1 <= i <= 6,
            b@.len() == 6,
            out@ == start + mac_prefix(b@, i as nat),
        decreases 6 - i,
    {
        out.push(':');
        push_hex(out, b[i] as u128, 2);
        i = i + 1;
        assert(out@ =~= start + mac_prefix(b@, i as nat));
    }
    assert(mac_prefix(b@, 6) =~= mac_text(b@)) by {
        reveal_with_fuel(mac_prefix, 6);
    }
}

/// Segment `i` of an IPv6 address.
fn segment_of(b: &[u8], i: usize) -> (v: u64)
    requires
        b@.len() == 16,
        i < 8,
    ensures
        v == segment(b@, i as int),
{
    b[2 * i] as u64 * 256 + b[2 * i + 1] as u64
}

/// Appends segments `from` up to `to` of an IPv6 address.
fn push_segments(out: &mut Vec<char>, b: &[u8], from: usize, to: usize)
    requires
        b@.len() == 16,
        to <= 8,
    ensures
        final(out)@ == old(out)@ + segments_text(b@, from as nat, to as nat),
    decreases to - from,
{
    if from >= to {
        assert(old(out)@ + segments_text(b@, from as nat, to as nat) =~= old(out)@);
        return;
    }
    let digits = hex_digit_chars(segment_of(b, from) as u128);
    push_chars(out, digits.as_slice());
    if from + 1 < to {
        out.push(':');
        push_segments(out, b, from + 1, to);
    }
    assert(final(out)@ =~= old(out)@ + segments_text(b@, from as nat, to as nat));
}

/// Appends an IPv6 address.
fn push_ipv6(out: &mut Vec<char>, b: &[u8])
    requires
        b@.len() == 16,
    ensures
        final(out)@ == old(out)@ + ipv6_text(b@),
{
    let ghost start = out@;
    if segment_of(b, 0) == 0 && segment_of(b, 1) == 0 && segment_of(b, 2) == 0 && segment_of(b, 3) == 0
        && segment_of(b, 4) == 0 && segment_of(b, 5) == 0xffff {
        push_str(out, "::ffff:");
        push_ipv4(out, b, 12);
        return;
    }
    let mut cur: (usize, usize) = (0, 0);
    let mut best: (usize, usize) = (0, 0);
    let mut i: usize = 0;
    while i < 8
        invariant
            i <= 8,
            b@.len() == 16,
            cur.0 + cur.1 <= i,
            best.0 + best.1 <= i,
            zero_run(b@, 0, (0, 0), (0, 0)) == zero_run(b@, i as nat, (cur.0 as nat, cur.1 as nat), (best.0 as nat, best.1 as nat)),
        decreases 8 - i,
    {
        if segment_of(b, i) == 0 {
            if cur.1 == 0 {
                cur = (i, 1);
            } else {
                cur = (cur.0, cur.1 + 1);
            }
            if cur.1 > best.1 {
                best = cur;
            }
        } else {
            cur = (0, 0);
        }
        i = i + 1;
    }
    if best.1 > 1 {
        push_segments(out, b, 0, best.0);
        out.push(':');
        out.push(':');
        push_segments(out, b, best.0 + best.1, 8);
    } else {
        push_segments(out, b, 0, 8);
    }
    assert(out@ =~= start + ipv6_text(b@));
}

/// Appends an address of `n` bytes.
fn push_address(out: &mut Vec<char>, b: &[u8], n: usize)
    requires
        n == 4 || n == 16,
        b@.len() == n,
    ensures
        final(out)@ == old(out)@ + address_text(b@, n as nat),
{
    if n == 4 {
        push_ipv4(out, b, 0);
        assert(b@.subrange(0, 4) =~= b@);
    } else {
        push_ipv6(out, b);
    }
}

/// Appends the name of the address family of `n`-byte addresses.
fn push_family(out: &mut Vec<char>, n: usize)
    ensures
        final(out)@ == old(out)@ + family(n as nat),
{
    if n == 4 {
        push_str(out, "IPv4");
    } else {
        push_str(out, "IPv6");
    }
}

/// The annotation of a network address (tag 260).
pub fn network_address(value: &DataItem) -> (l: Line)
    ensures
        l@ == network_address_line(value@),
{
    match value {
        DataItem::ByteString(b) => {
            let data = b.data.as_slice();
            let mut c: Vec<char> = Vec::new();
            if data.len() == 4 {
                push_str(&mut c, "IPv4 address(");
                push_ipv4(&mut c, data, 0);
                c.push(')');
                assert(data@.subrange(0, 4) =~= data@);
                assert(c@ =~= "IPv4 address("@ + ipv4_text(data@) + seq![')']);
                note_line(c)
            } else if data.len() == 6 {
                push_str(&mut c, "MAC address(");
                push_mac(&mut c, data);
                c.push(')');
                assert(c@ =~= "MAC address("@ + mac_text(data@) + seq![')']);
                note_line(c)
            } else if data.len() == 16 {
                push_str(&mut c, "IPv6 address(");
                push_ipv6(&mut c, data);
                c.push(')');
                assert(c@ =~= "IPv6 address("@ + ipv6_text(data@) + seq![')']);
                note_line(c)
            } else {
                note_str("invalid data length for network address")
            }
        },
        _ => note_str("invalid type for network address"),
    }
}


/// The annotation of a prefix of `length` bits (see `prefix_line`).
fn prefix_note(p: &[u8], length: u64, n: usize) -> (l: Line)
    requires
        n == 4 || n == 16,
    ensures
        l@ == prefix_line(p@, length, n as nat),
{
    let pl = p.len();
    if pl > 0 && p[pl - 1] == 0 {
        return note_str("invalid prefix, ends with zero byte");
    }
    if pl > n {
        let mut c: Vec<char> = Vec::new();
        push_str(&mut c, "invalid data length for ");
        push_family(&mut c, n);
        push_str(&mut c, " prefix");
        assert(c@ =~= "invalid data length for "@ + family(n as nat) + " prefix"@);
        return note_line(c);
    }
    let mut bytes = slice_range(p, 0, pl);
    assert(bytes@ =~= p@);
    while bytes.len() < n
        invariant
            p@.len() <= bytes@.len() <= n,
            bytes@ == padded(p@, n as nat).take(bytes@.len() as int),
        decreases n - bytes@.len(),
    {
        bytes.push(0);
        assert(bytes@ =~= padded(p@, n as nat).take(bytes@.len() as int));
    }
    assert(bytes@ =~= padded(p@, n as nat));
    let mut c: Vec<char> = Vec::new();
    push_family(&mut c, n);
    push_str(&mut c, " prefix(");
    push_address(&mut c, bytes.as_slice(), n);
    c.push('/');
    push_decimal(&mut c, length as u128);
    c.push(')');
    assert(c@ =~= family(n as nat) + " prefix("@ + address_text(padded(p@, n as nat), n as nat) + seq!['/']
        + decimal(length as nat) + seq![')']);
    note_line(c)
}

/// The annotation of an address followed by a prefix length or null, and
/// maybe a zone (see `zoned_line`).
fn zoned_note(data: &[DataItem], a: &[u8], n: usize) -> (l: Line)
    requires
        n == 4 || n == 16,
        a@.len() == n,
    ensures
        l@ == zoned_line(items_view(data@), a@, n as nat),
{
    proof { lemma_items_view(data@); }
    let length: Option<u64> = if data.len() < 2 {
        return note_str("invalid type for network address");
    } else {
        match &data[1] {
            DataItem::Integer { value: v, .. } => Some(*v),
            DataItem::Simple(sv) => {
                if sv.0 == Simple::NULL {
                    None
                } else {
                    return note_str("invalid type for network address");
                }
            },
            _ => {
                return note_str("invalid type for network address");
            },
        }
    };
    let mut zone: Option<Vec<char>> = None;
    if data.len() >= 3 {
        match &data[2] {
            DataItem::Integer { value: v, .. } => {
                let mut z: Vec<char> = Vec::new();
                push_decimal(&mut z, *v as u128);
                zone = Some(z);
            },
            DataItem::TextString(t) => {
                zone = Some(chars_of(t.data.as_str()));
            },
            _ => {
                return note_str("invalid type for network address");
            },
        }
    }
    let ghost addr = address_text(a@, n as nat);
    let mut c: Vec<char> = Vec::new();
    match (length, zone) {
        (Some(len), Some(z)) => {
            push_family(&mut c, n);
            push_str(&mut c, " address-and-zone-and-prefix(");
            push_address(&mut c, a, n);
            c.push('%');
            push_chars(&mut c, z.as_slice());
            c.push('/');
            push_decimal(&mut c, len as u128);
            c.push(')');
            assert(c@ =~= family(n as nat) + " address-and-zone-and-prefix("@ + addr + seq!['%'] + z@
                + seq!['/'] + decimal(len as nat) + seq![')']);
            note_line(c)
        },
        (Some(len), None) => {
            push_family(&mut c, n);
            push_str(&mut c, " address-and-prefix(");
            push_address(&mut c, a, n);
            c.push('/');
            push_decimal(&mut c, len as u128);
            c.push(')');
            assert(c@ =~= family(n as nat) + " address-and-prefix("@ + addr + seq!['/'] + decimal(len as nat) + seq![')']);
            note_line(c)
        },
        (None, Some(z)) => {
            push_family(&mut c, n);
            push_str(&mut c, " address-and-zone(");
            push_address(&mut c, a, n);
            c.push('%');
            push_chars(&mut c, z.as_slice());
            c.push(')');
            assert(c@ =~= family(n as nat) + " address-and-zone("@ + addr + seq!['%'] + z@ + seq![')']);
            note_line(c)
        },
        (None, None) => note_str("invalid type for network address"),
    }
}

/// The annotation of an IPv4 (`n` = 4) or IPv6 (`n` = 16) address, prefix,
/// or address with prefix or zone.
fn address_or_prefix(value: &DataItem, n: usize) -> (l: Line)
    requires
        n == 4 || n == 16,
    ensures
        l@ == address_line(value@, n as nat),
{
    match value {
        DataItem::ByteString(b) => {
            let mut c: Vec<char> = Vec::new();
            if b.data.len() == n {
                push_family(&mut c, n);
                push_str(&mut c, " address(");
                push_address(&mut c, b.data.as_slice(), n);
                c.push(')');
                assert(c@ =~= family(n as nat) + " address("@ + address_text(b.data@, n as nat) + seq![')']);
            } else {
                push_str(&mut c, "invalid data length for ");
                push_family(&mut c, n);
                push_str(&mut c, " address");
                assert(c@ =~= "invalid data length for "@ + family(n as nat) + " address"@);
            }
            note_line(c)
        },
        DataItem::Array { data, .. } => {
            proof { lemma_items_view(data@); }
            if data.len() == 0 {
                return note_str("invalid type for network address");
            }
            match &data[0] {
                DataItem::Integer { value: length, .. } => {
                    if data.len() >= 2 {
                        if let DataItem::ByteString(p) = &data[1] {
                            assert(items_view(data@)[1] == SpecItem::ByteString(p@));
                            return prefix_note(p.data.as_slice(), *length, n);
                        }
                    }
                    note_str("invalid type for network address")
                },
                DataItem::ByteString(a) => {
                    if a.data.len() != n {
                        let mut c: Vec<char> = Vec::new();
                        push_str(&mut c, "invalid data length for ");
                        push_family(&mut c, n);
                        push_str(&mut c, " address");
                        assert(c@ =~= "invalid data length for "@ + family(n as nat) + " address"@);
                        return note_line(c);
                    }
                    zoned_note(data.as_slice(), a.data.as_slice(), n)
                },
                _ => note_str("invalid type for network address"),
            }
        },
        _ => note_str("invalid type for network address"),
    }
}

/// The annotation of an IPv4 address, prefix, or address with prefix or
/// zone (tag 52).
pub fn ipv4_address_or_prefix(value: &DataItem) -> (l: Line)
    ensures
        l@ == address_line(value@, 4),
{
    address_or_prefix(value, 4)
}

/// The annotation of an IPv6 address, prefix, or address with prefix or
/// zone (tag 54).
pub fn ipv6_address_or_prefix(value: &DataItem) -> (l: Line)
    ensures
        l@ == address_line(value@, 16),
{
    address_or_prefix(value, 16)
}

} // verus!
