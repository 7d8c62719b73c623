//! The byte-to-text encodings of the `data_encoding` crate that this library uses.
use vstd::prelude::*;

verus! {

/// The lowercase hexadecimal digit for a value below 16.
pub open spec fn hex_digit(n: u8) -> char {
    if n < 10 {
        (('0' as u8) + n) as char
    } else {
        (('a' as u8) + n - 10) as char
    }
}

/// Lowercase hexadecimal text of a byte sequence, two digits per byte.
pub open spec fn hex_lower(bytes: Seq<u8>) -> Seq<char>
    decreases bytes.len(),
{
    if bytes.len() == 0 {
        Seq::empty()
    } else {
        hex_lower(bytes.drop_last()) + seq![hex_digit(bytes.last() / 16), hex_digit(bytes.last() % 16)]
    }
}

/// `data_encoding::HEXLOWER.encode`: two lowercase hexadecimal digits per
/// byte, most significant nibble first.
#[verifier::external_body]
pub(crate) fn hexlower_encode(data: &[u8]) -> (s: String)
    ensures
        s@ == hex_lower(data@),
{
    data_encoding::HEXLOWER.encode(data)
}

/// The value of a hexadecimal digit in either case, if it is one.
pub open spec fn hex_value(b: u8) -> Option<u8> {
    if 0x30 <= b <= 0x39 {
        Some((b - 0x30) as u8)
    } else if 0x61 <= b <= 0x66 {
        Some((b - 0x61 + 10) as u8)
    } else if 0x41 <= b <= 0x46 {
        Some((b - 0x41 + 10) as u8)
    } else {
        None
    }
}

/// Whether `input` is hexadecimal text: an even number of hexadecimal digits.
pub open spec fn is_hex_text(input: Seq<u8>) -> bool {
    input.len() % 2 == 0 && forall|i: int| 0 <= i < input.len() ==> #[trigger] hex_value(input[i]) is Some
}

/// The bytes that hexadecimal text stands for, two digits per byte.
pub open spec fn hex_bytes(input: Seq<u8>) -> Seq<u8> {
    Seq::new(
        input.len() / 2,
        |i: int| (hex_value(input[2 * i])->0 * 16 + hex_value(input[2 * i + 1])->0) as u8,
    )
}

/// The message of the error that `data_encoding::HEXLOWER_PERMISSIVE.decode`
/// reports for `input`.
pub uninterp spec fn hex_decode_error(input: Seq<u8>) -> Seq<char>;

/// `data_encoding::HEXLOWER_PERMISSIVE.decode`: succeeds exactly on an even
/// number of hexadecimal digits of either case, giving one byte per pair of
/// digits; the error is rendered with its `Display` implementation.
#[verifier::external_body]
pub(crate) fn hex_permissive_decode(input: &[u8]) -> (r: Result<Vec<u8>, String>)
    ensures
        r is Ok <==> is_hex_text(input@),
        r matches Ok(v) ==> v@ == hex_bytes(input@),
        r matches Err(e) ==> e@ == hex_decode_error(input@),
{
    match data_encoding::HEXLOWER_PERMISSIVE.decode(input) {
        Ok(v) => Ok(v),
        Err(e) => Err(e.to_string()),
    }
}


/// The character of a six-bit value in the base64 alphabet (`url` selects the
/// URL and filename safe alphabet).
pub open spec fn base64_char(v: u8, url: bool) -> char {
    if v < 26 {
        (('A' as u8) + v) as char
    } else if v < 52 {
        (('a' as u8) + v - 26) as char
    } else if v < 62 {
        (('0' as u8) + v - 52) as char
    } else if v == 62 {
        if url { '-' } else { '+' }
    } else {
        if url { '_' } else { '/' }
    }
}

/// The base64 text of a byte sequence (RFC 4648): every three bytes become
/// four characters; a final one or two bytes become two or three characters,
/// followed by `=` padding when `pad` is set.
pub open spec fn base64_text(d: Seq<u8>, url: bool, pad: bool) -> Seq<char>
    decreases d.len(),
{
    if d.len() == 0 {
        Seq::empty()
    } else if d.len() == 1 {
        seq![base64_char(d[0] >> 2u8, url), base64_char(((d[0] & 3u8) << 4u8) as u8, url)]
            + if pad { seq!['=', '='] } else { Seq::empty() }
    } else if d.len() == 2 {
        seq![
            base64_char(d[0] >> 2u8, url),
            base64_char((((d[0] & 3u8) << 4u8) | (d[1] >> 4u8)) as u8, url),
            base64_char(((d[1] & 15u8) << 2u8) as u8, url),
        ] + if pad { seq!['='] } else { Seq::empty() }
    } else {
        seq![
            base64_char(d[0] >> 2u8, url),
            base64_char((((d[0] & 3u8) << 4u8) | (d[1] >> 4u8)) as u8, url),
            base64_char((((d[1] & 15u8) << 2u8) | (d[2] >> 6u8)) as u8, url),
            base64_char(d[2] & 63u8, url),
        ] + base64_text(d.skip(3), url, pad)
    }
}

/// `data_encoding::BASE64.encode`: standard alphabet with padding.
#[verifier::external_body]
pub(crate) fn base64_encode(data: &[u8]) -> (s: String)
    ensures
        s@ == base64_text(data@, false, true),
{
    data_encoding::BASE64.encode(data)
}

/// `data_encoding::BASE64_NOPAD.encode`: standard alphabet without padding.
#[verifier::external_body]
pub(crate) fn base64_nopad_encode(data: &[u8]) -> (s: String)
    ensures
        s@ == base64_text(data@, false, false),
{
    data_encoding::BASE64_NOPAD.encode(data)
}

/// `data_encoding::BASE64URL_NOPAD.encode`: URL safe alphabet without padding.
#[verifier::external_body]
pub(crate) fn base64url_nopad_encode(data: &[u8]) -> (s: String)
    ensures
        s@ == base64_text(data@, true, false),
{
    data_encoding::BASE64URL_NOPAD.encode(data)
}

} // verus!
