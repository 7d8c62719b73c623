//! The lexical pieces of diagnostic notation: white space and comments,
//! numbers, encoded and quoted strings.
//!
//! Each piece of the grammar is a spec function from the text and a position
//! to what it reads there and the position after it, or `None` when it does
//! not apply; the parser functions compute exactly these. Alternatives are
//! tried in order, and repetitions stop at the first piece that does not
//! apply, without consuming what they read of it.
use vstd::prelude::*;

use vstd::utf8::{decode_utf8, encode_utf8, valid_utf8};

use crate::codecs::{hex_bytes, hex_permissive_decode, is_hex_text};
use crate::encode::annotate::{base64_decode, base64_decoded, base64url_decode, base64url_decoded};
use crate::syntax::{FloatWidth, IntegerWidth};
use crate::text::{chars_of, string_from_chars};

verus! {

/// What a piece of the grammar reads: a value and the position after it.
pub type Read<T> = Option<(T, nat)>;

/// Whether a character is white space (space, tab, carriage return, line feed).
pub open spec fn is_space(c: char) -> bool {
    c == ' ' || c == '\t' || c == '\r' || c == '\n'
}

/// The position of the first `/` at or after `k`, or the end of the text.
pub open spec fn next_slash(s: Seq<char>, k: nat) -> nat
    decreases s.len() - k,
{
    if k >= s.len() {
        s.len()
    } else if s[k as int] == '/' {
        k
    } else {
        next_slash(s, k + 1)
    }
}

/// `next_slash` finds a position at or after where it starts.
pub proof fn lemma_next_slash(s: Seq<char>, k: nat)
    ensures
        k <= s.len() ==> k <= next_slash(s, k) <= s.len(),
    decreases s.len() - k,
{
    if k < s.len() && s[k as int] != '/' {
        lemma_next_slash(s, k + 1);
    }
}

/// The position after any white space and `/`-delimited comments at `i`.
pub open spec fn skip(s: Seq<char>, i: nat) -> nat
    decreases s.len() - i,
{
    if i >= s.len() {
        i
    } else if is_space(s[i as int]) {
        skip(s, i + 1)
    } else if s[i as int] == '/' && next_slash(s, i + 1) < s.len() {
        proof {
            lemma_next_slash(s, i + 1);
        }
        skip(s, next_slash(s, i + 1) + 1)
    } else {
        i
    }
}

/// `skip` moves forward, and stays within the text.
pub proof fn lemma_skip(s: Seq<char>, i: nat)
    ensures
        i <= skip(s, i),
        i <= s.len() ==> skip(s, i) <= s.len(),
    decreases s.len() - i,
{
    if i < s.len() {
        if is_space(s[i as int]) {
            lemma_skip(s, i + 1);
        } else if s[i as int] == '/' && next_slash(s, i + 1) < s.len() {
            lemma_next_slash(s, i + 1);
            lemma_skip(s, next_slash(s, i + 1) + 1);
        }
    }
}

/// Whether the text has `t` at position `i`.
pub open spec fn has_at(s: Seq<char>, i: nat, t: Seq<char>) -> bool {
    i + t.len() <= s.len() && s.subrange(i as int, i + t.len() as int) == t
}


fn next_slash_of(s: &[char], k: usize) -> (r: usize)
    ensures
        r == next_slash(s@, k as nat),
        k <= s@.len() ==> k <= r <= s@.len(),
    decreases s@.len() - k,
{
    proof { lemma_next_slash(s@, k as nat); }
    if k >= s.len() {
        s.len()
    } else if s[k] == '/' {
        k
    } else {
        next_slash_of(s, k + 1)
    }
}

/// The position after any white space and comments at `i`.
pub fn skip_of(s: &[char], i: usize) -> (r: usize)
    ensures
        r == skip(s@, i as nat),
        i <= r,
        i <= s@.len() ==> r <= s@.len(),
    decreases s@.len() - i,
{
    proof { lemma_skip(s@, i as nat); }
    if i >= s.len() {
        i
    } else if s[i] == ' ' || s[i] == '\t' || s[i] == '\r' || s[i] == '\n' {
        skip_of(s, i + 1)
    } else if s[i] == '/' {
        let j = next_slash_of(s, i + 1);
        if j < s.len() {
            skip_of(s, j + 1)
        } else {
            i
        }
    } else {
        i
    }
}

/// Whether the text has `t` at position `i`.
pub fn has_at_of(s: &[char], i: usize, t: &str) -> (b: bool)
    ensures
        b == has_at(s@, i as nat, t@),
{
    let tc = crate::text::chars_of(t);
    if i > s.len() || tc.len() > s.len() - i {
        return false;
    }
    let mut k: usize = 0;
    while k < tc.len()
        invariant
            i + tc@.len() <= s@.len(),
            s@.len() == s.len(),
            tc@ == t@,
            k <= tc@.len(),
            forall|j: int| 0 <= j < k ==> s@[i + j] == tc@[j],
        decreases tc@.len() - k,
    {
        if s[i + k] != tc[k] {
            assert(s@.subrange(i as int, i + t@.len())[k as int] != t@[k as int]);
            return false;
        }
        k = k + 1;
    }
    assert(s@.subrange(i as int, i + t@.len()) =~= t@);
    true
}


/// Classes of characters that runs are made of.
#[derive(Copy, Clone, PartialEq, Eq)]
pub enum Class {
    /// `0`-`9`.
    Decimal,
    /// `0`-`9`, `a`-`f`, `A`-`F`.
    Hex,
    /// `0`-`7`.
    Octal,
    /// `0` and `1`.
    Binary,
    /// `A`-`Z`, `2`-`7` and `=`.
    Base32,
    /// `0`-`9`, `A`-`V` and `=`.
    Base32Hex,
    /// ASCII letters and digits, `-` and `_`.
    Base64Url,
    /// ASCII letters and digits, `+`, `/` and `=`.
    Base64,
    /// White space.
    Space,
}

/// Whether a character belongs to a class.
pub open spec fn in_class(c: char, class: Class) -> bool {
    let digit = '0' <= c && c <= '9';
    let alnum = digit || ('a' <= c && c <= 'z') || ('A' <= c && c <= 'Z');
    match class {
        Class::Decimal => digit,
        Class::Hex => digit || ('a' <= c && c <= 'f') || ('A' <= c && c <= 'F'),
        Class::Octal => '0' <= c && c <= '7',
        Class::Binary => c == '0' || c == '1',
        Class::Base32 => ('A' <= c && c <= 'Z') || ('2' <= c && c <= '7') || c == '=',
        Class::Base32Hex => digit || ('A' <= c && c <= 'V') || c == '=',
        Class::Base64Url => alnum || c == '-' || c == '_',
        Class::Base64 => alnum || c == '+' || c == '/' || c == '=',
        Class::Space => is_space(c),
    }
}

/// The position of the first character at or after `i` not in `class`.
pub open spec fn run_end(s: Seq<char>, i: nat, class: Class) -> nat
    decreases s.len() - i,
{
    if i >= s.len() {
        i
    } else if in_class(s[i as int], class) {
        run_end(s, i + 1, class)
    } else {
        i
    }
}

/// A run ends at or after where it starts, within the text.
pub proof fn lemma_run_end(s: Seq<char>, i: nat, class: Class)
    ensures
        i <= run_end(s, i, class),
        i <= s.len() ==> run_end(s, i, class) <= s.len(),
        forall|k: int| i <= k < run_end(s, i, class) ==> in_class(#[trigger] s[k], class),
    decreases s.len() - i,
{
    if i < s.len() && in_class(s[i as int], class) {
        lemma_run_end(s, i + 1, class);
    }
}

fn in_class_of(c: char, class: Class) -> (b: bool)
    ensures
        b == in_class(c, class),
{
    let digit = '0' <= c && c <= '9';
    let alnum = digit || ('a' <= c && c <= 'z') || ('A' <= c && c <= 'Z');
    match class {
        Class::Decimal => digit,
        Class::Hex => digit || ('a' <= c && c <= 'f') || ('A' <= c && c <= 'F'),
        Class::Octal => '0' <= c && c <= '7',
        Class::Binary => c == '0' || c == '1',
        Class::Base32 => ('A' <= c && c <= 'Z') || ('2' <= c && c <= '7') || c == '=',
        Class::Base32Hex => digit || ('A' <= c && c <= 'V') || c == '=',
        Class::Base64Url => alnum || c == '-' || c == '_',
        Class::Base64 => alnum || c == '+' || c == '/' || c == '=',
        Class::Space => c == ' ' || c == '\t' || c == '\r' || c == '\n',
    }
}

/// The position of the first character at or after `i` not in `class`.
pub fn run_end_of(s: &[char], i: usize, class: Class) -> (r: usize)
    ensures
        r == run_end(s@, i as nat, class),
    decreases s@.len() - i,
{
    if i >= s.len() {
        i
    } else if in_class_of(s[i], class) {
        run_end_of(s, i + 1, class)
    } else {
        i
    }
}

/// The value of a digit character.
pub open spec fn digit_value(c: char) -> nat {
    if '0' <= c && c <= '9' {
        (c as nat - '0' as nat) as nat
    } else if 'a' <= c && c <= 'f' {
        (c as nat - 'a' as nat + 10) as nat
    } else {
        (c as nat - 'A' as nat + 10) as nat
    }
}

/// The value of the digits from `i` up to (not including) `j`.
pub open spec fn digits_value(s: Seq<char>, i: nat, j: nat, radix: nat) -> nat
    decreases j - i,
{
    if j <= i {
        0
    } else {
        digits_value(s, i, (j - 1) as nat, radix) * radix + digit_value(s[j - 1])
    }
}

/// The limit of a `u128`.
pub open spec fn limit128() -> nat {
    0x1_0000_0000_0000_0000_0000_0000_0000_0000nat
}

/// Digits of `class` after `prefix` at `i`, read in `radix`, if there is at
/// least one and the value fits in a `u128`.
pub open spec fn radix_number(s: Seq<char>, i: nat, prefix: Seq<char>, class: Class, radix: nat) -> Read<nat> {
    if has_at(s, i, prefix) {
        let start = i + prefix.len();
        let end = run_end(s, start, class);
        if end > start && digits_value(s, start, end, radix) < limit128() {
            Some((digits_value(s, start, end, radix), end))
        } else {
            None
        }
    } else {
        None
    }
}

/// An unsigned number: hexadecimal after `0x`, octal after `0o`, binary
/// after `0b`, or decimal.
pub open spec fn unsigned_number(s: Seq<char>, i: nat) -> Read<nat> {
    match radix_number(s, i, "0x"@, Class::Hex, 16) {
        Some(r) => Some(r),
        None => match radix_number(s, i, "0o"@, Class::Octal, 8) {
            Some(r) => Some(r),
            None => match radix_number(s, i, "0b"@, Class::Binary, 2) {
                Some(r) => Some(r),
                None => radix_number(s, i, Seq::empty(), Class::Decimal, 10),
            },
        },
    }
}

/// An encoding indicator: `_` and a number below 4.
pub open spec fn encoding(s: Seq<char>, i: nat) -> Read<nat> {
    match radix_number(s, i, seq!['_'], Class::Decimal, 10) {
        Some((e, j)) => if e < 0x1_0000_0000_0000_0000nat && e < 4 { Some((e, j)) } else { None },
        None => None,
    }
}

/// The integer width an encoding indicator stands for.
pub open spec fn indicated_width(e: nat) -> IntegerWidth {
    if e == 0 {
        IntegerWidth::Eight
    } else if e == 1 {
        IntegerWidth::Sixteen
    } else if e == 2 {
        IntegerWidth::ThirtyTwo
    } else {
        IntegerWidth::SixtyFour
    }
}

/// A number of at most `max`, with its encoding indicator if it has one.
pub open spec fn number(s: Seq<char>, i: nat, max: nat) -> Read<(nat, IntegerWidth)> {
    match unsigned_number(s, i) {
        Some((v, p)) => if v > max {
            None
        } else {
            match encoding(s, p) {
                Some((e, q)) => Some(((v, indicated_width(e)), q)),
                None => Some(((v, IntegerWidth::Unknown), p)),
            }
        },
        None => None,
    }
}

fn digit_value_of(c: char) -> (v: u128)
    requires
        in_class(c, Class::Hex),
    ensures
        v == digit_value(c),
        v < 16,
{
    if '0' <= c && c <= '9' {
        (c as u32 - '0' as u32) as u128
    } else if 'a' <= c && c <= 'f' {
        (c as u32 - 'a' as u32 + 10) as u128
    } else {
        (c as u32 - 'A' as u32 + 10) as u128
    }
}

/// The value of the digits from `i` up to `j`, if it fits in a `u128`.
fn digits_value_of(s: &[char], i: usize, j: usize, radix: u128) -> (r: Option<u128>)
    requires
        i <= j <= s@.len(),
        1 <= radix <= 16,
        forall|k: int| i <= k < j ==> in_class(#[trigger] s@[k], Class::Hex),
    ensures
        match r {
            Some(v) => digits_value(s@, i as nat, j as nat, radix as nat) == v,
            None => digits_value(s@, i as nat, j as nat, radix as nat) >= limit128(),
        },
{
    let mut acc: Option<u128> = Some(0);
    let mut k: usize = i;
    while k < j
        invariant
            i <= k <= j,
            j <= s@.len(),
            1 <= radix <= 16,
            forall|m: int| i <= m < j ==> in_class(#[trigger] s@[m], Class::Hex),
            match acc {
                Some(v) => digits_value(s@, i as nat, k as nat, radix as nat) == v,
                None => digits_value(s@, i as nat, k as nat, radix as nat) >= limit128(),
            },
        decreases j - k,
    {
        let d = digit_value_of(s[k]);
        let ghost prev = digits_value(s@, i as nat, k as nat, radix as nat);
        assert(digits_value(s@, i as nat, (k + 1) as nat, radix as nat) == prev * radix + d);
        assert(prev * radix >= prev) by (nonlinear_arith)
            requires
                radix >= 1,
        ;
        acc = match acc {
            Some(v) => match v.checked_mul(radix) {
                Some(m) => m.checked_add(d),
                None => None,
            },
            None => None,
        };
        k = k + 1;
    }
    acc
}

/// Digits of `class` after `prefix` at `i` (see `radix_number`).
pub fn radix_number_of(s: &[char], i: usize, prefix: &str, class: Class, radix: u128) -> (r: Option<(u128, usize)>)
    requires
        1 <= radix <= 16,
        forall|c: char| #[trigger] in_class(c, class) ==> in_class(c, Class::Hex),
    ensures
        match r {
            Some((v, j)) => radix_number(s@, i as nat, prefix@, class, radix as nat) == Some((v as nat, j as nat)),
            None => radix_number(s@, i as nat, prefix@, class, radix as nat) is None,
        },
        r matches Some((v, j)) ==> i < j <= s@.len(),
{
    if !has_at_of(s, i, prefix) {
        return None;
    }
    let pl = crate::text::chars_of(prefix).len();
    let n = s.len();
    assert(pl == prefix@.len());
    let start = i + pl;
    let end = run_end_of(s, start, class);
    proof { lemma_run_end(s@, start as nat, class); }
    if end > start {
        match digits_value_of(s, start, end, radix) {
            Some(v) => Some((v, end)),
            None => None,
        }
    } else {
        None
    }
}

/// An unsigned number (see `unsigned_number`).
pub fn unsigned_number_of(s: &[char], i: usize) -> (r: Option<(u128, usize)>)
    ensures
        match r {
            Some((v, j)) => unsigned_number(s@, i as nat) == Some((v as nat, j as nat)),
            None => unsigned_number(s@, i as nat) is None,
        },
        r matches Some((v, j)) ==> i < j <= s@.len(),
{
    proof {
        reveal_strlit("");
        assert(""@ =~= Seq::<char>::empty());
    }
    match radix_number_of(s, i, "0x", Class::Hex, 16) {
        Some(r) => Some(r),
        None => match radix_number_of(s, i, "0o", Class::Octal, 8) {
            Some(r) => Some(r),
            None => match radix_number_of(s, i, "0b", Class::Binary, 2) {
                Some(r) => Some(r),
                None => radix_number_of(s, i, "", Class::Decimal, 10),
            },
        },
    }
}

/// An encoding indicator (see `encoding`).
pub fn encoding_of(s: &[char], i: usize) -> (r: Option<(u128, usize)>)
    ensures
        match r {
            Some((e, j)) => encoding(s@, i as nat) == Some((e as nat, j as nat)),
            None => encoding(s@, i as nat) is None,
        },
        r matches Some((e, j)) ==> i < j <= s@.len() && e < 4,
{
    proof {
        reveal_strlit("_");
        assert("_"@ =~= seq!['_']);
    }
    match radix_number_of(s, i, "_", Class::Decimal, 10) {
        Some((e, j)) => if e < 4 { Some((e, j)) } else { None },
        None => None,
    }
}

fn indicated_width_of(e: u128) -> (w: IntegerWidth)
    ensures
        w == indicated_width(e as nat),
{
    if e == 0 {
        IntegerWidth::Eight
    } else if e == 1 {
        IntegerWidth::Sixteen
    } else if e == 2 {
        IntegerWidth::ThirtyTwo
    } else {
        IntegerWidth::SixtyFour
    }
}

/// A number of at most `max` (see `number`).
pub fn number_of(s: &[char], i: usize, max: u128) -> (r: Option<(u128, IntegerWidth, usize)>)
    ensures
        match r {
            Some((v, w, j)) => number(s@, i as nat, max as nat) == Some(((v as nat, w), j as nat)),
            None => number(s@, i as nat, max as nat) is None,
        },
        r matches Some((v, w, j)) ==> i < j <= s@.len() && v <= max,
{
    match unsigned_number_of(s, i) {
        Some((v, p)) => {
            if v > max {
                None
            } else {
                match encoding_of(s, p) {
                    Some((e, q)) => Some((v, indicated_width_of(e), q)),
                    None => Some((v, IntegerWidth::Unknown, p)),
                }
            }
        },
        None => None,
    }
}


/// Bytes that `data_encoding::BASE32` decodes some input to, or its error.
pub uninterp spec fn base32_decoded(input: Seq<u8>) -> Result<Seq<u8>, Seq<char>>;

/// Bytes that `data_encoding::BASE32HEX` decodes some input to, or its error.
pub uninterp spec fn base32hex_decoded(input: Seq<u8>) -> Result<Seq<u8>, Seq<char>>;

/// `data_encoding::BASE32.decode`, the error rendered by `Display`.
#[verifier::external_body]
fn base32_decode(input: &[u8]) -> (r: Result<Vec<u8>, String>)
    ensures
        match r {
            Ok(v) => base32_decoded(input@) == Ok::<Seq<u8>, Seq<char>>(v@),
            Err(e) => base32_decoded(input@) == Err::<Seq<u8>, Seq<char>>(e@),
        },
{
    data_encoding::BASE32.decode(input).map_err(|err| err.to_string())
}

/// `data_encoding::BASE32HEX.decode`, the error rendered by `Display`.
#[verifier::external_body]
fn base32hex_decode(input: &[u8]) -> (r: Result<Vec<u8>, String>)
    ensures
        match r {
            Ok(v) => base32hex_decoded(input@) == Ok::<Seq<u8>, Seq<char>>(v@),
            Err(e) => base32hex_decoded(input@) == Err::<Seq<u8>, Seq<char>>(e@),
        },
{
    data_encoding::BASE32HEX.decode(input).map_err(|err| err.to_string())
}

/// The text of runs of characters of `class`, each possibly surrounded by
/// white space and comments, and the position after the last run (or `i`
/// when there is none).
pub open spec fn strings_run(s: Seq<char>, i: nat, class: Class) -> (Seq<char>, nat)
    decreases s.len() - i,
{
    let j = skip(s, i);
    let k = run_end(s, j, class);
    if i <= j && j < k <= s.len() {
        proof {
            lemma_skip(s, k);
        }
        let (rest, e) = strings_run(s, skip(s, k), class);
        (s.subrange(j as int, k as int) + rest, e)
    } else {
        (Seq::empty(), i)
    }
}

/// The bytes that the text of an encoded byte string stands for.
pub open spec fn decoded(class: Class, text: Seq<char>) -> Option<Seq<u8>> {
    let input = encode_utf8(text);
    match class {
        Class::Hex => if is_hex_text(input) { Some(hex_bytes(input)) } else { None },
        Class::Base32 => match base32_decoded(input) { Ok(b) => Some(b), Err(_) => None },
        Class::Base32Hex => match base32hex_decoded(input) { Ok(b) => Some(b), Err(_) => None },
        Class::Base64Url => match base64url_decoded(input) { Ok(b) => Some(b), Err(_) => None },
        _ => match base64_decoded(input) { Ok(b) => Some(b), Err(_) => None },
    }
}

/// An encoded byte string: `name`, a quote, runs of characters of `class`
/// and a quote, decoded.
pub open spec fn encoded_bytes(s: Seq<char>, i: nat, name: Seq<char>, class: Class) -> Read<Seq<u8>> {
    if has_at(s, i, name) && has_at(s, i + name.len(), seq!['\'']) {
        let (text, p) = strings_run(s, i + name.len() + 1, class);
        if has_at(s, p, seq!['\'']) {
            match decoded(class, text) {
                Some(b) => Some((b, p + 1)),
                None => None,
            }
        } else {
            None
        }
    } else {
        None
    }
}

/// Text up to a `quote`, with `\\` and a backslash before the quote standing
/// for themselves; from `k`, having started at `start`.
pub open spec fn escaped_from(s: Seq<char>, start: nat, k: nat, quote: char) -> Read<Seq<char>>
    decreases s.len() - k,
{
    if k >= s.len() {
        Some((Seq::empty(), k))
    } else {
        let c = s[k as int];
        if c != '\\' && c != quote {
            match escaped_from(s, start, k + 1, quote) {
                Some((t, e)) => Some((seq![c] + t, e)),
                None => None,
            }
        } else if c == '\\' {
            if k + 1 >= s.len() {
                None
            } else if s[(k + 1) as int] == '\\' || s[(k + 1) as int] == quote {
                match escaped_from(s, start, k + 2, quote) {
                    Some((t, e)) => Some((seq![s[(k + 1) as int]] + t, e)),
                    None => None,
                }
            } else {
                None
            }
        } else if k == start {
            None
        } else {
            Some((Seq::empty(), k))
        }
    }
}

/// Text in `quote`s, with escapes (see `escaped_from`).
pub open spec fn quoted(s: Seq<char>, i: nat, quote: char) -> Read<Seq<char>> {
    if i < s.len() && s[i as int] == quote {
        let (t, j) = match escaped_from(s, i + 1, i + 1, quote) {
            Some(r) => r,
            None => (Seq::empty(), i + 1),
        };
        if j < s.len() && s[j as int] == quote {
            Some((t, j + 1))
        } else {
            None
        }
    } else {
        None
    }
}

/// The position after `t`, or after a comma, white space and `t`.
pub open spec fn closing(s: Seq<char>, p: nat, t: Seq<char>) -> Option<nat> {
    if has_at(s, p, t) {
        Some(p + t.len())
    } else if has_at(s, p, seq![',']) && run_end(s, p + 1, Class::Space) > p + 1 && has_at(s, run_end(s, p + 1, Class::Space), t) {
        Some(run_end(s, p + 1, Class::Space) + t.len())
    } else {
        None
    }
}

/// The runs of characters of `class` (see `strings_run`).
pub fn strings_run_of(s: &[char], i: usize, class: Class) -> (r: (Vec<char>, usize))
    ensures
        (r.0@, r.1 as nat) == strings_run(s@, i as nat, class),
        i <= s@.len() ==> i <= r.1 <= s@.len(),
    decreases s@.len() - i,
{
    let j = skip_of(s, i);
    let k = run_end_of(s, j, class);
    proof {
        lemma_run_end(s@, j as nat, class);
    }
    if i <= j && j < k && k <= s.len() {
        let next = skip_of(s, k);
        let (rest, e) = strings_run_of(s, next, class);
        let mut text = crate::encode::hex::char_range(s, j, k);
        let ghost head = text@;
        crate::text::push_chars(&mut text, rest.as_slice());
        assert(text@ =~= s@.subrange(j as int, k as int) + rest@);
        (text, e)
    } else {
        (Vec::new(), i)
    }
}

/// The bytes of a decoded encoded byte string (see `decoded`).
pub fn decoded_of(class: Class, text: &[char]) -> (r: Option<Vec<u8>>)
    ensures
        match r {
            Some(b) => decoded(class, text@) == Some(b@),
            None => decoded(class, text@) is None,
        },
{
    let string = string_from_chars(text);
    let input = string.as_str().as_bytes();
    let result = match class {
        Class::Hex => hex_permissive_decode(input),
        Class::Base32 => base32_decode(input),
        Class::Base32Hex => base32hex_decode(input),
        Class::Base64Url => base64url_decode(input),
        _ => base64_decode(input),
    };
    match result {
        Ok(b) => Some(b),
        Err(_) => None,
    }
}

/// An encoded byte string (see `encoded_bytes`).
pub fn encoded_bytes_of(s: &[char], i: usize, name: &str, class: Class) -> (r: Option<(Vec<u8>, usize)>)
    ensures
        match r {
            Some((b, j)) => encoded_bytes(s@, i as nat, name@, class) == Some((b@, j as nat)),
            None => encoded_bytes(s@, i as nat, name@, class) is None,
        },
        r matches Some((b, j)) ==> i < j <= s@.len(),
{
    proof {
        reveal_strlit("'");
        assert("'"@ =~= seq!['\'']);
    }
    if !has_at_of(s, i, name) {
        return None;
    }
    let nl = chars_of(name).len();
    let n = s.len();
    let start = i + nl;
    if !has_at_of(s, start, "'") {
        return None;
    }
    let (text, p) = strings_run_of(s, start + 1, class);
    if !has_at_of(s, p, "'") {
        return None;
    }
    match decoded_of(class, text.as_slice()) {
        Some(b) => Some((b, p + 1)),
        None => None,
    }
}

/// Text up to a quote (see `escaped_from`).
pub fn escaped_of(s: &[char], start: usize, quote: char) -> (r: Option<(Vec<char>, usize)>)
    ensures
        match r {
            Some((t, e)) => escaped_from(s@, start as nat, start as nat, quote) == Some((t@, e as nat)),
            None => escaped_from(s@, start as nat, start as nat, quote) is None,
        },
        r matches Some((t, e)) ==> start <= e && (start <= s@.len() ==> e <= s@.len()),
{
    let mut out: Vec<char> = Vec::new();
    let mut k: usize = start;
    loop
        invariant
            start <= k,
            start <= s@.len() ==> k <= s@.len(),
            k > start ==> k <= s@.len(),
            forall|t: Seq<char>, e: nat| escaped_from(s@, start as nat, k as nat, quote) == Some((t, e))
                ==> escaped_from(s@, start as nat, start as nat, quote) == Some((out@ + t, e)),
            escaped_from(s@, start as nat, k as nat, quote) is None ==> escaped_from(s@, start as nat, start as nat, quote) is None,
        decreases s@.len() - k,
    {
        if k >= s.len() {
            assert(out@ + Seq::<char>::empty() =~= out@);
            return Some((out, k));
        }
        let c = s[k];
        if c != '\\' && c != quote {
            assert forall|t: Seq<char>, e: nat| escaped_from(s@, start as nat, (k + 1) as nat, quote) == Some((t, e))
                implies escaped_from(s@, start as nat, start as nat, quote) == Some((out@.push(c) + t, e)) by {
                assert(out@ + (seq![c] + t) =~= out@.push(c) + t);
            }
            out.push(c);
            k = k + 1;
        } else if c == '\\' {
            if k + 1 >= s.len() {
                return None;
            }
            let d = s[k + 1];
            if d == '\\' || d == quote {
                assert forall|t: Seq<char>, e: nat| escaped_from(s@, start as nat, (k + 2) as nat, quote) == Some((t, e))
                    implies escaped_from(s@, start as nat, start as nat, quote) == Some((out@.push(d) + t, e)) by {
                    assert(out@ + (seq![d] + t) =~= out@.push(d) + t);
                }
                out.push(d);
                k = k + 2;
            } else {
                return None;
            }
        } else if k == start {
            return None;
        } else {
            assert(out@ + Seq::<char>::empty() =~= out@);
            return Some((out, k));
        }
    }
}

/// Text in quotes (see `quoted`).
pub fn quoted_of(s: &[char], i: usize, quote: char) -> (r: Option<(Vec<char>, usize)>)
    ensures
        match r {
            Some((t, j)) => quoted(s@, i as nat, quote) == Some((t@, j as nat)),
            None => quoted(s@, i as nat, quote) is None,
        },
        r matches Some((t, j)) ==> i < j <= s@.len(),
{
    if i < s.len() && s[i] == quote {
        let (t, j) = match escaped_of(s, i + 1, quote) {
            Some(r) => r,
            None => (Vec::new(), i + 1),
        };
        if j < s.len() && s[j] == quote {
            Some((t, j + 1))
        } else {
            None
        }
    } else {
        None
    }
}

/// The position after a closing `t` (see `closing`).
pub fn closing_of(s: &[char], p: usize, t: &str) -> (r: Option<usize>)
    ensures
        match r {
            Some(q) => closing(s@, p as nat, t@) == Some(q as nat),
            None => closing(s@, p as nat, t@) is None,
        },
        r matches Some(q) ==> p < q <= s@.len() || (t@.len() == 0 && q == p),
{
    proof {
        reveal_strlit(",");
        assert(","@ =~= seq![',']);
    }
    let n = s.len();
    if has_at_of(s, p, t) {
        return Some(p + chars_of(t).len());
    }
    if has_at_of(s, p, ",") {
        let q = run_end_of(s, p + 1, Class::Space);
        proof { lemma_run_end(s@, (p + 1) as nat, Class::Space); }
        if q > p + 1 && has_at_of(s, q, t) {
            return Some(q + chars_of(t).len());
        }
    }
    None
}

/// Digits read after a prefix end after the prefix, within the text.
pub proof fn lemma_radix_number(s: Seq<char>, i: nat, prefix: Seq<char>, class: Class, radix: nat)
    ensures
        radix_number(s, i, prefix, class, radix) matches Some((v, j)) ==> i + prefix.len() < j <= s.len(),
{
    if has_at(s, i, prefix) {
        lemma_run_end(s, i + prefix.len(), class);
    }
}

/// A number read at `i` ends after `i`, within the text.
pub proof fn lemma_number(s: Seq<char>, i: nat, max: nat)
    ensures
        number(s, i, max) matches Some((v, j)) ==> i < j <= s.len(),
{
    reveal_strlit("0x");
    reveal_strlit("0o");
    reveal_strlit("0b");
    lemma_radix_number(s, i, "0x"@, Class::Hex, 16);
    lemma_radix_number(s, i, "0o"@, Class::Octal, 8);
    lemma_radix_number(s, i, "0b"@, Class::Binary, 2);
    lemma_radix_number(s, i, Seq::empty(), Class::Decimal, 10);
    if let Some((v, p)) = unsigned_number(s, i) {
        lemma_radix_number(s, p, seq!['_'], Class::Decimal, 10);
    }
}

/// Escaped text ends at or after where it starts.
pub proof fn lemma_escaped_from(s: Seq<char>, start: nat, k: nat, quote: char)
    ensures
        escaped_from(s, start, k, quote) matches Some((t, e)) ==> k <= e,
    decreases s.len() - k,
{
    if k < s.len() {
        let c = s[k as int];
        if c != '\\' && c != quote {
            lemma_escaped_from(s, start, k + 1, quote);
        } else if c == '\\' && k + 1 < s.len() {
            lemma_escaped_from(s, start, k + 2, quote);
        }
    }
}

/// Quoted text ends after where it starts, within the text.
pub proof fn lemma_quoted(s: Seq<char>, i: nat, quote: char)
    ensures
        quoted(s, i, quote) matches Some((t, j)) ==> i < j <= s.len(),
{
    lemma_escaped_from(s, i + 1, i + 1, quote);
}

} // verus!
