use vstd::prelude::*;
use vstd::utf8::{decode_utf8, valid_utf8};

use crate::codecs::{hex_lower, hexlower_encode};
use crate::error::{Error, Result};
use crate::text::{owned, push_str, string_from_chars};
use crate::syntax::{
    ByteString, DataItem, FloatWidth, IntegerWidth, Simple, SpecBytes, SpecItem, SpecText, Tag,
    TextString, bytestrings_view, items_view, lemma_items_view, lemma_pairs_view, pairs_view,
    textstrings_view,
};

verus! {

/// The outcome of parsing a prefix of some input.
pub enum Parsed<T> {
    /// A value was parsed from the first `len` bytes.
    Done(T, nat),
    /// The input ended before a complete value was read.
    Incomplete,
    /// The input is not a valid encoding.
    Invalid,
}

/// The big-endian value of a sequence of at most eight bytes.
pub open spec fn be_value(s: Seq<u8>) -> u64
    decreases s.len(),
{
    if s.len() == 0 {
        0
    } else {
        ((be_value(s.drop_last()) << 8u64) | (s.last() as u64)) as u64
    }
}

/// How many bytes follow the initial byte for an additional information value.
pub open spec fn argument_len(additional: u8) -> nat {
    if additional == 24 {
        1
    } else if additional == 25 {
        2
    } else if additional == 26 {
        4
    } else if additional == 27 {
        8
    } else {
        0
    }
}

/// The integer width that an additional information value below 28 stands for.
pub open spec fn argument_width(additional: u8) -> IntegerWidth {
    if additional < 24 {
        IntegerWidth::Zero
    } else if additional == 24 {
        IntegerWidth::Eight
    } else if additional == 25 {
        IntegerWidth::Sixteen
    } else if additional == 26 {
        IntegerWidth::ThirtyTwo
    } else {
        IntegerWidth::SixtyFour
    }
}

/// A parsed header: major type, additional information and argument value.
/// The additional information 31 marks the indefinite length form.
pub struct Head {
    pub major: u8,
    pub additional: u8,
    pub value: u64,
}

/// Parses the header at the start of `s`.
pub open spec fn parse_head(s: Seq<u8>) -> Parsed<Head> {
    if s.len() == 0 {
        Parsed::Incomplete
    } else {
        let major = s[0] >> 5u8;
        let additional = s[0] & 0x1fu8;
        if additional < 24 {
            Parsed::Done(Head { major, additional, value: additional as u64 }, 1)
        } else if additional < 28 {
            let n = argument_len(additional);
            if s.len() < 1 + n {
                Parsed::Incomplete
            } else {
                Parsed::Done(Head { major, additional, value: be_value(s.subrange(1, 1 + n as int)) }, 1 + n)
            }
        } else if additional == 31 {
            Parsed::Done(Head { major, additional, value: 0 }, 1)
        } else {
            Parsed::Invalid
        }
    }
}

/// Parses a definite byte (`text == false`) or text string body of length
/// `value` from `rest`, the input after a header of `head_len` bytes.
pub open spec fn parse_string_body(rest: Seq<u8>, value: u64, bitwidth: IntegerWidth, text: bool, head_len: nat) -> Parsed<SpecItem> {
    if value > usize::MAX {
        Parsed::Invalid
    } else if rest.len() < value {
        Parsed::Incomplete
    } else {
        let data = rest.take(value as int);
        if !text {
            Parsed::Done(SpecItem::ByteString(SpecBytes { data, bitwidth }), head_len + value as nat)
        } else if valid_utf8(data) {
            Parsed::Done(SpecItem::TextString(SpecText { data: decode_utf8(data), bitwidth }), head_len + value as nat)
        } else {
            Parsed::Invalid
        }
    }
}

/// Parses a definite string of major type 2 (`text == false`) or 3 at the start of `s`.
pub open spec fn parse_definite_string(s: Seq<u8>, text: bool) -> Parsed<SpecItem> {
    match parse_head(s) {
        Parsed::Done(h, hl) => {
            if h.major != (if text { 3u8 } else { 2u8 }) || h.additional == 31 || hl > s.len() {
                Parsed::Invalid
            } else {
                parse_string_body(s.skip(hl as int), h.value, argument_width(h.additional), text, hl)
            }
        },
        Parsed::Incomplete => Parsed::Incomplete,
        Parsed::Invalid => Parsed::Invalid,
    }
}

/// Parses definite string chunks up to a break byte, returning the chunks
/// and the number of bytes including the break.
pub open spec fn parse_chunks(s: Seq<u8>, text: bool) -> Parsed<Seq<SpecItem>>
    decreases s.len(),
{
    if s.len() == 0 {
        Parsed::Incomplete
    } else if s[0] == 0xff {
        Parsed::Done(Seq::empty(), 1)
    } else {
        match parse_definite_string(s, text) {
            Parsed::Done(x, k) => {
                if 0 < k <= s.len() {
                    match parse_chunks(s.skip(k as int), text) {
                        Parsed::Done(xs, k2) => Parsed::Done(seq![x] + xs, k + k2),
                        Parsed::Incomplete => Parsed::Incomplete,
                        Parsed::Invalid => Parsed::Invalid,
                    }
                } else {
                    Parsed::Invalid
                }
            },
            Parsed::Incomplete => Parsed::Incomplete,
            Parsed::Invalid => Parsed::Invalid,
        }
    }
}

/// The byte string models of parsed chunks.
pub open spec fn chunk_bytestrings(s: Seq<SpecItem>) -> Seq<SpecBytes> {
    s.map_values(|x: SpecItem| match x {
        SpecItem::ByteString(b) => b,
        _ => SpecBytes { data: Seq::empty(), bitwidth: IntegerWidth::Unknown },
    })
}

/// The text string models of parsed chunks.
pub open spec fn chunk_textstrings(s: Seq<SpecItem>) -> Seq<SpecText> {
    s.map_values(|x: SpecItem| match x {
        SpecItem::TextString(t) => t,
        _ => SpecText { data: Seq::empty(), bitwidth: IntegerWidth::Unknown },
    })
}

/// Parses `n` consecutive data items.
pub open spec fn parse_items(s: Seq<u8>, n: nat) -> Parsed<Seq<SpecItem>>
    decreases s.len(), 1nat, n,
{
    if n == 0 {
        Parsed::Done(Seq::empty(), 0)
    } else {
        match parse_item(s) {
            Parsed::Done(x, k) => {
                if 0 < k <= s.len() {
                    match parse_items(s.skip(k as int), (n - 1) as nat) {
                        Parsed::Done(xs, k2) => Parsed::Done(seq![x] + xs, k + k2),
                        Parsed::Incomplete => Parsed::Incomplete,
                        Parsed::Invalid => Parsed::Invalid,
                    }
                } else {
                    Parsed::Invalid
                }
            },
            Parsed::Incomplete => Parsed::Incomplete,
            Parsed::Invalid => Parsed::Invalid,
        }
    }
}

/// Parses data items up to a break byte; the length includes the break.
pub open spec fn parse_items_to_break(s: Seq<u8>) -> Parsed<Seq<SpecItem>>
    decreases s.len(), 1nat, 0nat,
{
    if s.len() == 0 {
        Parsed::Incomplete
    } else if s[0] == 0xff {
        Parsed::Done(Seq::empty(), 1)
    } else {
        match parse_item(s) {
            Parsed::Done(x, k) => {
                if 0 < k <= s.len() {
                    match parse_items_to_break(s.skip(k as int)) {
                        Parsed::Done(xs, k2) => Parsed::Done(seq![x] + xs, k + k2),
                        Parsed::Incomplete => Parsed::Incomplete,
                        Parsed::Invalid => Parsed::Invalid,
                    }
                } else {
                    Parsed::Invalid
                }
            },
            Parsed::Incomplete => Parsed::Incomplete,
            Parsed::Invalid => Parsed::Invalid,
        }
    }
}

/// Parses a key followed by a value.
pub open spec fn parse_pair(s: Seq<u8>) -> Parsed<(SpecItem, SpecItem)>
    decreases s.len(), 1nat, 0nat,
{
    match parse_item(s) {
        Parsed::Done(x, k) => {
            if 0 < k <= s.len() {
                match parse_item(s.skip(k as int)) {
                    Parsed::Done(y, k2) => Parsed::Done((x, y), k + k2),
                    Parsed::Incomplete => Parsed::Incomplete,
                    Parsed::Invalid => Parsed::Invalid,
                }
            } else {
                Parsed::Invalid
            }
        },
        Parsed::Incomplete => Parsed::Incomplete,
        Parsed::Invalid => Parsed::Invalid,
    }
}

/// Parses `n` consecutive key/value pairs.
pub open spec fn parse_pairs(s: Seq<u8>, n: nat) -> Parsed<Seq<(SpecItem, SpecItem)>>
    decreases s.len(), 2nat, n,
{
    if n == 0 {
        Parsed::Done(Seq::empty(), 0)
    } else {
        match parse_pair(s) {
            Parsed::Done(x, k) => {
                if 0 < k <= s.len() {
                    match parse_pairs(s.skip(k as int), (n - 1) as nat) {
                        Parsed::Done(xs, k2) => Parsed::Done(seq![x] + xs, k + k2),
                        Parsed::Incomplete => Parsed::Incomplete,
                        Parsed::Invalid => Parsed::Invalid,
                    }
                } else {
                    Parsed::Invalid
                }
            },
            Parsed::Incomplete => Parsed::Incomplete,
            Parsed::Invalid => Parsed::Invalid,
        }
    }
}

/// Parses key/value pairs up to a break byte; the length includes the break.
pub open spec fn parse_pairs_to_break(s: Seq<u8>) -> Parsed<Seq<(SpecItem, SpecItem)>>
    decreases s.len(), 2nat, 0nat,
{
    if s.len() == 0 {
        Parsed::Incomplete
    } else if s[0] == 0xff {
        Parsed::Done(Seq::empty(), 1)
    } else {
        match parse_pair(s) {
            Parsed::Done(x, k) => {
                if 0 < k <= s.len() {
                    match parse_pairs_to_break(s.skip(k as int)) {
                        Parsed::Done(xs, k2) => Parsed::Done(seq![x] + xs, k + k2),
                        Parsed::Incomplete => Parsed::Incomplete,
                        Parsed::Invalid => Parsed::Invalid,
                    }
                } else {
                    Parsed::Invalid
                }
            },
            Parsed::Incomplete => Parsed::Incomplete,
            Parsed::Invalid => Parsed::Invalid,
        }
    }
}

/// The float width that an additional information value of 25, 26 or 27 stands for.
pub open spec fn float_width(additional: u8) -> FloatWidth {
    if additional == 25 {
        FloatWidth::Sixteen
    } else if additional == 26 {
        FloatWidth::ThirtyTwo
    } else {
        FloatWidth::SixtyFour
    }
}

/// Parses the data item at the start of `s`, possibly followed by more input.
pub open spec fn parse_item(s: Seq<u8>) -> Parsed<SpecItem>
    decreases s.len(), 0nat, 0nat,
{
    match parse_head(s) {
        Parsed::Done(h, hl) => {
            if !(0 < hl <= s.len()) {
                Parsed::Invalid
            } else {
                let rest = s.skip(hl as int);
                let width = argument_width(h.additional);
                if h.major == 0 || h.major == 1 {
                    if h.additional == 31 {
                        Parsed::Invalid
                    } else if h.major == 0 {
                        Parsed::Done(SpecItem::Integer { value: h.value, bitwidth: width }, hl)
                    } else {
                        Parsed::Done(SpecItem::Negative { value: h.value, bitwidth: width }, hl)
                    }
                } else if h.major == 2 || h.major == 3 {
                    let text = h.major == 3;
                    if h.additional == 31 {
                        match parse_chunks(rest, text) {
                            Parsed::Done(xs, k) => Parsed::Done(
                                if text {
                                    SpecItem::IndefiniteTextString(chunk_textstrings(xs))
                                } else {
                                    SpecItem::IndefiniteByteString(chunk_bytestrings(xs))
                                },
                                hl + k,
                            ),
                            Parsed::Incomplete => Parsed::Incomplete,
                            Parsed::Invalid => Parsed::Invalid,
                        }
                    } else {
                        parse_string_body(rest, h.value, width, text, hl)
                    }
                } else if h.major == 4 {
                    let r = if h.additional == 31 {
                        parse_items_to_break(rest)
                    } else {
                        parse_items(rest, (h.value as usize) as nat)
                    };
                    match r {
                        Parsed::Done(xs, k) => Parsed::Done(
                            SpecItem::Array { data: xs, bitwidth: if h.additional == 31 { None } else { Some(width) } },
                            hl + k,
                        ),
                        Parsed::Incomplete => Parsed::Incomplete,
                        Parsed::Invalid => Parsed::Invalid,
                    }
                } else if h.major == 5 {
                    let r = if h.additional == 31 {
                        parse_pairs_to_break(rest)
                    } else {
                        parse_pairs(rest, (h.value as usize) as nat)
                    };
                    match r {
                        Parsed::Done(xs, k) => Parsed::Done(
                            SpecItem::Mapping { data: xs, bitwidth: if h.additional == 31 { None } else { Some(width) } },
                            hl + k,
                        ),
                        Parsed::Incomplete => Parsed::Incomplete,
                        Parsed::Invalid => Parsed::Invalid,
                    }
                } else if h.major == 6 {
                    if h.additional == 31 {
                        Parsed::Invalid
                    } else {
                        match parse_item(rest) {
                            Parsed::Done(x, k) => Parsed::Done(
                                SpecItem::Tag { tag: h.value, bitwidth: width, value: Box::new(x) },
                                hl + k,
                            ),
                            Parsed::Incomplete => Parsed::Incomplete,
                            Parsed::Invalid => Parsed::Invalid,
                        }
                    }
                } else {
                    if h.additional <= 24 {
                        Parsed::Done(SpecItem::Simple(h.value as u8), hl)
                    } else if h.additional <= 27 {
                        Parsed::Done(SpecItem::Float { value: h.value, bitwidth: float_width(h.additional) }, hl)
                    } else {
                        Parsed::Invalid
                    }
                }
            }
        },
        Parsed::Incomplete => Parsed::Incomplete,
        Parsed::Invalid => Parsed::Invalid,
    }
}


/// Prepends already parsed values to the outcome of parsing the rest.
pub open spec fn prepend<T>(xs: Seq<T>, k: nat, r: Parsed<Seq<T>>) -> Parsed<Seq<T>> {
    match r {
        Parsed::Done(ys, k2) => Parsed::Done(xs + ys, k + k2),
        Parsed::Incomplete => Parsed::Incomplete,
        Parsed::Invalid => Parsed::Invalid,
    }
}

proof fn lemma_prepend_assoc<T>(a: Seq<T>, ka: nat, b: Seq<T>, kb: nat, r: Parsed<Seq<T>>)
    ensures
        prepend(a, ka, prepend(b, kb, r)) == prepend(a + b, ka + kb, r),
{
    match r {
        Parsed::Done(ys, k2) => {
            assert(a + (b + ys) =~= (a + b) + ys);
        },
        _ => {},
    }
}

/// The outcome of an executable parsing step.
pub enum Step<T> {
    Done(T, usize),
    Incomplete,
    Invalid,
}

/// Whether an executable parsing step agrees with a specified outcome.
pub open spec fn step_is<T, V>(r: Step<T>, p: Parsed<V>, view: spec_fn(T) -> V) -> bool {
    match r {
        Step::Done(x, k) => p == Parsed::Done(view(x), k as nat),
        Step::Incomplete => p is Incomplete,
        Step::Invalid => p is Invalid,
    }
}

/// Reads the header at `input[pos..]`.
fn read_head(input: &[u8], pos: usize) -> (r: Step<Head>)
    requires
        pos <= input@.len(),
    ensures
        step_is(r, parse_head(input@.skip(pos as int)), |h: Head| h),
        r matches Step::Done(h, k) ==> 0 < k <= input@.len() - pos && pos + k <= input.len() && h.major < 8 && h.additional < 32,
{
    let ghost s = input@.skip(pos as int);
    if pos == input.len() {
        return Step::Incomplete;
    }
    let first = input[pos];
    let major = first >> 5;
    let additional = first & 0x1f;
    assert(major < 8 && additional < 32) by (bit_vector)
        requires major == first >> 5u8, additional == first & 0x1fu8;
    if additional < 24 {
        Step::Done(Head { major, additional, value: additional as u64 }, 1)
    } else if additional < 28 {
        let n: usize = if additional == 24 { 1 } else if additional == 25 { 2 } else if additional == 26 { 4 } else { 8 };
        if input.len() - pos < 1 + n {
            return Step::Incomplete;
        }
        let mut value: u64 = 0;
        let mut i: usize = 0;
        while i < n
            invariant
                i <= n,
                n <= 8,
                pos + 1 + n <= input.len(),
                value == be_value(input@.subrange(pos + 1, pos + 1 + i)),
            decreases n - i,
        {
            let ghost prev = input@.subrange(pos + 1, pos + 1 + i);
            value = (value << 8) | (input[pos + 1 + i] as u64);
            i = i + 1;
            assert(input@.subrange(pos + 1, pos + 1 + i).drop_last() =~= prev);
        }
        assert(s.subrange(1, 1 + n as int) =~= input@.subrange(pos + 1, pos + 1 + n));
        Step::Done(Head { major, additional, value }, 1 + n)
    } else if additional == 31 {
        Step::Done(Head { major, additional, value: 0 }, 1)
    } else {
        Step::Invalid
    }
}

/// Parses a definite string body of `value` bytes at `input[pos..]`, after a
/// header of `head_len` bytes.
fn string_body(input: &[u8], pos: usize, value: u64, bitwidth: IntegerWidth, text: bool, head_len: usize) -> (r: Step<DataItem>)
    requires
        pos <= input@.len(),
        0 < head_len <= pos,
    ensures
        step_is(r, parse_string_body(input@.skip(pos as int), value, bitwidth, text, head_len as nat), |x: DataItem| x@),
        r matches Step::Done(x, k) ==> head_len < k || (head_len == k && value == 0),
        r matches Step::Done(x, k) ==> k - head_len <= input@.len() - pos && pos + (k - head_len) <= input.len(),
        r matches Step::Done(x, k) ==> if text { x is TextString } else { x is ByteString },
{
    if value > usize::MAX as u64 {
        return Step::Invalid;
    }
    let len = value as usize;
    if input.len() - pos < len {
        return Step::Incomplete;
    }
    let data = vstd::slice::slice_subrange(input, pos, pos + len);
    assert(data@ =~= input@.skip(pos as int).take(value as int));
    if !text {
        Step::Done(DataItem::ByteString(ByteString { data: vstd::slice::slice_to_vec(data), bitwidth }), head_len + len)
    } else {
        match crate::text::utf8_string(data) {
            Some(s) => Step::Done(DataItem::TextString(TextString { data: s, bitwidth }), head_len + len),
            None => Step::Invalid,
        }
    }
}


/// Parses a definite string of major type 2 (`text == false`) or 3 at `input[pos..]`.
fn definite_string(input: &[u8], pos: usize, text: bool) -> (r: Step<DataItem>)
    requires
        pos <= input@.len(),
    ensures
        step_is(r, parse_definite_string(input@.skip(pos as int), text), |x: DataItem| x@),
        r matches Step::Done(x, k) ==> 0 < k <= input@.len() - pos && pos + k <= input.len(),
        r matches Step::Done(x, k) ==> if text { x is TextString } else { x is ByteString },
{
    match read_head(input, pos) {
        Step::Done(h, hl) => {
            if h.major != (if text { 3u8 } else { 2u8 }) || h.additional == 31 {
                Step::Invalid
            } else {
                proof {
                    assert(input@.skip(pos as int).skip(hl as int) =~= input@.skip(pos + hl));
                }
                string_body(input, pos + hl, h.value, argument_width_of(h.additional), text, hl)
            }
        },
        Step::Incomplete => Step::Incomplete,
        Step::Invalid => Step::Invalid,
    }
}

/// The integer width that an additional information value below 28 stands for.
fn argument_width_of(additional: u8) -> (w: IntegerWidth)
    ensures
        w == argument_width(additional),
{
    if additional < 24 {
        IntegerWidth::Zero
    } else if additional == 24 {
        IntegerWidth::Eight
    } else if additional == 25 {
        IntegerWidth::Sixteen
    } else if additional == 26 {
        IntegerWidth::ThirtyTwo
    } else {
        IntegerWidth::SixtyFour
    }
}

/// The parsed models of byte string chunks.
pub open spec fn bytestring_chunk_items(v: Seq<ByteString>) -> Seq<SpecItem> {
    v.map_values(|b: ByteString| SpecItem::ByteString(b@))
}

/// The parsed models of text string chunks.
pub open spec fn textstring_chunk_items(v: Seq<TextString>) -> Seq<SpecItem> {
    v.map_values(|t: TextString| SpecItem::TextString(t@))
}

/// Parses byte string chunks up to a break byte at `input[pos..]`.
fn bytestring_chunks(input: &[u8], pos: usize) -> (r: Step<Vec<ByteString>>)
    requires
        pos <= input@.len(),
    ensures
        step_is(r, parse_chunks(input@.skip(pos as int), false), |v: Vec<ByteString>| bytestring_chunk_items(v@)),
        r matches Step::Done(v, k) ==> 0 < k <= input@.len() - pos && pos + k <= input.len(),
{
    let mut v: Vec<ByteString> = Vec::new();
    let mut cur = pos;
    assert(bytestring_chunk_items(v@) =~= Seq::empty());
    assert(input@.skip(pos as int).skip(0) =~= input@.skip(pos as int));
    while cur < input.len() && input[cur] != 0xff
        invariant
            pos <= cur <= input@.len(),
            parse_chunks(input@.skip(pos as int), false) == prepend(bytestring_chunk_items(v@), (cur - pos) as nat, parse_chunks(input@.skip(cur as int), false)),
        decreases input@.len() - cur,
    {
        let ghost s = input@.skip(cur as int);
        match definite_string(input, cur, false) {
            Step::Done(x, k) => {
                match x {
                    DataItem::ByteString(b) => {
                        proof {
                            assert(s.skip(k as int) =~= input@.skip(cur + k));
                            assert(s[0] == input@[cur as int]);
                            assert(parse_definite_string(s, false) == Parsed::Done(SpecItem::ByteString(b@), k as nat));
                            assert(parse_chunks(s, false) == prepend(seq![SpecItem::ByteString(b@)], k as nat, parse_chunks(s.skip(k as int), false)));
                            lemma_prepend_assoc(bytestring_chunk_items(v@), (cur - pos) as nat, seq![SpecItem::ByteString(b@)], k as nat, parse_chunks(input@.skip(cur + k), false));
                        }
                        let ghost old_v = v@;
                        v.push(b);
                        assert(bytestring_chunk_items(v@) =~= bytestring_chunk_items(old_v) + seq![SpecItem::ByteString(b@)]);
                        cur = cur + k;
                    },
                    _ => {
                        return Step::Invalid;
                    },
                }
            },
            Step::Incomplete => {
                return Step::Incomplete;
            },
            Step::Invalid => {
                return Step::Invalid;
            },
        }
    }
    if cur == input.len() {
        Step::Incomplete
    } else {
        assert(input@.skip(cur as int)[0] == 0xff);
        assert(bytestring_chunk_items(v@) + Seq::empty() =~= bytestring_chunk_items(v@));
        Step::Done(v, cur + 1 - pos)
    }
}

/// Parses text string chunks up to a break byte at `input[pos..]`.
fn textstring_chunks(input: &[u8], pos: usize) -> (r: Step<Vec<TextString>>)
    requires
        pos <= input@.len(),
    ensures
        step_is(r, parse_chunks(input@.skip(pos as int), true), |v: Vec<TextString>| textstring_chunk_items(v@)),
        r matches Step::Done(v, k) ==> 0 < k <= input@.len() - pos && pos + k <= input.len(),
{
    let mut v: Vec<TextString> = Vec::new();
    let mut cur = pos;
    assert(textstring_chunk_items(v@) =~= Seq::empty());
    assert(input@.skip(pos as int).skip(0) =~= input@.skip(pos as int));
    while cur < input.len() && input[cur] != 0xff
        invariant
            pos <= cur <= input@.len(),
            parse_chunks(input@.skip(pos as int), true) == prepend(textstring_chunk_items(v@), (cur - pos) as nat, parse_chunks(input@.skip(cur as int), true)),
        decreases input@.len() - cur,
    {
        let ghost s = input@.skip(cur as int);
        match definite_string(input, cur, true) {
            Step::Done(x, k) => {
                match x {
                    DataItem::TextString(t) => {
                        proof {
                            assert(s.skip(k as int) =~= input@.skip(cur + k));
                            assert(s[0] == input@[cur as int]);
                            assert(parse_definite_string(s, true) == Parsed::Done(SpecItem::TextString(t@), k as nat));
                            assert(parse_chunks(s, true) == prepend(seq![SpecItem::TextString(t@)], k as nat, parse_chunks(s.skip(k as int), true)));
                            lemma_prepend_assoc(textstring_chunk_items(v@), (cur - pos) as nat, seq![SpecItem::TextString(t@)], k as nat, parse_chunks(input@.skip(cur + k), true));
                        }
                        let ghost old_v = v@;
                        v.push(t);
                        assert(textstring_chunk_items(v@) =~= textstring_chunk_items(old_v) + seq![SpecItem::TextString(t@)]);
                        cur = cur + k;
                    },
                    _ => {
                        return Step::Invalid;
                    },
                }
            },
            Step::Incomplete => {
                return Step::Incomplete;
            },
            Step::Invalid => {
                return Step::Invalid;
            },
        }
    }
    if cur == input.len() {
        Step::Incomplete
    } else {
        assert(input@.skip(cur as int)[0] == 0xff);
        assert(textstring_chunk_items(v@) + Seq::empty() =~= textstring_chunk_items(v@));
        Step::Done(v, cur + 1 - pos)
    }
}


/// Parses `n` data items at `input[pos..]`.
fn items_count(input: &[u8], pos: usize, n: usize) -> (r: Step<Vec<DataItem>>)
    requires
        pos <= input@.len(),
    ensures
        step_is(r, parse_items(input@.skip(pos as int), n as nat), |v: Vec<DataItem>| items_view(v@)),
        r matches Step::Done(v, k) ==> k <= input@.len() - pos && pos + k <= input.len(),
    decreases input@.len() - pos, 1nat, 0nat,
{
    let mut v: Vec<DataItem> = Vec::new();
    let mut cur = pos;
    let mut i: usize = 0;
    assert(items_view(v@) =~= Seq::empty());
    assert(input@.skip(pos as int).skip(0) =~= input@.skip(pos as int));
    while i < n
        invariant
            pos <= cur <= input@.len(),
            i <= n,
            parse_items(input@.skip(pos as int), n as nat) == prepend(items_view(v@), (cur - pos) as nat, parse_items(input@.skip(cur as int), (n - i) as nat)),
        decreases n - i,
    {
        let ghost s = input@.skip(cur as int);
        match data_item(input, cur) {
            Step::Done(x, k) => {
                proof {
                    assert(s.skip(k as int) =~= input@.skip(cur + k));
                    assert(parse_items(s, (n - i) as nat) == prepend(seq![x@], k as nat, parse_items(s.skip(k as int), (n - i - 1) as nat)));
                    lemma_prepend_assoc(items_view(v@), (cur - pos) as nat, seq![x@], k as nat, parse_items(input@.skip(cur + k), (n - i - 1) as nat));
                }
                let ghost old_v = v@;
                v.push(x);
                assert(items_view(v@) =~= items_view(old_v) + seq![v@.last()@]) by {
                    assert(v@.drop_last() =~= old_v);
                }
                cur = cur + k;
                i = i + 1;
            },
            Step::Incomplete => {
                return Step::Incomplete;
            },
            Step::Invalid => {
                return Step::Invalid;
            },
        }
    }
    assert(items_view(v@) + Seq::empty() =~= items_view(v@));
    Step::Done(v, cur - pos)
}

/// Parses data items up to a break byte at `input[pos..]`.
fn items_to_break(input: &[u8], pos: usize) -> (r: Step<Vec<DataItem>>)
    requires
        pos <= input@.len(),
    ensures
        step_is(r, parse_items_to_break(input@.skip(pos as int)), |v: Vec<DataItem>| items_view(v@)),
        r matches Step::Done(v, k) ==> k <= input@.len() - pos && pos + k <= input.len(),
    decreases input@.len() - pos, 1nat, 0nat,
{
    let mut v: Vec<DataItem> = Vec::new();
    let mut cur = pos;
    assert(items_view(v@) =~= Seq::empty());
    assert(input@.skip(pos as int).skip(0) =~= input@.skip(pos as int));
    while cur < input.len() && input[cur] != 0xff
        invariant
            pos <= cur <= input@.len(),
            parse_items_to_break(input@.skip(pos as int)) == prepend(items_view(v@), (cur - pos) as nat, parse_items_to_break(input@.skip(cur as int))),
        decreases input@.len() - cur,
    {
        let ghost s = input@.skip(cur as int);
        match data_item(input, cur) {
            Step::Done(x, k) => {
                proof {
                    assert(s.skip(k as int) =~= input@.skip(cur + k));
                    assert(s[0] == input@[cur as int]);
                    assert(parse_items_to_break(s) == prepend(seq![x@], k as nat, parse_items_to_break(s.skip(k as int))));
                    lemma_prepend_assoc(items_view(v@), (cur - pos) as nat, seq![x@], k as nat, parse_items_to_break(input@.skip(cur + k)));
                }
                let ghost old_v = v@;
                v.push(x);
                assert(items_view(v@) =~= items_view(old_v) + seq![v@.last()@]) by {
                    assert(v@.drop_last() =~= old_v);
                }
                cur = cur + k;
            },
            Step::Incomplete => {
                return Step::Incomplete;
            },
            Step::Invalid => {
                return Step::Invalid;
            },
        }
    }
    if cur == input.len() {
        Step::Incomplete
    } else {
        assert(input@.skip(cur as int)[0] == 0xff);
        assert(items_view(v@) + Seq::empty() =~= items_view(v@));
        Step::Done(v, cur + 1 - pos)
    }
}

/// Parses a key followed by a value at `input[pos..]`.
fn pair(input: &[u8], pos: usize) -> (r: Step<(DataItem, DataItem)>)
    requires
        pos <= input@.len(),
    ensures
        step_is(r, parse_pair(input@.skip(pos as int)), |p: (DataItem, DataItem)| (p.0@, p.1@)),
        r matches Step::Done(p, k) ==> 0 < k <= input@.len() - pos && pos + k <= input.len(),
    decreases input@.len() - pos, 1nat, 0nat,
{
    let ghost s = input@.skip(pos as int);
    match data_item(input, pos) {
        Step::Done(x, k) => {
            assert(s.skip(k as int) =~= input@.skip(pos + k));
            match data_item(input, pos + k) {
                Step::Done(y, k2) => Step::Done((x, y), k + k2),
                Step::Incomplete => Step::Incomplete,
                Step::Invalid => Step::Invalid,
            }
        },
        Step::Incomplete => Step::Incomplete,
        Step::Invalid => Step::Invalid,
    }
}

/// Parses `n` key/value pairs at `input[pos..]`.
fn pairs_count(input: &[u8], pos: usize, n: usize) -> (r: Step<Vec<(DataItem, DataItem)>>)
    requires
        pos <= input@.len(),
    ensures
        step_is(r, parse_pairs(input@.skip(pos as int), n as nat), |v: Vec<(DataItem, DataItem)>| pairs_view(v@)),
        r matches Step::Done(v, k) ==> k <= input@.len() - pos && pos + k <= input.len(),
    decreases input@.len() - pos, 2nat, 0nat,
{
    let mut v: Vec<(DataItem, DataItem)> = Vec::new();
    let mut cur = pos;
    let mut i: usize = 0;
    assert(pairs_view(v@) =~= Seq::empty());
    assert(input@.skip(pos as int).skip(0) =~= input@.skip(pos as int));
    while i < n
        invariant
            pos <= cur <= input@.len(),
            i <= n,
            parse_pairs(input@.skip(pos as int), n as nat) == prepend(pairs_view(v@), (cur - pos) as nat, parse_pairs(input@.skip(cur as int), (n - i) as nat)),
        decreases n - i,
    {
        let ghost s = input@.skip(cur as int);
        match pair(input, cur) {
            Step::Done(p, k) => {
                proof {
                    assert(s.skip(k as int) =~= input@.skip(cur + k));
                    assert(parse_pairs(s, (n - i) as nat) == prepend(seq![(p.0@, p.1@)], k as nat, parse_pairs(s.skip(k as int), (n - i - 1) as nat)));
                    lemma_prepend_assoc(pairs_view(v@), (cur - pos) as nat, seq![(p.0@, p.1@)], k as nat, parse_pairs(input@.skip(cur + k), (n - i - 1) as nat));
                }
                let ghost old_v = v@;
                v.push(p);
                assert(pairs_view(v@) =~= pairs_view(old_v) + seq![(v@.last().0@, v@.last().1@)]) by {
                    assert(v@.drop_last() =~= old_v);
                }
                cur = cur + k;
                i = i + 1;
            },
            Step::Incomplete => {
                return Step::Incomplete;
            },
            Step::Invalid => {
                return Step::Invalid;
            },
        }
    }
    assert(pairs_view(v@) + Seq::empty() =~= pairs_view(v@));
    Step::Done(v, cur - pos)
}

/// Parses key/value pairs up to a break byte at `input[pos..]`.
fn pairs_to_break(input: &[u8], pos: usize) -> (r: Step<Vec<(DataItem, DataItem)>>)
    requires
        pos <= input@.len(),
    ensures
        step_is(r, parse_pairs_to_break(input@.skip(pos as int)), |v: Vec<(DataItem, DataItem)>| pairs_view(v@)),
        r matches Step::Done(v, k) ==> k <= input@.len() - pos && pos + k <= input.len(),
    decreases input@.len() - pos, 2nat, 0nat,
{
    let mut v: Vec<(DataItem, DataItem)> = Vec::new();
    let mut cur = pos;
    assert(pairs_view(v@) =~= Seq::empty());
    assert(input@.skip(pos as int).skip(0) =~= input@.skip(pos as int));
    while cur < input.len() && input[cur] != 0xff
        invariant
            pos <= cur <= input@.len(),
            parse_pairs_to_break(input@.skip(pos as int)) == prepend(pairs_view(v@), (cur - pos) as nat, parse_pairs_to_break(input@.skip(cur as int))),
        decreases input@.len() - cur,
    {
        let ghost s = input@.skip(cur as int);
        match pair(input, cur) {
            Step::Done(p, k) => {
                proof {
                    assert(s.skip(k as int) =~= input@.skip(cur + k));
                    assert(s[0] == input@[cur as int]);
                    assert(parse_pairs_to_break(s) == prepend(seq![(p.0@, p.1@)], k as nat, parse_pairs_to_break(s.skip(k as int))));
                    lemma_prepend_assoc(pairs_view(v@), (cur - pos) as nat, seq![(p.0@, p.1@)], k as nat, parse_pairs_to_break(input@.skip(cur + k)));
                }
                let ghost old_v = v@;
                v.push(p);
                assert(pairs_view(v@) =~= pairs_view(old_v) + seq![(v@.last().0@, v@.last().1@)]) by {
                    assert(v@.drop_last() =~= old_v);
                }
                cur = cur + k;
            },
            Step::Incomplete => {
                return Step::Incomplete;
            },
            Step::Invalid => {
                return Step::Invalid;
            },
        }
    }
    if cur == input.len() {
        Step::Incomplete
    } else {
        assert(input@.skip(cur as int)[0] == 0xff);
        assert(pairs_view(v@) + Seq::empty() =~= pairs_view(v@));
        Step::Done(v, cur + 1 - pos)
    }
}

/// The float width that an additional information value of 25, 26 or 27 stands for.
fn float_width_of(additional: u8) -> (w: FloatWidth)
    ensures
        w == float_width(additional),
{
    if additional == 25 {
        FloatWidth::Sixteen
    } else if additional == 26 {
        FloatWidth::ThirtyTwo
    } else {
        FloatWidth::SixtyFour
    }
}

/// Parses the data item at `input[pos..]`.
fn data_item(input: &[u8], pos: usize) -> (r: Step<DataItem>)
    requires
        pos <= input@.len(),
    ensures
        step_is(r, parse_item(input@.skip(pos as int)), |x: DataItem| x@),
        r matches Step::Done(x, k) ==> 0 < k <= input@.len() - pos && pos + k <= input.len(),
    decreases input@.len() - pos, 0nat, 0nat,
{
    let ghost s = input@.skip(pos as int);
    let (h, hl) = match read_head(input, pos) {
        Step::Done(h, hl) => (h, hl),
        Step::Incomplete => {
            return Step::Incomplete;
        },
        Step::Invalid => {
            return Step::Invalid;
        },
    };
    let rest = pos + hl;
    assert(s.skip(hl as int) =~= input@.skip(rest as int));
    let width = argument_width_of(h.additional);
    if h.major == 0 || h.major == 1 {
        if h.additional == 31 {
            Step::Invalid
        } else if h.major == 0 {
            Step::Done(DataItem::Integer { value: h.value, bitwidth: width }, hl)
        } else {
            Step::Done(DataItem::Negative { value: h.value, bitwidth: width }, hl)
        }
    } else if h.major == 2 {
        if h.additional == 31 {
            match bytestring_chunks(input, rest) {
                Step::Done(v, k) => {
                    assert(chunk_bytestrings(bytestring_chunk_items(v@)) =~= bytestrings_view(v@));
                    Step::Done(DataItem::IndefiniteByteString(v), hl + k)
                },
                Step::Incomplete => Step::Incomplete,
                Step::Invalid => Step::Invalid,
            }
        } else {
            string_body(input, rest, h.value, width, false, hl)
        }
    } else if h.major == 3 {
        if h.additional == 31 {
            match textstring_chunks(input, rest) {
                Step::Done(v, k) => {
                    assert(chunk_textstrings(textstring_chunk_items(v@)) =~= textstrings_view(v@));
                    Step::Done(DataItem::IndefiniteTextString(v), hl + k)
                },
                Step::Incomplete => Step::Incomplete,
                Step::Invalid => Step::Invalid,
            }
        } else {
            string_body(input, rest, h.value, width, true, hl)
        }
    } else if h.major == 4 {
        let r = if h.additional == 31 {
            items_to_break(input, rest)
        } else {
            items_count(input, rest, h.value as usize)
        };
        match r {
            Step::Done(v, k) => Step::Done(
                DataItem::Array { data: v, bitwidth: if h.additional == 31 { None } else { Some(width) } },
                hl + k,
            ),
            Step::Incomplete => Step::Incomplete,
            Step::Invalid => Step::Invalid,
        }
    } else if h.major == 5 {
        let r = if h.additional == 31 {
            pairs_to_break(input, rest)
        } else {
            pairs_count(input, rest, h.value as usize)
        };
        match r {
            Step::Done(v, k) => Step::Done(
                DataItem::Mapping { data: v, bitwidth: if h.additional == 31 { None } else { Some(width) } },
                hl + k,
            ),
            Step::Incomplete => Step::Incomplete,
            Step::Invalid => Step::Invalid,
        }
    } else if h.major == 6 {
        if h.additional == 31 {
            Step::Invalid
        } else {
            match data_item(input, rest) {
                Step::Done(x, k) => Step::Done(
                    DataItem::Tag { tag: Tag(h.value), bitwidth: width, value: Box::new(x) },
                    hl + k,
                ),
                Step::Incomplete => Step::Incomplete,
                Step::Invalid => Step::Invalid,
            }
        }
    } else {
        if h.additional <= 24 {
            Step::Done(DataItem::Simple(Simple(h.value as u8)), hl)
        } else if h.additional <= 27 {
            Step::Done(DataItem::Float { value: h.value, bitwidth: float_width_of(h.additional) }, hl)
        } else {
            Step::Invalid
        }
    }
}


/// The message of the error for input that is not a valid encoding.
pub open spec fn invalid_message() -> Seq<char> {
    "Parsing error (invalid data item)"@
}

/// The message of the error for input that ends within a data item.
pub open spec fn incomplete_message() -> Seq<char> {
    "Parsing error (incomplete data item)"@
}

/// The message of the error for bytes left after a complete data item.
pub open spec fn remaining_message(rest: Seq<u8>) -> Seq<char> {
    "Remaining bytes ("@ + hex_lower(rest) + ")"@
}

/// What parsing `bytes` as exactly one data item gives.
pub open spec fn parse_bytes_gives(bytes: Seq<u8>, r: Result<DataItem>) -> bool {
    match parse_item(bytes) {
        Parsed::Done(x, k) => if k == bytes.len() {
            r matches Ok(item) && item@ == x
        } else {
            r matches Err(e) && e.message() == remaining_message(bytes.skip(k as int))
        },
        Parsed::Incomplete => r matches Err(e) && e.message() == incomplete_message(),
        Parsed::Invalid => r matches Err(e) && e.message() == invalid_message(),
    }
}

/// Parse a byte slice holding exactly one binary encoded CBOR data item.
pub fn parse_bytes(bytes: &[u8]) -> (r: Result<DataItem>)
    ensures
        parse_bytes_gives(bytes@, r),
{
    assert(bytes@.skip(0) =~= bytes@);
    match data_item(bytes, 0) {
        Step::Done(item, k) => {
            if k == bytes.len() {
                Ok(item)
            } else {
                let rest = vstd::slice::slice_subrange(bytes, k, bytes.len());
                let hex = hexlower_encode(rest);
                let mut msg: Vec<char> = Vec::new();
                push_str(&mut msg, "Remaining bytes (");
                push_str(&mut msg, hex.as_str());
                push_str(&mut msg, ")");
                assert(rest@ =~= bytes@.skip(k as int));
                Err(Error::Todo(string_from_chars(msg.as_slice())))
            }
        },
        Step::Incomplete => Err(Error::Todo(owned("Parsing error (incomplete data item)"))),
        Step::Invalid => Err(Error::Todo(owned("Parsing error (invalid data item)"))),
    }
}

/// What parsing a data item at the start of `bytes`, with any bytes after
/// it, gives.
pub open spec fn parse_bytes_partial_gives(bytes: Seq<u8>, r: Result<Option<(DataItem, usize)>>) -> bool {
    match parse_item(bytes) {
        Parsed::Done(x, k) => r matches Ok(Some((item, len))) && item@ == x && len == k,
        Parsed::Incomplete => r matches Ok(None),
        Parsed::Invalid => r matches Err(e) && e.message() == "Parser error"@,
    }
}

/// Parse a byte slice starting with a binary encoded CBOR data item,
/// optionally followed by more data.
///
/// Returns `Ok(Some((item, len)))` with the number of bytes the item used,
/// `Ok(None)` when the input ends before the item does, and an error when
/// the input is not a valid encoding.
pub fn parse_bytes_partial(bytes: &[u8]) -> (r: Result<Option<(DataItem, usize)>>)
    ensures
        parse_bytes_partial_gives(bytes@, r),
{
    assert(bytes@.skip(0) =~= bytes@);
    match data_item(bytes, 0) {
        Step::Done(item, k) => Ok(Some((item, k))),
        Step::Incomplete => Ok(None),
        Step::Invalid => Err(Error::Todo(owned("Parser error"))),
    }
}

} // verus!
