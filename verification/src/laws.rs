//! Laws relating the encoder and the parsers.
use vstd::prelude::*;
use vstd::utf8::{decode_utf8, encode_utf8, encode_utf8_decode_utf8, encode_utf8_valid_utf8, valid_utf8};

use crate::encode::bytes::{
    be_bytes, bytestring_bytes, bytestrings_bytes, header_bytes, initial_byte, item_bytes,
    items_bytes, minimal_width, pairs_bytes, resolved_width, textstring_bytes, textstrings_bytes,
    float_bytes, lemma_indefinite_initial_bytes,
};
use crate::parse::binary::{
    parse_bytes_gives, parse_bytes_partial_gives, incomplete_message, invalid_message,
    Head, Parsed, be_value, chunk_bytestrings, chunk_textstrings, parse_chunks,
    parse_definite_string, parse_head, parse_item, parse_items, parse_items_to_break, parse_pair,
    parse_pairs, parse_pairs_to_break, parse_string_body, argument_len, argument_width, float_width,
};
use crate::error::Result;
use crate::encode::diag::{escape_quoted, text_diag};
use crate::parse::lexical::{escaped_from, quoted};
use crate::syntax::{DataItem, FloatWidth, IntegerWidth, SpecBytes, SpecItem, SpecText};

verus! {

/// Whether `value` can be encoded with the width `w`.
pub open spec fn fits(value: u64, w: IntegerWidth) -> bool {
    match w {
        IntegerWidth::Zero => value < 24,
        IntegerWidth::Eight => value <= 0xff,
        IntegerWidth::Sixteen => value <= 0xffff,
        IntegerWidth::ThirtyTwo => value <= 0xffff_ffff,
        _ => true,
    }
}

/// Whether a length can be encoded with the width `w` (and held in memory).
pub open spec fn length_fits(len: nat, w: IntegerWidth) -> bool {
    len <= usize::MAX && fits(len as u64, w)
}

/// Whether a float bit pattern fits the width it is to be encoded with.
pub open spec fn float_fits(value: u64, w: FloatWidth) -> bool {
    match w {
        FloatWidth::Sixteen => value <= 0xffff,
        FloatWidth::ThirtyTwo => value <= 0xffff_ffff,
        _ => true,
    }
}

/// Whether a byte string's length fits its width.
pub open spec fn bytes_encodable(b: SpecBytes) -> bool {
    length_fits(b.data.len(), b.bitwidth)
}

/// Whether a text string's encoded length fits its width.
pub open spec fn text_encodable(t: SpecText) -> bool {
    length_fits(encode_utf8(t.data).len(), t.bitwidth)
}

/// Whether every value and length in a data item fits the width given for it.
pub open spec fn encodable(x: SpecItem) -> bool
    decreases x,
{
    match x {
        SpecItem::Integer { value, bitwidth } => fits(value, bitwidth),
        SpecItem::Negative { value, bitwidth } => fits(value, bitwidth),
        SpecItem::ByteString(b) => bytes_encodable(b),
        SpecItem::TextString(t) => text_encodable(t),
        SpecItem::IndefiniteByteString(s) => forall|i: int| 0 <= i < s.len() ==> bytes_encodable(#[trigger] s[i]),
        SpecItem::IndefiniteTextString(s) => forall|i: int| 0 <= i < s.len() ==> text_encodable(#[trigger] s[i]),
        SpecItem::Array { data, bitwidth } => (bitwidth matches Some(w) ==> length_fits(data.len(), w))
            && forall|i: int| 0 <= i < data.len() ==> encodable(#[trigger] data[i]),
        SpecItem::Mapping { data, bitwidth } => (bitwidth matches Some(w) ==> length_fits(data.len(), w))
            && forall|i: int| 0 <= i < data.len() ==> encodable(#[trigger] data[i].0) && encodable(data[i].1),
        SpecItem::Tag { tag, bitwidth, value } => fits(tag, bitwidth) && encodable(*value),
        SpecItem::Float { value, bitwidth } => float_fits(value, bitwidth),
        SpecItem::Simple(_) => true,
    }
}

/// Whether every width in an item is given, none left to be chosen.
pub open spec fn widths_given(x: SpecItem) -> bool
    decreases x,
{
    match x {
        SpecItem::Integer { bitwidth, .. } => bitwidth != IntegerWidth::Unknown,
        SpecItem::Negative { bitwidth, .. } => bitwidth != IntegerWidth::Unknown,
        SpecItem::ByteString(b) => b.bitwidth != IntegerWidth::Unknown,
        SpecItem::TextString(t) => t.bitwidth != IntegerWidth::Unknown,
        SpecItem::IndefiniteByteString(s) => forall|i: int| 0 <= i < s.len() ==> (#[trigger] s[i]).bitwidth != IntegerWidth::Unknown,
        SpecItem::IndefiniteTextString(s) => forall|i: int| 0 <= i < s.len() ==> (#[trigger] s[i]).bitwidth != IntegerWidth::Unknown,
        SpecItem::Array { data, bitwidth } => bitwidth != Some(IntegerWidth::Unknown)
            && forall|i: int| 0 <= i < data.len() ==> widths_given(#[trigger] data[i]),
        SpecItem::Mapping { data, bitwidth } => bitwidth != Some(IntegerWidth::Unknown)
            && forall|i: int| 0 <= i < data.len() ==> widths_given(#[trigger] data[i].0) && widths_given(data[i].1),
        SpecItem::Tag { bitwidth, value, .. } => bitwidth != IntegerWidth::Unknown && widths_given(*value),
        SpecItem::Float { bitwidth, .. } => bitwidth != FloatWidth::Unknown,
        SpecItem::Simple(_) => true,
    }
}

/// A byte string with its width resolved.
pub open spec fn normalized_bytes(b: SpecBytes) -> SpecBytes {
    SpecBytes { data: b.data, bitwidth: resolved_width(b.data.len() as u64, b.bitwidth) }
}

/// A text string with its width resolved.
pub open spec fn normalized_text(t: SpecText) -> SpecText {
    SpecText { data: t.data, bitwidth: resolved_width(encode_utf8(t.data).len() as u64, t.bitwidth) }
}

/// A data item with every unknown width replaced by the width it is encoded with.
pub open spec fn normalized(x: SpecItem) -> SpecItem
    decreases x,
{
    match x {
        SpecItem::Integer { value, bitwidth } => SpecItem::Integer { value, bitwidth: resolved_width(value, bitwidth) },
        SpecItem::Negative { value, bitwidth } => SpecItem::Negative { value, bitwidth: resolved_width(value, bitwidth) },
        SpecItem::ByteString(b) => SpecItem::ByteString(normalized_bytes(b)),
        SpecItem::TextString(t) => SpecItem::TextString(normalized_text(t)),
        SpecItem::IndefiniteByteString(s) => SpecItem::IndefiniteByteString(s.map_values(|b: SpecBytes| normalized_bytes(b))),
        SpecItem::IndefiniteTextString(s) => SpecItem::IndefiniteTextString(s.map_values(|t: SpecText| normalized_text(t))),
        SpecItem::Array { data, bitwidth } => SpecItem::Array {
            data: Seq::new(data.len(), |i: int| if 0 <= i < data.len() { normalized(data[i]) } else { SpecItem::Simple(0) }),
            bitwidth: match bitwidth {
                Some(w) => Some(resolved_width(data.len() as u64, w)),
                None => None,
            },
        },
        SpecItem::Mapping { data, bitwidth } => SpecItem::Mapping {
            data: Seq::new(data.len(), |i: int| if 0 <= i < data.len() {
                (normalized(data[i].0), normalized(data[i].1))
            } else {
                (SpecItem::Simple(0), SpecItem::Simple(0))
            }),
            bitwidth: match bitwidth {
                Some(w) => Some(resolved_width(data.len() as u64, w)),
                None => None,
            },
        },
        SpecItem::Tag { tag, bitwidth, value } => SpecItem::Tag {
            tag,
            bitwidth: resolved_width(tag, bitwidth),
            value: Box::new(normalized(*value)),
        },
        SpecItem::Float { value, bitwidth } => SpecItem::Float {
            value,
            bitwidth: if bitwidth == FloatWidth::Unknown { FloatWidth::SixtyFour } else { bitwidth },
        },
        SpecItem::Simple(v) => SpecItem::Simple(v),
    }
}

/// The normalized forms of a sequence of data items.
pub open spec fn normalized_items(s: Seq<SpecItem>) -> Seq<SpecItem> {
    Seq::new(s.len(), |i: int| normalized(s[i]))
}

/// The normalized forms of a sequence of pairs.
pub open spec fn normalized_pairs(s: Seq<(SpecItem, SpecItem)>) -> Seq<(SpecItem, SpecItem)> {
    Seq::new(s.len(), |i: int| (normalized(s[i].0), normalized(s[i].1)))
}

proof fn lemma_initial_byte(m: u8, a: u8)
    requires
        m < 8,
        a < 32,
    ensures
        initial_byte(m, a) >> 5u8 == m,
        initial_byte(m, a) & 0x1fu8 == a,
{
    assert(m < 8 && a < 32 ==> ((m << 5u8) | a) as u8 >> 5u8 == m && ((m << 5u8) | a) as u8 & 0x1fu8 == a) by (bit_vector);
}

proof fn lemma_break_byte()
    ensures
        0xffu8 >> 5u8 == 7,
        0xffu8 & 0x1fu8 == 31,
{
    assert(0xffu8 >> 5u8 == 7 && 0xffu8 & 0x1fu8 == 31) by (bit_vector);
}

proof fn lemma_be_1(v: u64)
    requires
        v <= 0xff,
    ensures
        be_value(be_bytes(v, 1)) == v,
{
    let s = be_bytes(v, 1);
    assert(s.drop_last() =~= Seq::<u8>::empty());
    let b0 = s[0];
    assert(b0 == (v >> 0u64) as u8);
    assert(be_value(s.drop_last()) == 0);
    assert(be_value(s) == (((0u64 << 8u64) | (s[0] as u64)) as u64));
    assert(v <= 0xff ==> (((0u64 << 8u64) | (((v >> 0u64) as u8) as u64)) as u64) == v) by (bit_vector);
}

proof fn lemma_be_2(v: u64)
    requires
        v <= 0xffff,
    ensures
        be_value(be_bytes(v, 2)) == v,
{
    let s = be_bytes(v, 2);
    assert(s.drop_last().drop_last() =~= Seq::<u8>::empty());
    assert(s.drop_last().last() == s[0]);
    assert(s[0] == (v >> 8u64) as u8);
    assert(s[1] == (v >> 0u64) as u8);
    let e1 = (((0u64 << 8u64) | (s[0] as u64)) as u64);
    assert(be_value(s.drop_last().drop_last()) == 0);
    assert(be_value(s.drop_last()) == e1);
    assert(be_value(s) == (((e1 << 8u64) | (s[1] as u64)) as u64));
    assert(v <= 0xffff ==> (((((((0u64 << 8u64) | (((v >> 8u64) as u8) as u64)) as u64) << 8u64) | (((v >> 0u64) as u8) as u64)) as u64) == v)) by (bit_vector);
}

proof fn lemma_be_4(v: u64)
    requires
        v <= 0xffff_ffff,
    ensures
        be_value(be_bytes(v, 4)) == v,
{
    let s = be_bytes(v, 4);
    let s3 = s.drop_last();
    let s2 = s3.drop_last();
    let s1 = s2.drop_last();
    assert(s1.drop_last() =~= Seq::<u8>::empty());
    assert(s1.last() == s[0] && s2.last() == s[1] && s3.last() == s[2]);
    assert(s[0] == (v >> 24u64) as u8);
    assert(s[1] == (v >> 16u64) as u8);
    assert(s[2] == (v >> 8u64) as u8);
    assert(s[3] == (v >> 0u64) as u8);
    let b0 = ((v >> 24u64) as u8) as u64;
    let b1 = ((v >> 16u64) as u8) as u64;
    let b2 = ((v >> 8u64) as u8) as u64;
    let b3 = ((v >> 0u64) as u8) as u64;
    let e1 = (((0u64 << 8u64) | b0) as u64);
    let e2 = (((e1 << 8u64) | b1) as u64);
    let e3 = (((e2 << 8u64) | b2) as u64);
    let e4 = (((e3 << 8u64) | b3) as u64);
    assert(be_value(s1.drop_last()) == 0);
    assert(be_value(s1) == e1);
    assert(be_value(s2) == e2);
    assert(be_value(s3) == e3);
    assert(be_value(s) == e4);
    assert(v <= 0xffff_ffff && b0 == ((v >> 24u64) as u8) as u64 && b1 == ((v >> 16u64) as u8) as u64
        && b2 == ((v >> 8u64) as u8) as u64 && b3 == ((v >> 0u64) as u8) as u64
        ==> ((((((((((((0u64 << 8u64) | b0) as u64) << 8u64) | b1) as u64) << 8u64) | b2) as u64) << 8u64) | b3) as u64) == v) by (bit_vector);
}

proof fn lemma_be_8(v: u64)
    ensures
        be_value(be_bytes(v, 8)) == v,
{
    let s = be_bytes(v, 8);
    let s7 = s.drop_last();
    let s6 = s7.drop_last();
    let s5 = s6.drop_last();
    let s4 = s5.drop_last();
    let s3 = s4.drop_last();
    let s2 = s3.drop_last();
    let s1 = s2.drop_last();
    assert(s1.drop_last() =~= Seq::<u8>::empty());
    assert(s1.last() == s[0] && s2.last() == s[1] && s3.last() == s[2] && s4.last() == s[3]);
    assert(s5.last() == s[4] && s6.last() == s[5] && s7.last() == s[6]);
    let b0 = ((v >> 56u64) as u8) as u64;
    let b1 = ((v >> 48u64) as u8) as u64;
    let b2 = ((v >> 40u64) as u8) as u64;
    let b3 = ((v >> 32u64) as u8) as u64;
    let b4 = ((v >> 24u64) as u8) as u64;
    let b5 = ((v >> 16u64) as u8) as u64;
    let b6 = ((v >> 8u64) as u8) as u64;
    let b7 = ((v >> 0u64) as u8) as u64;
    assert(s[0] as u64 == b0 && s[1] as u64 == b1 && s[2] as u64 == b2 && s[3] as u64 == b3);
    assert(s[4] as u64 == b4 && s[5] as u64 == b5 && s[6] as u64 == b6 && s[7] as u64 == b7);
    let e1 = (((0u64 << 8u64) | b0) as u64);
    let e2 = (((e1 << 8u64) | b1) as u64);
    let e3 = (((e2 << 8u64) | b2) as u64);
    let e4 = (((e3 << 8u64) | b3) as u64);
    let e5 = (((e4 << 8u64) | b4) as u64);
    let e6 = (((e5 << 8u64) | b5) as u64);
    let e7 = (((e6 << 8u64) | b6) as u64);
    let e8 = (((e7 << 8u64) | b7) as u64);
    assert(be_value(s1.drop_last()) == 0);
    assert(be_value(s1) == e1);
    assert(be_value(s2) == e2);
    assert(be_value(s3) == e3);
    assert(be_value(s4) == e4);
    assert(be_value(s5) == e5);
    assert(be_value(s6) == e6);
    assert(be_value(s7) == e7);
    assert(be_value(s) == e8);
    assert(b0 == ((v >> 56u64) as u8) as u64 && b1 == ((v >> 48u64) as u8) as u64
        && b2 == ((v >> 40u64) as u8) as u64 && b3 == ((v >> 32u64) as u8) as u64
        && b4 == ((v >> 24u64) as u8) as u64 && b5 == ((v >> 16u64) as u8) as u64
        && b6 == ((v >> 8u64) as u8) as u64 && b7 == ((v >> 0u64) as u8) as u64
        ==> ((((((((((((((((((((((((0u64 << 8u64) | b0) as u64) << 8u64) | b1) as u64) << 8u64) | b2) as u64) << 8u64) | b3) as u64)
            << 8u64) | b4) as u64) << 8u64) | b5) as u64) << 8u64) | b6) as u64) << 8u64) | b7) as u64) == v) by (bit_vector);
}


/// The additional information value a header for `value` is encoded with.
pub open spec fn additional_for(value: u64, w: IntegerWidth) -> u8 {
    match resolved_width(value, w) {
        IntegerWidth::Eight => 24,
        IntegerWidth::Sixteen => 25,
        IntegerWidth::ThirtyTwo => 26,
        IntegerWidth::SixtyFour => 27,
        _ => value as u8,
    }
}

proof fn lemma_header(m: u8, value: u64, w: IntegerWidth, t: Seq<u8>)
    requires
        m < 8,
        fits(value, w),
    ensures
        additional_for(value, w) < 28,
        header_bytes(m, value, w).len() == 1 + argument_len(additional_for(value, w)),
        argument_width(additional_for(value, w)) == resolved_width(value, w),
        parse_head(header_bytes(m, value, w) + t) == Parsed::Done(
            Head { major: m, additional: additional_for(value, w), value },
            header_bytes(m, value, w).len(),
        ),
{
    let h = header_bytes(m, value, w);
    let s = h + t;
    let a = additional_for(value, w);
    let n = argument_len(a);
    match resolved_width(value, w) {
        IntegerWidth::Eight => {
            lemma_initial_byte(m, 24);
            assert(s.subrange(1, 2) =~= be_bytes(value, 1));
            lemma_be_1(value);
        },
        IntegerWidth::Sixteen => {
            lemma_initial_byte(m, 25);
            assert(s.subrange(1, 3) =~= be_bytes(value, 2));
            lemma_be_2(value);
        },
        IntegerWidth::ThirtyTwo => {
            lemma_initial_byte(m, 26);
            assert(s.subrange(1, 5) =~= be_bytes(value, 4));
            lemma_be_4(value);
        },
        IntegerWidth::SixtyFour => {
            lemma_initial_byte(m, 27);
            assert(s.subrange(1, 9) =~= be_bytes(value, 8));
            lemma_be_8(value);
        },
        _ => {
            assert(value < 24);
            lemma_initial_byte(m, value as u8);
        },
    }
}


proof fn lemma_float_initial_bytes()
    ensures
        initial_byte(7, 25) == 0xf9,
        initial_byte(7, 26) == 0xfa,
        initial_byte(7, 27) == 0xfb,
{
    assert(((7u8 << 5u8) | 25u8) as u8 == 0xf9 && ((7u8 << 5u8) | 26u8) as u8 == 0xfa
        && ((7u8 << 5u8) | 27u8) as u8 == 0xfb) by (bit_vector);
}

pub proof fn lemma_items_bytes_front(s: Seq<SpecItem>)
    requires
        s.len() > 0,
    ensures
        items_bytes(s) == item_bytes(s[0]) + items_bytes(s.skip(1)),
    decreases s.len(),
{
    if s.len() == 1 {
        assert(s.drop_last() =~= Seq::<SpecItem>::empty());
        assert(s.skip(1) =~= Seq::<SpecItem>::empty());
        assert(items_bytes(s.drop_last()) =~= Seq::<u8>::empty());
        assert(items_bytes(s.skip(1)) =~= Seq::<u8>::empty());
        assert(items_bytes(s) =~= item_bytes(s[0]) + items_bytes(s.skip(1)));
    } else {
        lemma_items_bytes_front(s.drop_last());
        assert(s.skip(1).drop_last() =~= s.drop_last().skip(1));
        assert(s.skip(1).last() == s.last());
        assert(items_bytes(s) =~= item_bytes(s[0]) + items_bytes(s.skip(1)));
    }
}

pub proof fn lemma_pairs_bytes_front(s: Seq<(SpecItem, SpecItem)>)
    requires
        s.len() > 0,
    ensures
        pairs_bytes(s) == item_bytes(s[0].0) + item_bytes(s[0].1) + pairs_bytes(s.skip(1)),
    decreases s.len(),
{
    if s.len() == 1 {
        assert(s.drop_last() =~= Seq::<(SpecItem, SpecItem)>::empty());
        assert(s.skip(1) =~= Seq::<(SpecItem, SpecItem)>::empty());
        assert(pairs_bytes(s.skip(1)) =~= Seq::<u8>::empty());
        assert(pairs_bytes(s) =~= item_bytes(s[0].0) + item_bytes(s[0].1) + pairs_bytes(s.skip(1)));
    } else {
        lemma_pairs_bytes_front(s.drop_last());
        assert(s.skip(1).drop_last() =~= s.drop_last().skip(1));
        assert(s.skip(1).last() == s.last());
        assert(pairs_bytes(s) =~= item_bytes(s[0].0) + item_bytes(s[0].1) + pairs_bytes(s.skip(1)));
    }
}

pub proof fn lemma_bytestrings_bytes_front(s: Seq<SpecBytes>)
    requires
        s.len() > 0,
    ensures
        bytestrings_bytes(s) == bytestring_bytes(s[0]) + bytestrings_bytes(s.skip(1)),
    decreases s.len(),
{
    if s.len() == 1 {
        assert(s.drop_last() =~= Seq::<SpecBytes>::empty());
        assert(s.skip(1) =~= Seq::<SpecBytes>::empty());
        assert(bytestrings_bytes(s.skip(1)) =~= Seq::<u8>::empty());
        assert(bytestrings_bytes(s) =~= bytestring_bytes(s[0]) + bytestrings_bytes(s.skip(1)));
    } else {
        lemma_bytestrings_bytes_front(s.drop_last());
        assert(s.skip(1).drop_last() =~= s.drop_last().skip(1));
        assert(s.skip(1).last() == s.last());
        assert(bytestrings_bytes(s) =~= bytestring_bytes(s[0]) + bytestrings_bytes(s.skip(1)));
    }
}

pub proof fn lemma_textstrings_bytes_front(s: Seq<SpecText>)
    requires
        s.len() > 0,
    ensures
        textstrings_bytes(s) == textstring_bytes(s[0]) + textstrings_bytes(s.skip(1)),
    decreases s.len(),
{
    if s.len() == 1 {
        assert(s.drop_last() =~= Seq::<SpecText>::empty());
        assert(s.skip(1) =~= Seq::<SpecText>::empty());
        assert(textstrings_bytes(s.skip(1)) =~= Seq::<u8>::empty());
        assert(textstrings_bytes(s) =~= textstring_bytes(s[0]) + textstrings_bytes(s.skip(1)));
    } else {
        lemma_textstrings_bytes_front(s.drop_last());
        assert(s.skip(1).drop_last() =~= s.drop_last().skip(1));
        assert(s.skip(1).last() == s.last());
        assert(textstrings_bytes(s) =~= textstring_bytes(s[0]) + textstrings_bytes(s.skip(1)));
    }
}

proof fn lemma_string_roundtrip(data: Seq<u8>, w: IntegerWidth, text: bool, t: Seq<u8>)
    requires
        length_fits(data.len(), w),
        text ==> valid_utf8(data),
    ensures
        parse_definite_string(header_bytes(if text { 3u8 } else { 2u8 }, data.len() as u64, w) + data + t, text)
            == Parsed::Done(
                if text {
                    SpecItem::TextString(SpecText { data: decode_utf8(data), bitwidth: resolved_width(data.len() as u64, w) })
                } else {
                    SpecItem::ByteString(SpecBytes { data, bitwidth: resolved_width(data.len() as u64, w) })
                },
                header_bytes(if text { 3u8 } else { 2u8 }, data.len() as u64, w).len() + data.len(),
            ),
{
    let m: u8 = if text { 3 } else { 2 };
    let h = header_bytes(m, data.len() as u64, w);
    lemma_header(m, data.len() as u64, w, data + t);
    assert(h + data + t =~= h + (data + t));
    let s = h + data + t;
    assert(s.skip(h.len() as int) =~= data + t);
    assert((data + t).take(data.len() as int) =~= data);
}

proof fn lemma_bytestring_chunks_roundtrip(cs: Seq<SpecBytes>, t: Seq<u8>)
    requires
        forall|i: int| 0 <= i < cs.len() ==> bytes_encodable(#[trigger] cs[i]),
    ensures
        parse_chunks(bytestrings_bytes(cs) + seq![0xffu8] + t, false) == Parsed::Done(
            cs.map_values(|b: SpecBytes| SpecItem::ByteString(normalized_bytes(b))),
            bytestrings_bytes(cs).len() + 1,
        ),
    decreases cs.len(),
{
    let s = bytestrings_bytes(cs) + seq![0xffu8] + t;
    if cs.len() == 0 {
        assert(bytestrings_bytes(cs) =~= Seq::<u8>::empty());
        assert(s[0] == 0xff);
        assert(cs.map_values(|b: SpecBytes| SpecItem::ByteString(normalized_bytes(b))) =~= Seq::<SpecItem>::empty());
    } else {
        let b = cs[0];
        let rest = cs.skip(1);
        assert forall|i: int| 0 <= i < rest.len() implies bytes_encodable(#[trigger] rest[i]) by {
            assert(rest[i] == cs[i + 1]);
        }
        lemma_bytestrings_bytes_front(cs);
        let tail = bytestrings_bytes(rest) + seq![0xffu8] + t;
        assert(s =~= bytestring_bytes(b) + tail);
        assert(bytestring_bytes(b) + tail =~= header_bytes(2, b.data.len() as u64, b.bitwidth) + b.data + tail);
        lemma_string_roundtrip(b.data, b.bitwidth, false, tail);
        lemma_header(2, b.data.len() as u64, b.bitwidth, b.data + tail);
        lemma_initial_byte(2, additional_for(b.data.len() as u64, b.bitwidth));
        lemma_break_byte();
        assert(s[0] != 0xff);
        let k = bytestring_bytes(b).len();
        assert(s.skip(k as int) =~= tail);
        lemma_bytestring_chunks_roundtrip(rest, t);
        assert(cs.map_values(|b: SpecBytes| SpecItem::ByteString(normalized_bytes(b)))
            =~= seq![SpecItem::ByteString(normalized_bytes(b))] + rest.map_values(|b: SpecBytes| SpecItem::ByteString(normalized_bytes(b))));
    }
}


proof fn lemma_textstring_chunks_roundtrip(cs: Seq<SpecText>, t: Seq<u8>)
    requires
        forall|i: int| 0 <= i < cs.len() ==> text_encodable(#[trigger] cs[i]),
    ensures
        parse_chunks(textstrings_bytes(cs) + seq![0xffu8] + t, true) == Parsed::Done(
            cs.map_values(|c: SpecText| SpecItem::TextString(normalized_text(c))),
            textstrings_bytes(cs).len() + 1,
        ),
    decreases cs.len(),
{
    let s = textstrings_bytes(cs) + seq![0xffu8] + t;
    if cs.len() == 0 {
        assert(textstrings_bytes(cs) =~= Seq::<u8>::empty());
        assert(s[0] == 0xff);
        assert(cs.map_values(|c: SpecText| SpecItem::TextString(normalized_text(c))) =~= Seq::<SpecItem>::empty());
    } else {
        let c = cs[0];
        let rest = cs.skip(1);
        assert forall|i: int| 0 <= i < rest.len() implies text_encodable(#[trigger] rest[i]) by {
            assert(rest[i] == cs[i + 1]);
        }
        lemma_textstrings_bytes_front(cs);
        let data = encode_utf8(c.data);
        let tail = textstrings_bytes(rest) + seq![0xffu8] + t;
        assert(s =~= textstring_bytes(c) + tail);
        assert(textstring_bytes(c) + tail =~= header_bytes(3, data.len() as u64, c.bitwidth) + data + tail);
        encode_utf8_valid_utf8(c.data);
        encode_utf8_decode_utf8(c.data);
        lemma_string_roundtrip(data, c.bitwidth, true, tail);
        lemma_header(3, data.len() as u64, c.bitwidth, data + tail);
        lemma_initial_byte(3, additional_for(data.len() as u64, c.bitwidth));
        lemma_break_byte();
        assert(s[0] != 0xff);
        let k = textstring_bytes(c).len();
        assert(s.skip(k as int) =~= tail);
        lemma_textstring_chunks_roundtrip(rest, t);
        assert(cs.map_values(|c: SpecText| SpecItem::TextString(normalized_text(c)))
            =~= seq![SpecItem::TextString(normalized_text(c))] + rest.map_values(|c: SpecText| SpecItem::TextString(normalized_text(c))));
    }
}

/// Every encodable data item parses back from its encoding, whatever follows it.
proof fn lemma_item_roundtrip(x: SpecItem, t: Seq<u8>)
    requires
        encodable(x),
    ensures
        item_bytes(x).len() > 0,
        parse_item(item_bytes(x) + t) == Parsed::Done(normalized(x), item_bytes(x).len()),
    decreases x, 3nat,
{
    let b = item_bytes(x);
    let s = b + t;
    match x {
        SpecItem::Integer { value, bitwidth } => {
            lemma_header(0, value, bitwidth, t);
        },
        SpecItem::Negative { value, bitwidth } => {
            lemma_header(1, value, bitwidth, t);
        },
        SpecItem::ByteString(bs) => {
            lemma_bytestring_item(bs, t);
        },
        SpecItem::TextString(ts) => {
            lemma_textstring_item(ts, t);
        },
        SpecItem::IndefiniteByteString(cs) => {
            lemma_indefinite_bytestring_item(cs, t);
        },
        SpecItem::IndefiniteTextString(cs) => {
            lemma_indefinite_textstring_item(cs, t);
        },
        SpecItem::Array { data, bitwidth } => {
            lemma_array_item(data, bitwidth, t);
        },
        SpecItem::Mapping { data, bitwidth } => {
            lemma_mapping_item(data, bitwidth, t);
        },
        SpecItem::Tag { tag, bitwidth, value } => {
            lemma_header(6, tag, bitwidth, item_bytes(*value) + t);
            let hl = header_bytes(6, tag, bitwidth).len();
            assert(s =~= header_bytes(6, tag, bitwidth) + (item_bytes(*value) + t));
            assert(s.skip(hl as int) =~= item_bytes(*value) + t);
            lemma_item_roundtrip(*value, t);
        },
        SpecItem::Float { value, bitwidth } => {
            lemma_float_initial_bytes();
            let w = match bitwidth {
                FloatWidth::Sixteen => IntegerWidth::Sixteen,
                FloatWidth::ThirtyTwo => IntegerWidth::ThirtyTwo,
                _ => IntegerWidth::SixtyFour,
            };
            assert(float_bytes(value, bitwidth) =~= header_bytes(7, value, w));
            lemma_header(7, value, w, t);
        },
        SpecItem::Simple(v) => {
            lemma_header(7, v as u64, IntegerWidth::Unknown, t);
        },
    }
}

proof fn lemma_bytestring_item(bs: SpecBytes, t: Seq<u8>)
    requires
        bytes_encodable(bs),
    ensures
        item_bytes(SpecItem::ByteString(bs)).len() > 0,
        parse_item(item_bytes(SpecItem::ByteString(bs)) + t)
            == Parsed::Done(normalized(SpecItem::ByteString(bs)), item_bytes(SpecItem::ByteString(bs)).len()),
{
    let s = item_bytes(SpecItem::ByteString(bs)) + t;
    lemma_header(2, bs.data.len() as u64, bs.bitwidth, bs.data + t);
    assert(s =~= header_bytes(2, bs.data.len() as u64, bs.bitwidth) + (bs.data + t));
    let hl = header_bytes(2, bs.data.len() as u64, bs.bitwidth).len();
    assert(s.skip(hl as int) =~= bs.data + t);
    assert((bs.data + t).take(bs.data.len() as int) =~= bs.data);
}

proof fn lemma_textstring_item(ts: SpecText, t: Seq<u8>)
    requires
        text_encodable(ts),
    ensures
        item_bytes(SpecItem::TextString(ts)).len() > 0,
        parse_item(item_bytes(SpecItem::TextString(ts)) + t)
            == Parsed::Done(normalized(SpecItem::TextString(ts)), item_bytes(SpecItem::TextString(ts)).len()),
{
    let s = item_bytes(SpecItem::TextString(ts)) + t;
    let data = encode_utf8(ts.data);
    encode_utf8_valid_utf8(ts.data);
    encode_utf8_decode_utf8(ts.data);
    lemma_header(3, data.len() as u64, ts.bitwidth, data + t);
    assert(s =~= header_bytes(3, data.len() as u64, ts.bitwidth) + (data + t));
    let hl = header_bytes(3, data.len() as u64, ts.bitwidth).len();
    assert(s.skip(hl as int) =~= data + t);
    assert((data + t).take(data.len() as int) =~= data);
}

proof fn lemma_indefinite_bytestring_item(cs: Seq<SpecBytes>, t: Seq<u8>)
    requires
        encodable(SpecItem::IndefiniteByteString(cs)),
    ensures
        item_bytes(SpecItem::IndefiniteByteString(cs)).len() > 0,
        parse_item(item_bytes(SpecItem::IndefiniteByteString(cs)) + t)
            == Parsed::Done(normalized(SpecItem::IndefiniteByteString(cs)), item_bytes(SpecItem::IndefiniteByteString(cs)).len()),
{
    lemma_indefinite_initial_bytes();
    lemma_initial_byte(2, 31);
    let s = item_bytes(SpecItem::IndefiniteByteString(cs)) + t;
    let rest = bytestrings_bytes(cs) + seq![0xffu8] + t;
    assert(s =~= seq![0x5fu8] + rest);
    assert(s.skip(1) =~= rest);
    lemma_bytestring_chunks_roundtrip(cs, t);
    let parsed = cs.map_values(|c: SpecBytes| SpecItem::ByteString(normalized_bytes(c)));
    assert(chunk_bytestrings(parsed) =~= cs.map_values(|c: SpecBytes| normalized_bytes(c)));
}

proof fn lemma_indefinite_textstring_item(cs: Seq<SpecText>, t: Seq<u8>)
    requires
        encodable(SpecItem::IndefiniteTextString(cs)),
    ensures
        item_bytes(SpecItem::IndefiniteTextString(cs)).len() > 0,
        parse_item(item_bytes(SpecItem::IndefiniteTextString(cs)) + t)
            == Parsed::Done(normalized(SpecItem::IndefiniteTextString(cs)), item_bytes(SpecItem::IndefiniteTextString(cs)).len()),
{
    lemma_indefinite_initial_bytes();
    lemma_initial_byte(3, 31);
    let s = item_bytes(SpecItem::IndefiniteTextString(cs)) + t;
    let rest = textstrings_bytes(cs) + seq![0xffu8] + t;
    assert(s =~= seq![0x7fu8] + rest);
    assert(s.skip(1) =~= rest);
    lemma_textstring_chunks_roundtrip(cs, t);
    let parsed = cs.map_values(|c: SpecText| SpecItem::TextString(normalized_text(c)));
    assert(chunk_textstrings(parsed) =~= cs.map_values(|c: SpecText| normalized_text(c)));
}

proof fn lemma_array_item(data: Seq<SpecItem>, bitwidth: Option<IntegerWidth>, t: Seq<u8>)
    requires
        encodable(SpecItem::Array { data, bitwidth }),
    ensures
        item_bytes(SpecItem::Array { data, bitwidth }).len() > 0,
        parse_item(item_bytes(SpecItem::Array { data, bitwidth }) + t)
            == Parsed::Done(normalized(SpecItem::Array { data, bitwidth }), item_bytes(SpecItem::Array { data, bitwidth }).len()),
    decreases data, 2nat,
{
    let x = SpecItem::Array { data, bitwidth };
    let s = item_bytes(x) + t;
    let norm = normalized_items(data);
    assert(normalized(x) == SpecItem::Array {
        data: norm,
        bitwidth: match bitwidth {
            Some(w) => Some(resolved_width(data.len() as u64, w)),
            None => None,
        },
    }) by {
        if let SpecItem::Array { data: d2, .. } = normalized(x) {
            assert(d2 =~= norm);
        }
    }
    match bitwidth {
        Some(w) => {
            lemma_header(4, data.len() as u64, w, items_bytes(data) + t);
            let hl = header_bytes(4, data.len() as u64, w).len();
            assert(s =~= header_bytes(4, data.len() as u64, w) + (items_bytes(data) + t));
            assert(s.skip(hl as int) =~= items_bytes(data) + t);
            lemma_items_roundtrip(data, t);
        },
        None => {
            lemma_indefinite_initial_bytes();
            lemma_initial_byte(4, 31);
            let rest = items_bytes(data) + seq![0xffu8] + t;
            assert(s =~= seq![0x9fu8] + rest);
            assert(s.skip(1) =~= rest);
            lemma_items_to_break_roundtrip(data, t);
        },
    }
}

proof fn lemma_mapping_item(data: Seq<(SpecItem, SpecItem)>, bitwidth: Option<IntegerWidth>, t: Seq<u8>)
    requires
        encodable(SpecItem::Mapping { data, bitwidth }),
    ensures
        item_bytes(SpecItem::Mapping { data, bitwidth }).len() > 0,
        parse_item(item_bytes(SpecItem::Mapping { data, bitwidth }) + t)
            == Parsed::Done(normalized(SpecItem::Mapping { data, bitwidth }), item_bytes(SpecItem::Mapping { data, bitwidth }).len()),
    decreases data, 2nat,
{
    let x = SpecItem::Mapping { data, bitwidth };
    let s = item_bytes(x) + t;
    let norm = normalized_pairs(data);
    assert(normalized(x) == SpecItem::Mapping {
        data: norm,
        bitwidth: match bitwidth {
            Some(w) => Some(resolved_width(data.len() as u64, w)),
            None => None,
        },
    }) by {
        if let SpecItem::Mapping { data: d2, .. } = normalized(x) {
            assert(d2 =~= norm);
        }
    }
    match bitwidth {
        Some(w) => {
            lemma_header(5, data.len() as u64, w, pairs_bytes(data) + t);
            let hl = header_bytes(5, data.len() as u64, w).len();
            assert(s =~= header_bytes(5, data.len() as u64, w) + (pairs_bytes(data) + t));
            assert(s.skip(hl as int) =~= pairs_bytes(data) + t);
            lemma_pairs_roundtrip(data, t);
        },
        None => {
            lemma_indefinite_initial_bytes();
            lemma_initial_byte(5, 31);
            let rest = pairs_bytes(data) + seq![0xffu8] + t;
            assert(s =~= seq![0xbfu8] + rest);
            assert(s.skip(1) =~= rest);
            lemma_pairs_to_break_roundtrip(data, t);
        },
    }
}

/// A counted sequence of encodable items parses back from its encoding.
proof fn lemma_items_roundtrip(data: Seq<SpecItem>, t: Seq<u8>)
    requires
        forall|i: int| 0 <= i < data.len() ==> encodable(#[trigger] data[i]),
    ensures
        parse_items(items_bytes(data) + t, data.len()) == Parsed::Done(normalized_items(data), items_bytes(data).len()),
    decreases data, 1nat,
{
    if data.len() == 0 {
        assert(items_bytes(data) + t =~= t);
        assert(normalized_items(data) =~= Seq::<SpecItem>::empty());
    } else {
        let rest = data.skip(1);
        assert forall|i: int| 0 <= i < rest.len() implies encodable(#[trigger] rest[i]) by {
            assert(rest[i] == data[i + 1]);
        }
        lemma_items_bytes_front(data);
        let tail = items_bytes(rest) + t;
        assert(items_bytes(data) + t =~= item_bytes(data[0]) + tail);
        lemma_item_roundtrip(data[0], tail);
        let k = item_bytes(data[0]).len();
        assert((item_bytes(data[0]) + tail).skip(k as int) =~= tail);
        lemma_items_roundtrip(rest, t);
        assert(normalized_items(data) =~= seq![normalized(data[0])] + normalized_items(rest));
    }
}

/// A break-terminated sequence of encodable items parses back from its encoding.
proof fn lemma_items_to_break_roundtrip(data: Seq<SpecItem>, t: Seq<u8>)
    requires
        forall|i: int| 0 <= i < data.len() ==> encodable(#[trigger] data[i]),
    ensures
        parse_items_to_break(items_bytes(data) + seq![0xffu8] + t)
            == Parsed::Done(normalized_items(data), items_bytes(data).len() + 1),
    decreases data, 1nat,
{
    let s = items_bytes(data) + seq![0xffu8] + t;
    if data.len() == 0 {
        assert(items_bytes(data) =~= Seq::<u8>::empty());
        assert(s[0] == 0xff);
        assert(normalized_items(data) =~= Seq::<SpecItem>::empty());
    } else {
        let rest = data.skip(1);
        assert forall|i: int| 0 <= i < rest.len() implies encodable(#[trigger] rest[i]) by {
            assert(rest[i] == data[i + 1]);
        }
        lemma_items_bytes_front(data);
        let tail = items_bytes(rest) + seq![0xffu8] + t;
        assert(s =~= item_bytes(data[0]) + tail);
        lemma_item_roundtrip(data[0], tail);
        lemma_break_byte();
        if s[0] == 0xff {
            assert(parse_head(s) == Parsed::Done(Head { major: 7, additional: 31, value: 0 }, 1));
            assert(false);
        }
        let k = item_bytes(data[0]).len();
        assert(s.skip(k as int) =~= tail);
        lemma_items_to_break_roundtrip(rest, t);
        assert(normalized_items(data) =~= seq![normalized(data[0])] + normalized_items(rest));
    }
}

/// An encodable key followed by an encodable value parses back.
proof fn lemma_pair_roundtrip(p: (SpecItem, SpecItem), t: Seq<u8>)
    requires
        encodable(p.0),
        encodable(p.1),
    ensures
        item_bytes(p.0).len() > 0,
        parse_pair(item_bytes(p.0) + item_bytes(p.1) + t)
            == Parsed::Done((normalized(p.0), normalized(p.1)), item_bytes(p.0).len() + item_bytes(p.1).len()),
    decreases p, 0nat,
{
    let kb = item_bytes(p.0);
    let vb = item_bytes(p.1);
    let s = kb + vb + t;
    assert(s =~= kb + (vb + t));
    lemma_item_roundtrip(p.0, vb + t);
    assert(s.skip(kb.len() as int) =~= vb + t);
    lemma_item_roundtrip(p.1, t);
}

/// A counted sequence of encodable pairs parses back from its encoding.
#[verifier::spinoff_prover]
#[verifier::rlimit(40)]
proof fn lemma_pairs_roundtrip(data: Seq<(SpecItem, SpecItem)>, t: Seq<u8>)
    requires
        forall|i: int| 0 <= i < data.len() ==> encodable(#[trigger] data[i].0) && encodable(data[i].1),
    ensures
        parse_pairs(pairs_bytes(data) + t, data.len()) == Parsed::Done(normalized_pairs(data), pairs_bytes(data).len()),
    decreases data, 1nat,
{
    if data.len() == 0 {
        assert(pairs_bytes(data) + t =~= t);
        assert(normalized_pairs(data) =~= Seq::<(SpecItem, SpecItem)>::empty());
    } else {
        let rest = data.skip(1);
        assert forall|i: int| 0 <= i < rest.len() implies encodable(#[trigger] rest[i].0) && encodable(rest[i].1) by {
            assert(rest[i] == data[i + 1]);
            assert(encodable(data[i + 1].0) && encodable(data[i + 1].1));
        }
        lemma_pairs_bytes_front(data);
        let tail = pairs_bytes(rest) + t;
        let p = data[0];
        assert(encodable(data[0].0) && encodable(data[0].1));
        assert(pairs_bytes(data) + t =~= item_bytes(p.0) + item_bytes(p.1) + tail);
        lemma_pair_roundtrip(p, tail);
        let k = item_bytes(p.0).len() + item_bytes(p.1).len();
        assert((item_bytes(p.0) + item_bytes(p.1) + tail).skip(k as int) =~= tail);
        lemma_pairs_roundtrip(rest, t);
        assert(normalized_pairs(data) =~= seq![(normalized(p.0), normalized(p.1))] + normalized_pairs(rest));
    }
}

/// A break-terminated sequence of encodable pairs parses back from its encoding.
#[verifier::spinoff_prover]
#[verifier::rlimit(40)]
proof fn lemma_pairs_to_break_roundtrip(data: Seq<(SpecItem, SpecItem)>, t: Seq<u8>)
    requires
        forall|i: int| 0 <= i < data.len() ==> encodable(#[trigger] data[i].0) && encodable(data[i].1),
    ensures
        parse_pairs_to_break(pairs_bytes(data) + seq![0xffu8] + t)
            == Parsed::Done(normalized_pairs(data), pairs_bytes(data).len() + 1),
    decreases data, 1nat,
{
    let s = pairs_bytes(data) + seq![0xffu8] + t;
    if data.len() == 0 {
        assert(pairs_bytes(data) =~= Seq::<u8>::empty());
        assert(s[0] == 0xff);
        assert(normalized_pairs(data) =~= Seq::<(SpecItem, SpecItem)>::empty());
    } else {
        let rest = data.skip(1);
        assert forall|i: int| 0 <= i < rest.len() implies encodable(#[trigger] rest[i].0) && encodable(rest[i].1) by {
            assert(rest[i] == data[i + 1]);
            assert(encodable(data[i + 1].0) && encodable(data[i + 1].1));
        }
        lemma_pairs_bytes_front(data);
        let tail = pairs_bytes(rest) + seq![0xffu8] + t;
        let p = data[0];
        assert(encodable(data[0].0) && encodable(data[0].1));
        assert(s =~= item_bytes(p.0) + item_bytes(p.1) + tail);
        lemma_pair_roundtrip(p, tail);
        lemma_break_byte();
        if s[0] == 0xff {
            assert(s =~= item_bytes(p.0) + (item_bytes(p.1) + tail));
            lemma_item_roundtrip(p.0, item_bytes(p.1) + tail);
            assert(parse_head(s) == Parsed::Done(Head { major: 7, additional: 31, value: 0 }, 1));
            assert(false);
        }
        let k = item_bytes(p.0).len() + item_bytes(p.1).len();
        assert(s.skip(k as int) =~= tail);
        lemma_pairs_to_break_roundtrip(rest, t);
        assert(normalized_pairs(data) =~= seq![(normalized(p.0), normalized(p.1))] + normalized_pairs(rest));
    }
}


/// Binary round trip: a data item whose lengths and values fit the widths
/// given for them is parsed back from its binary encoding, followed by any
/// bytes at all, as the same item with every unknown width replaced by the
/// width the encoder chose; the parse uses exactly the encoding's bytes.
pub proof fn law_bytes_roundtrip(item: SpecItem, rest: Seq<u8>)
    requires
        encodable(item),
    ensures
        parse_item(item_bytes(item) + rest) == Parsed::Done(normalized(item), item_bytes(item).len()),
        widths_given(item) ==> normalized(item) == item,
{
    lemma_item_roundtrip(item, rest);
    if widths_given(item) {
        lemma_normalized_given(item);
    }
}

/// An item whose widths are all given is its own normal form.
pub proof fn lemma_normalized_given(x: SpecItem)
    requires
        widths_given(x),
    ensures
        normalized(x) == x,
    decreases x,
{
    match x {
        SpecItem::IndefiniteByteString(s) => {
            assert(s.map_values(|b: SpecBytes| normalized_bytes(b)) =~= s);
        },
        SpecItem::IndefiniteTextString(s) => {
            assert(s.map_values(|t: SpecText| normalized_text(t)) =~= s);
        },
        SpecItem::Array { data, bitwidth } => {
            assert forall|i: int| 0 <= i < data.len() implies normalized(#[trigger] data[i]) == data[i] by {
                lemma_normalized_given(data[i]);
            }
            assert(normalized(x)->Array_data =~= data);
        },
        SpecItem::Mapping { data, bitwidth } => {
            assert forall|i: int| 0 <= i < data.len() implies normalized(#[trigger] data[i].0) == data[i].0
                && normalized(data[i].1) == data[i].1 by {
                lemma_normalized_given(data[i].0);
                lemma_normalized_given(data[i].1);
            }
            assert(normalized(x)->Mapping_data =~= data);
        },
        SpecItem::Tag { tag, bitwidth, value } => {
            lemma_normalized_given(*value);
        },
        _ => {},
    }
}

/// Parsing a whole input and parsing an item at its start agree:
/// `parse_bytes` succeeds exactly when `parse_bytes_partial` finds an item
/// that uses every byte, and then both give the same item; where the input
/// ends within an item, `parse_bytes` reports it incomplete; where it is not
/// a valid encoding, both fail.
pub proof fn law_partial_agrees(
    bytes: Seq<u8>,
    whole: Result<DataItem>,
    partial: Result<Option<(DataItem, usize)>>,
)
    requires
        parse_bytes_gives(bytes, whole),
        parse_bytes_partial_gives(bytes, partial),
    ensures
        whole is Ok <==> (partial matches Ok(Some((_, n))) && n == bytes.len()),
        whole matches Ok(x) ==> (partial matches Ok(Some((y, _))) && y@ == x@),
        partial matches Ok(None) ==> (whole matches Err(e) && e.message() == incomplete_message()),
        partial is Err ==> (whole matches Err(e) && e.message() == invalid_message()),
{
}

/// Whether `s` and `t` both have at least `k` bytes and agree on the
/// first `k`.
pub open spec fn agree(s: Seq<u8>, t: Seq<u8>, k: nat) -> bool {
    k <= s.len() && k <= t.len() && forall|i: int| 0 <= i < k ==> s[i] == t[i]
}

proof fn lemma_agree_skip(s: Seq<u8>, t: Seq<u8>, k: nat, j: nat)
    requires
        agree(s, t, k),
        j <= k,
    ensures
        agree(s.skip(j as int), t.skip(j as int), (k - j) as nat),
{
    assert forall|i: int| 0 <= i < k - j implies #[trigger] s.skip(j as int)[i] == t.skip(j as int)[i] by {
        assert(s[i + j] == t[i + j]);
    }
}

proof fn lemma_head_prefix(s: Seq<u8>, t: Seq<u8>, k: nat)
    ensures
        parse_head(s) matches Parsed::Done(_, hl) ==> hl <= s.len(),
        parse_head(s) matches Parsed::Done(_, hl) && hl <= k && agree(s, t, k) ==> parse_head(t) == parse_head(s),
{
    if let Parsed::Done(h, hl) = parse_head(s) {
        if hl <= k && agree(s, t, k) {
            assert(s[0] == t[0]);
            let n = argument_len(s[0] & 0x1fu8);
            if (s[0] & 0x1fu8) >= 24 && (s[0] & 0x1fu8) < 28 {
                assert(s.subrange(1, 1 + n as int) =~= t.subrange(1, 1 + n as int)) by {
                    assert forall|i: int| 0 <= i < n implies #[trigger] s.subrange(1, 1 + n as int)[i] == t.subrange(1, 1 + n as int)[i] by {
                        assert(s[1 + i] == t[1 + i]);
                    }
                }
            }
        }
    }
}

proof fn lemma_definite_string_prefix(s: Seq<u8>, t: Seq<u8>, text: bool)
    ensures
        parse_definite_string(s, text) matches Parsed::Done(_, k) ==> k <= s.len()
            && (agree(s, t, k) ==> parse_definite_string(t, text) == parse_definite_string(s, text)),
{
    if let Parsed::Done(x, k) = parse_definite_string(s, text) {
        lemma_head_prefix(s, t, k);
        let hl = parse_head(s)->Done_1;
        let h = parse_head(s)->Done_0;
        if agree(s, t, k) {
            lemma_agree_skip(s, t, k, hl);
            let r = s.skip(hl as int);
            let r2 = t.skip(hl as int);
            assert(r.take(h.value as int) =~= r2.take(h.value as int)) by {
                assert forall|i: int| 0 <= i < h.value implies #[trigger] r.take(h.value as int)[i] == r2.take(h.value as int)[i] by {
                    assert(r[i] == r2[i]);
                }
            }
        }
    }
}

proof fn lemma_chunks_prefix(s: Seq<u8>, t: Seq<u8>, text: bool)
    ensures
        parse_chunks(s, text) matches Parsed::Done(_, k) ==> k <= s.len()
            && (agree(s, t, k) ==> parse_chunks(t, text) == parse_chunks(s, text)),
    decreases s.len(),
{
    if s.len() > 0 && s[0] != 0xff {
        if let Parsed::Done(x, k) = parse_definite_string(s, text) {
            if 0 < k <= s.len() {
                let rest = s.skip(k as int);
                let rest2 = t.skip(k as int);
                lemma_chunks_prefix(rest, rest2, text);
                if let Parsed::Done(xs, k2) = parse_chunks(rest, text) {
                    if agree(s, t, k + k2) {
                        assert(s[0] == t[0]);
                        lemma_definite_string_prefix(s, t, text);
                        lemma_agree_skip(s, t, k + k2, k);
                    }
                }
            }
        }
    } else if s.len() > 0 {
        if agree(s, t, 1) {
            assert(s[0] == t[0]);
        }
    }
}

proof fn lemma_item_prefix(s: Seq<u8>, t: Seq<u8>)
    ensures
        parse_item(s) matches Parsed::Done(_, k) ==> k <= s.len()
            && (agree(s, t, k) ==> parse_item(t) == parse_item(s)),
    decreases s.len(), 0nat, 0nat,
{
    if let Parsed::Done(h, hl) = parse_head(s) {
        if 0 < hl <= s.len() {
            let rest = s.skip(hl as int);
            let rest2 = t.skip(hl as int);
            lemma_head_prefix(s, t, hl);
            if let Parsed::Done(x, k) = parse_item(s) {
                if agree(s, t, k) {
                    lemma_head_prefix(s, t, k);
                    lemma_agree_skip(s, t, k, hl);
                }
            }
            if h.major == 2 || h.major == 3 {
                if h.additional == 31 {
                    lemma_chunks_prefix(rest, rest2, h.major == 3);
                } else if let Parsed::Done(x, k) = parse_item(s) {
                    if agree(s, t, k) {
                        assert(rest.take(h.value as int) =~= rest2.take(h.value as int)) by {
                            assert forall|i: int| 0 <= i < h.value implies #[trigger] rest.take(h.value as int)[i] == rest2.take(h.value as int)[i] by {
                                assert(rest[i] == rest2[i]);
                            }
                        }
                    }
                }
            } else if h.major == 4 {
                if h.additional == 31 {
                    lemma_items_to_break_prefix(rest, rest2);
                } else {
                    lemma_items_prefix(rest, rest2, (h.value as usize) as nat);
                }
            } else if h.major == 5 {
                if h.additional == 31 {
                    lemma_pairs_to_break_prefix(rest, rest2);
                } else {
                    lemma_pairs_prefix(rest, rest2, (h.value as usize) as nat);
                }
            } else if h.major == 6 && h.additional != 31 {
                lemma_item_prefix(rest, rest2);
            }
        }
    }
}

proof fn lemma_items_prefix(s: Seq<u8>, t: Seq<u8>, n: nat)
    ensures
        parse_items(s, n) matches Parsed::Done(_, k) ==> k <= s.len()
            && (agree(s, t, k) ==> parse_items(t, n) == parse_items(s, n)),
    decreases s.len(), 1nat, n,
{
    if n > 0 {
        lemma_item_prefix(s, t);
        if let Parsed::Done(x, k) = parse_item(s) {
            if 0 < k <= s.len() {
                let rest = s.skip(k as int);
                lemma_items_prefix(rest, t.skip(k as int), (n - 1) as nat);
                if let Parsed::Done(xs, k2) = parse_items(rest, (n - 1) as nat) {
                    if agree(s, t, k + k2) {
                        lemma_item_prefix(s, t);
                        lemma_agree_skip(s, t, k + k2, k);
                    }
                }
            }
        }
    }
}

proof fn lemma_items_to_break_prefix(s: Seq<u8>, t: Seq<u8>)
    ensures
        parse_items_to_break(s) matches Parsed::Done(_, k) ==> k <= s.len()
            && (agree(s, t, k) ==> parse_items_to_break(t) == parse_items_to_break(s)),
    decreases s.len(), 1nat, 0nat,
{
    if s.len() > 0 && s[0] != 0xff {
        lemma_item_prefix(s, t);
        if let Parsed::Done(x, k) = parse_item(s) {
            if 0 < k <= s.len() {
                let rest = s.skip(k as int);
                lemma_items_to_break_prefix(rest, t.skip(k as int));
                if let Parsed::Done(xs, k2) = parse_items_to_break(rest) {
                    if agree(s, t, k + k2) {
                        assert(s[0] == t[0]);
                        lemma_agree_skip(s, t, k + k2, k);
                    }
                }
            }
        }
    } else if s.len() > 0 {
        if agree(s, t, 1) {
            assert(s[0] == t[0]);
        }
    }
}

proof fn lemma_pair_prefix(s: Seq<u8>, t: Seq<u8>)
    ensures
        parse_pair(s) matches Parsed::Done(_, k) ==> k <= s.len()
            && (agree(s, t, k) ==> parse_pair(t) == parse_pair(s)),
    decreases s.len(), 1nat, 0nat,
{
    lemma_item_prefix(s, t);
    if let Parsed::Done(x, k) = parse_item(s) {
        if 0 < k <= s.len() {
            let rest = s.skip(k as int);
            lemma_item_prefix(rest, t.skip(k as int));
            if let Parsed::Done(y, k2) = parse_item(rest) {
                if agree(s, t, k + k2) {
                    lemma_agree_skip(s, t, k + k2, k);
                }
            }
        }
    }
}

proof fn lemma_pairs_prefix(s: Seq<u8>, t: Seq<u8>, n: nat)
    ensures
        parse_pairs(s, n) matches Parsed::Done(_, k) ==> k <= s.len()
            && (agree(s, t, k) ==> parse_pairs(t, n) == parse_pairs(s, n)),
    decreases s.len(), 2nat, n,
{
    if n > 0 {
        lemma_pair_prefix(s, t);
        if let Parsed::Done(x, k) = parse_pair(s) {
            if 0 < k <= s.len() {
                let rest = s.skip(k as int);
                lemma_pairs_prefix(rest, t.skip(k as int), (n - 1) as nat);
                if let Parsed::Done(xs, k2) = parse_pairs(rest, (n - 1) as nat) {
                    if agree(s, t, k + k2) {
                        lemma_agree_skip(s, t, k + k2, k);
                    }
                }
            }
        }
    }
}

proof fn lemma_pairs_to_break_prefix(s: Seq<u8>, t: Seq<u8>)
    ensures
        parse_pairs_to_break(s) matches Parsed::Done(_, k) ==> k <= s.len()
            && (agree(s, t, k) ==> parse_pairs_to_break(t) == parse_pairs_to_break(s)),
    decreases s.len(), 2nat, 0nat,
{
    if s.len() > 0 && s[0] != 0xff {
        lemma_pair_prefix(s, t);
        if let Parsed::Done(x, k) = parse_pair(s) {
            if 0 < k <= s.len() {
                let rest = s.skip(k as int);
                lemma_pairs_to_break_prefix(rest, t.skip(k as int));
                if let Parsed::Done(xs, k2) = parse_pairs_to_break(rest) {
                    if agree(s, t, k + k2) {
                        assert(s[0] == t[0]);
                        lemma_agree_skip(s, t, k + k2, k);
                    }
                }
            }
        }
    } else if s.len() > 0 {
        if agree(s, t, 1) {
            assert(s[0] == t[0]);
        }
    }
}

/// What `parse_bytes_partial` reads is all it depends on: where it finds an
/// item using `k` bytes, those `k` bytes alone, or followed by any others,
/// parse as the same item using the same `k` bytes. In particular
/// `parse_bytes` of the prefix it used gives the item.
pub proof fn law_partial_prefix(bytes: Seq<u8>, rest: Seq<u8>)
    ensures
        parse_item(bytes) matches Parsed::Done(x, k) ==> {
            &&& k <= bytes.len()
            &&& parse_item(bytes.take(k as int)) == Parsed::Done(x, k)
            &&& parse_item(bytes.take(k as int) + rest) == Parsed::Done(x, k)
            &&& forall|r: Result<DataItem>| #[trigger] parse_bytes_gives(bytes.take(k as int), r)
                ==> (r matches Ok(y) && y@ == x)
        },
{
    if let Parsed::Done(x, k) = parse_item(bytes) {
        let p = bytes.take(k as int);
        lemma_item_prefix(bytes, p);
        lemma_item_prefix(bytes, p + rest);
        assert(agree(bytes, p, k));
        assert(agree(bytes, p + rest, k)) by {
            assert forall|i: int| 0 <= i < k implies #[trigger] bytes[i] == (p + rest)[i] by {}
        }
    }
}

proof fn lemma_take_skip(s: Seq<u8>, j: nat, h: nat)
    requires
        h <= j <= s.len(),
    ensures
        s.take(j as int).skip(h as int) =~= s.skip(h as int).take(j - h),
        agree(s, s.take(j as int), h),
{
}

proof fn lemma_head_incomplete(s: Seq<u8>, j: nat)
    ensures
        parse_head(s) matches Parsed::Done(_, hl) && j < hl ==> parse_head(s.take(j as int)) == Parsed::<Head>::Incomplete,
{
    if let Parsed::Done(h, hl) = parse_head(s) {
        if j < hl && j > 0 {
            assert(s.take(j as int)[0] == s[0]);
        }
    }
}

proof fn lemma_string_body_incomplete(rest: Seq<u8>, value: u64, w: IntegerWidth, text: bool, hl: nat, j: nat)
    ensures
        parse_string_body(rest, value, w, text, hl) matches Parsed::Done(_, k) && j + hl < k
            ==> parse_string_body(rest.take(j as int), value, w, text, hl) == Parsed::<SpecItem>::Incomplete,
{
}

proof fn lemma_definite_string_incomplete(s: Seq<u8>, text: bool, j: nat)
    ensures
        parse_definite_string(s, text) matches Parsed::Done(_, k) && j < k
            ==> parse_definite_string(s.take(j as int), text) == Parsed::<SpecItem>::Incomplete,
{
    lemma_definite_string_prefix(s, s, text);
    if let Parsed::Done(x, k) = parse_definite_string(s, text) {
        if j < k {
            lemma_head_prefix(s, s.take(j as int), j);
            lemma_head_incomplete(s, j);
            let h = parse_head(s)->Done_0;
            let hl = parse_head(s)->Done_1;
            if j >= hl {
                lemma_take_skip(s, j, hl);
                lemma_head_prefix(s, s.take(j as int), hl);
                lemma_string_body_incomplete(s.skip(hl as int), h.value, argument_width(h.additional), text, hl, (j - hl) as nat);
            }
        }
    }
}

proof fn lemma_chunks_incomplete(s: Seq<u8>, text: bool, j: nat)
    ensures
        parse_chunks(s, text) matches Parsed::Done(_, k) && j < k
            ==> parse_chunks(s.take(j as int), text) == Parsed::<Seq<SpecItem>>::Incomplete,
    decreases s.len(),
{
    lemma_chunks_prefix(s, s, text);
    if let Parsed::Done(xs, k) = parse_chunks(s, text) {
        if j < k && j > 0 {
            let p = s.take(j as int);
            assert(j <= s.len());
            assert(p[0] == s[0]);
            if let Parsed::Done(x, k1) = parse_definite_string(s, text) {
                if j < k1 {
                    lemma_definite_string_incomplete(s, text, j);
                } else {
                    lemma_definite_string_prefix(s, p, text);
                    lemma_take_skip(s, j, k1);
                    lemma_chunks_incomplete(s.skip(k1 as int), text, (j - k1) as nat);
                }
            }
        }
    }
}

proof fn lemma_item_incomplete(s: Seq<u8>, j: nat)
    ensures
        parse_item(s) matches Parsed::Done(_, k) && j < k ==> parse_item(s.take(j as int)) == Parsed::<SpecItem>::Incomplete,
    decreases s.len(), 0nat, 0nat,
{
    lemma_item_prefix(s, s);
    if let Parsed::Done(x, k) = parse_item(s) {
        if j < k {
            let p = s.take(j as int);
            lemma_head_incomplete(s, j);
            let h = parse_head(s)->Done_0;
            let hl = parse_head(s)->Done_1;
            if j >= hl {
                lemma_take_skip(s, j, hl);
                lemma_head_prefix(s, p, hl);
                let rest = s.skip(hl as int);
                let jj = (j - hl) as nat;
                if h.major == 2 || h.major == 3 {
                    if h.additional == 31 {
                        lemma_chunks_incomplete(rest, h.major == 3, jj);
                    } else {
                        lemma_string_body_incomplete(rest, h.value, argument_width(h.additional), h.major == 3, hl, jj);
                    }
                } else if h.major == 4 {
                    if h.additional == 31 {
                        lemma_items_to_break_incomplete(rest, jj);
                    } else {
                        lemma_items_incomplete(rest, (h.value as usize) as nat, jj);
                    }
                } else if h.major == 5 {
                    if h.additional == 31 {
                        lemma_pairs_to_break_incomplete(rest, jj);
                    } else {
                        lemma_pairs_incomplete(rest, (h.value as usize) as nat, jj);
                    }
                } else if h.major == 6 {
                    lemma_item_incomplete(rest, jj);
                }
            }
        }
    }
}

proof fn lemma_items_incomplete(s: Seq<u8>, n: nat, j: nat)
    ensures
        parse_items(s, n) matches Parsed::Done(_, k) && j < k ==> parse_items(s.take(j as int), n) == Parsed::<Seq<SpecItem>>::Incomplete,
    decreases s.len(), 1nat, n,
{
    lemma_items_prefix(s, s, n);
    if let Parsed::Done(xs, k) = parse_items(s, n) {
        if j < k && n > 0 {
            let p = s.take(j as int);
            let k1 = parse_item(s)->Done_1;
            if j < k1 {
                lemma_item_incomplete(s, j);
            } else {
                lemma_item_prefix(s, p);
                lemma_take_skip(s, j, k1);
                lemma_items_incomplete(s.skip(k1 as int), (n - 1) as nat, (j - k1) as nat);
            }
        }
    }
}

proof fn lemma_items_to_break_incomplete(s: Seq<u8>, j: nat)
    ensures
        parse_items_to_break(s) matches Parsed::Done(_, k) && j < k
            ==> parse_items_to_break(s.take(j as int)) == Parsed::<Seq<SpecItem>>::Incomplete,
    decreases s.len(), 1nat, 0nat,
{
    lemma_items_to_break_prefix(s, s);
    if let Parsed::Done(xs, k) = parse_items_to_break(s) {
        if j < k && j > 0 {
            let p = s.take(j as int);
            assert(j <= s.len());
            assert(p[0] == s[0]);
            let k1 = parse_item(s)->Done_1;
            if j < k1 {
                lemma_item_incomplete(s, j);
            } else {
                lemma_item_prefix(s, p);
                lemma_take_skip(s, j, k1);
                lemma_items_to_break_incomplete(s.skip(k1 as int), (j - k1) as nat);
            }
        }
    }
}

proof fn lemma_pair_incomplete(s: Seq<u8>, j: nat)
    ensures
        parse_pair(s) matches Parsed::Done(_, k) && j < k ==> parse_pair(s.take(j as int)) == Parsed::<(SpecItem, SpecItem)>::Incomplete,
    decreases s.len(), 1nat, 0nat,
{
    lemma_pair_prefix(s, s);
    if let Parsed::Done(xs, k) = parse_pair(s) {
        if j < k {
            let p = s.take(j as int);
            let k1 = parse_item(s)->Done_1;
            if j < k1 {
                lemma_item_incomplete(s, j);
            } else {
                lemma_item_prefix(s, p);
                lemma_take_skip(s, j, k1);
                lemma_item_incomplete(s.skip(k1 as int), (j - k1) as nat);
            }
        }
    }
}

proof fn lemma_pairs_incomplete(s: Seq<u8>, n: nat, j: nat)
    ensures
        parse_pairs(s, n) matches Parsed::Done(_, k) && j < k
            ==> parse_pairs(s.take(j as int), n) == Parsed::<Seq<(SpecItem, SpecItem)>>::Incomplete,
    decreases s.len(), 2nat, n,
{
    lemma_pairs_prefix(s, s, n);
    if let Parsed::Done(xs, k) = parse_pairs(s, n) {
        if j < k && n > 0 {
            let p = s.take(j as int);
            let k1 = parse_pair(s)->Done_1;
            if j < k1 {
                lemma_pair_incomplete(s, j);
            } else {
                lemma_pair_prefix(s, p);
                lemma_take_skip(s, j, k1);
                lemma_pairs_incomplete(s.skip(k1 as int), (n - 1) as nat, (j - k1) as nat);
            }
        }
    }
}

proof fn lemma_pairs_to_break_incomplete(s: Seq<u8>, j: nat)
    ensures
        parse_pairs_to_break(s) matches Parsed::Done(_, k) && j < k
            ==> parse_pairs_to_break(s.take(j as int)) == Parsed::<Seq<(SpecItem, SpecItem)>>::Incomplete,
    decreases s.len(), 2nat, 0nat,
{
    lemma_pairs_to_break_prefix(s, s);
    if let Parsed::Done(xs, k) = parse_pairs_to_break(s) {
        if j < k && j > 0 {
            let p = s.take(j as int);
            assert(j <= s.len());
            assert(p[0] == s[0]);
            let k1 = parse_pair(s)->Done_1;
            if j < k1 {
                lemma_pair_incomplete(s, j);
            } else {
                lemma_pair_prefix(s, p);
                lemma_take_skip(s, j, k1);
                lemma_pairs_to_break_incomplete(s.skip(k1 as int), (j - k1) as nat);
            }
        }
    }
}

/// Input that ends within a data item is incomplete, never invalid: every
/// proper prefix of the bytes that a parse used parses as incomplete, so
/// `parse_bytes_partial` answers `Ok(None)` on it and waits for more. In
/// particular every proper prefix of the encoding of an encodable item,
/// indefinite length arrays, maps and strings cut before their break byte
/// included, is incomplete.
pub proof fn law_prefix_incomplete(s: Seq<u8>, j: nat, x: SpecItem)
    ensures
        parse_item(s) matches Parsed::Done(_, k) && j < k ==> parse_item(s.take(j as int)) == Parsed::<SpecItem>::Incomplete,
        encodable(x) && j < item_bytes(x).len() ==> parse_item(item_bytes(x).take(j as int)) == Parsed::<SpecItem>::Incomplete,
        encodable(x) && j < item_bytes(x).len() ==> forall|r: Result<Option<(DataItem, usize)>>|
            #[trigger] parse_bytes_partial_gives(item_bytes(x).take(j as int), r) ==> r == Ok::<Option<(DataItem, usize)>, crate::error::Error>(None),
{
    lemma_item_incomplete(s, j);
    if encodable(x) && j < item_bytes(x).len() {
        law_bytes_roundtrip(x, Seq::empty());
        assert(item_bytes(x) + Seq::<u8>::empty() =~= item_bytes(x));
        lemma_item_incomplete(item_bytes(x), j);
    }
}

/// Escaping text is done character by character.
proof fn lemma_escape_concat(a: Seq<char>, b: Seq<char>)
    ensures
        escape_quoted(a + b) == escape_quoted(a) + escape_quoted(b),
    decreases b.len(),
{
    if b.len() > 0 {
        lemma_escape_concat(a, b.drop_last());
        assert((a + b).drop_last() =~= a + b.drop_last());
        assert(escape_quoted(a + b) =~= escape_quoted(a) + escape_quoted(b));
    } else {
        assert(a + b =~= a);
        assert(escape_quoted(b) =~= Seq::<char>::empty());
        assert(escape_quoted(a) + escape_quoted(b) =~= escape_quoted(a));
    }
}

/// Reading escaped text that is followed by a quote gives the text back.
proof fn lemma_escaped_reads_back(t: Seq<char>, s: Seq<char>, start: nat, k: nat)
    requires
        start <= k,
        k > start || t.len() > 0,
        k + escape_quoted(t).len() < s.len(),
        forall|i: int| 0 <= i < escape_quoted(t).len() ==> s[k + i] == #[trigger] escape_quoted(t)[i],
        s[k + escape_quoted(t).len() as int] == '"',
    ensures
        escaped_from(s, start, k, '"') == Some((t, k + escape_quoted(t).len())),
    decreases t.len(),
{
    let e = escape_quoted(t);
    if t.len() == 0 {
        assert(e =~= Seq::<char>::empty());
        assert(s[k as int] == '"');
    } else {
        let c = t[0];
        let rest = t.skip(1);
        assert(t =~= seq![c] + rest);
        lemma_escape_concat(seq![c], rest);
        assert(seq![c].drop_last() =~= Seq::<char>::empty());
        assert(seq![c].last() == c);
        assert(escape_quoted(seq![c].drop_last()) =~= Seq::<char>::empty());
        let ec = escape_quoted(seq![c]);
        let er = escape_quoted(rest);
        assert(e == ec + er);
        assert forall|i: int| 0 <= i < er.len() implies s[(k + ec.len()) + i] == #[trigger] er[i] by {
            assert(e[ec.len() + i] == er[i]);
        }
        if c == '"' || c == '\\' {
            assert(ec =~= seq!['\\', c]);
            assert(s[k as int] == e[0]);
            assert(s[k as int + 1] == e[1]);
            lemma_escaped_reads_back(rest, s, start, k + 2);
            assert(seq![c] + rest =~= t);
        } else {
            assert(ec =~= seq![c]);
            assert(s[k as int] == e[0]);
            lemma_escaped_reads_back(rest, s, start, k + 1);
            assert(seq![c] + rest =~= t);
        }
    }
}

/// Text strings read back from diagnostic notation. The diagnostic text of
/// a text string is the text in double quotes with each backslash and
/// double quote preceded by a backslash, and reading a quoted string,
/// whatever follows it, undoes that: it gives every character back, an
/// escaped backslash as one backslash, and ends right after the closing
/// quote.
pub proof fn law_text_diag_reads_back(t: Seq<char>, rest: Seq<char>)
    ensures
        quoted(text_diag(t) + rest, 0, '"') == Some((t, text_diag(t).len())),
{
    let e = escape_quoted(t);
    let s = text_diag(t) + rest;
    assert(text_diag(t) == seq!['"'] + e + seq!['"']);
    assert(s[0] == '"');
    assert forall|i: int| 0 <= i < e.len() implies s[1 + i] == #[trigger] e[i] by {
        assert(text_diag(t)[1 + i] == e[i]);
    }
    assert(s[1 + e.len() as int] == '"') by {
        assert(text_diag(t)[1 + e.len() as int] == '"');
    }
    if t.len() > 0 {
        lemma_escaped_reads_back(t, s, 1, 1);
    } else {
        assert(e =~= Seq::<char>::empty());
    }
}

} // verus!
