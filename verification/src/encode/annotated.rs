//! Making annotated hex of whole data items.
use vstd::prelude::*;

use super::Encoding;
use super::annotate::{
    base64, base64url, bigfloat, date_epoch, datetime_epoch, decimal_fraction, epoch_date,
    epoch_datetime, ipv4_address_or_prefix, ipv6_address_or_prefix, negative_bignum,
    network_address, note, note_line, note_str, positive_bignum, shareable, shared_ref, uri, uuid,
};
use super::bounds::{bytes_below, lemma_bytes_below_mono, lemma_item_bytes};
use super::hex::{
    FloatTexts, Line, SpecLine, break_line, definite_bytestring_to_hex, definite_textstring_to_hex,
    encoded_item_line, error_debug, hex_of, hex_items, hex_pairs, tagged_hex,
    length_to_hex, lines_of, lines_view, lemma_lines_view, lemma_lines_view_push, merged,
    newline_index, parse_failure_line, parse_result, with_sublines, length_line, bytestring_line,
    textstring_line, integer_to_hex, negative_to_hex, float_to_hex, simple_to_hex, tag_hex,
    tag_comment, tag_description, tag_extra, tag_sublines, typed_lines, is_typed_array,
    typed_size, typed_kind, typed_little_endian, element, element_text, element_value,
    signed_half, encoded_cbor_line, encoded_cbor_seq_lines, cbor_sequence, push_hex,
    push_head_hex, count_width_of, is_unknown, slice_range,
};
use super::annotate::{big_value, separated, separated_i64, separated_u64};
use super::bounds::lemma_item_bytes_bounded;
use super::floatfree::{float_free, is_float_free, lemma_hex_float_free, no_float_texts};
use crate::codecs::{hex_lower, hexlower_encode};
use crate::text::{push_chars, push_decimal, decimal};
use crate::float::{FloatText, callable, renders};
use crate::parse::binary::{Parsed, parse_bytes, parse_bytes_partial, parse_item};
use crate::syntax::{
    DataItem, FloatWidth, IntegerWidth, SpecBytes, SpecItem, SpecText, Tag, bytestrings_view,
    items_view, lemma_items_view, lemma_pairs_view, pairs_view, textstrings_view,
};
use crate::text::{chars_of, owned, push_str, string_from_chars};

verus! {

/// Lines holding the lines of a text, one each (see `lines_of`).
fn note_lines(t: &[char]) -> (lines: Vec<Line>)
    ensures
        lines_view(lines@) == lines_of(t@).map_values(|l: Seq<char>| note(l)),
{
    let mut lines: Vec<Line> = Vec::new();
    let mut pos: usize = 0;
    assert(t@.skip(0) =~= t@);
    assert(lines_view(lines@) + lines_of(t@.skip(0)).map_values(|l: Seq<char>| note(l))
        =~= lines_of(t@).map_values(|l: Seq<char>| note(l)));
    while pos < t.len()
        invariant
            pos <= t@.len(),
            lines_view(lines@) + lines_of(t@.skip(pos as int)).map_values(|l: Seq<char>| note(l))
                == lines_of(t@).map_values(|l: Seq<char>| note(l)),
        decreases t@.len() - pos,
    {
        let ghost rest = t@.skip(pos as int);
        let mut j: usize = pos;
        while j < t.len() && t[j] != '\n'
            invariant
                pos <= j <= t@.len(),
                rest == t@.skip(pos as int),
                forall|k: int| pos <= k < j ==> t@[k] != '\n',
                newline_index(rest) == (j - pos) + newline_index(t@.skip(j as int)),
            decreases t@.len() - j,
        {
            assert(t@.skip(j as int)[0] == t@[j as int]);
            assert(t@.skip(j as int).skip(1) =~= t@.skip(j + 1));
            j = j + 1;
        }
        if j < t.len() {
            assert(t@.skip(j as int)[0] == '\n');
        }
        assert(newline_index(rest) == j - pos);
        let mut end = j;
        if j < t.len() && end > pos && t[end - 1] == '\r' {
            end = end - 1;
        }
        let piece = super::hex::char_range(t, pos, end);
        let line = note_line(piece);
        let ghost l = rest.take((j - pos) as int);
        if j < t.len() {
            assert(piece@ =~= (if l.len() > 0 && l.last() == '\r' { l.drop_last() } else { l }));
            assert(rest.skip(j - pos + 1) =~= t@.skip(j + 1));
        } else {
            assert(piece@ =~= rest);
        }
        proof { lemma_lines_view_push(lines@, line); }
        lines.push(line);
        pos = if j < t.len() { j + 1 } else { j };
        assert(lines_view(lines@) + lines_of(t@.skip(pos as int)).map_values(|l: Seq<char>| note(l))
            =~= lines_of(t@).map_values(|l: Seq<char>| note(l)));
    }
    assert(t@.skip(pos as int) =~= Seq::<char>::empty());
    assert(lines_view(lines@) + lines_of(t@.skip(pos as int)).map_values(|l: Seq<char>| note(l)) =~= lines_view(lines@));
    lines
}


/// The state of making annotated hex: the encoding suggested for byte
/// strings and the number of shareable items seen so far.
pub struct Context {
    pub encoding: Option<Encoding>,
    pub reference_count: u64,
}

/// The line that ends an indefinite length item.
fn break_to_hex() -> (l: Line)
    ensures
        l@ == break_line(),
{
    proof {
        reveal_strlit("ff");
    }
    let l = Line::new(owned("ff"), owned("break"));
    assert(l@ =~= break_line());
    l
}

/// The line of an indefinite length string and the lines of its chunks.
pub fn indefinite_string_to_hex(encoding: Option<Encoding>, value: &DataItem) -> (l: Line)
    ensures
        match value@ {
            SpecItem::IndefiniteByteString(s) => l@ == with_sublines(
                length_line(0, None, 2, "bytes"@),
                s.map_values(|b: SpecBytes| bytestring_line(encoding, b)).push(break_line()),
            ),
            SpecItem::IndefiniteTextString(s) => l@ == with_sublines(
                length_line(0, None, 3, "text"@),
                s.map_values(|t: SpecText| textstring_line(t)).push(break_line()),
            ),
            _ => true,
        },
{
    match value {
        DataItem::IndefiniteByteString(strings) => {
            let mut line = length_to_hex(None, None, 2, "bytes");
            let ghost s = bytestrings_view(strings@);
            let mut i: usize = 0;
            assert(line@.sublines =~= s.map_values(|b: SpecBytes| bytestring_line(encoding, b)).take(0));
            while i < strings.len()
                invariant
                    i <= strings@.len(),
                    s == bytestrings_view(strings@),
                    line@ == with_sublines(length_line(0, None, 2, "bytes"@), s.map_values(|b: SpecBytes| bytestring_line(encoding, b)).take(i as int)),
                decreases strings@.len() - i,
            {
                let l = definite_bytestring_to_hex(encoding, &strings[i]);
                assert(s[i as int] == strings@[i as int]@);
                assert(s.map_values(|b: SpecBytes| bytestring_line(encoding, b)).take(i + 1)
                    =~= s.map_values(|b: SpecBytes| bytestring_line(encoding, b)).take(i as int).push(l@));
                line.push(l);
                i = i + 1;
                assert(line@ =~= with_sublines(length_line(0, None, 2, "bytes"@), s.map_values(|b: SpecBytes| bytestring_line(encoding, b)).take(i as int)));
            }
            assert(s.map_values(|b: SpecBytes| bytestring_line(encoding, b)).take(i as int) =~= s.map_values(|b: SpecBytes| bytestring_line(encoding, b)));
            line.push(break_to_hex());
            line
        },
        DataItem::IndefiniteTextString(strings) => {
            let mut line = length_to_hex(None, None, 3, "text");
            let ghost s = textstrings_view(strings@);
            let mut i: usize = 0;
            assert(line@.sublines =~= s.map_values(|t: SpecText| textstring_line(t)).take(0));
            while i < strings.len()
                invariant
                    i <= strings@.len(),
                    s == textstrings_view(strings@),
                    line@ == with_sublines(length_line(0, None, 3, "text"@), s.map_values(|t: SpecText| textstring_line(t)).take(i as int)),
                decreases strings@.len() - i,
            {
                let l = definite_textstring_to_hex(&strings[i]);
                assert(s[i as int] == strings@[i as int]@);
                assert(s.map_values(|t: SpecText| textstring_line(t)).take(i + 1)
                    =~= s.map_values(|t: SpecText| textstring_line(t)).take(i as int).push(l@));
                line.push(l);
                i = i + 1;
                assert(line@ =~= with_sublines(length_line(0, None, 3, "text"@), s.map_values(|t: SpecText| textstring_line(t)).take(i as int)));
            }
            assert(s.map_values(|t: SpecText| textstring_line(t)).take(i as int) =~= s.map_values(|t: SpecText| textstring_line(t)));
            line.push(break_to_hex());
            line
        },
        _ => length_to_hex(None, None, 2, "bytes"),
    }
}

/// The line of an array and the lines of its items.
pub fn array_to_hex<F: Fn(u64, FloatWidth, FloatText) -> String>(
    context: &mut Context,
    array: &[DataItem],
    bitwidth: Option<IntegerWidth>,
    f: &F,
    Ghost(bound): Ghost<nat>,
) -> (l: Line)
    requires
        callable(f),
        bytes_below(SpecItem::Array { data: items_view(array@), bitwidth }, bound),
    ensures
        final(context).encoding == old(context).encoding,
        forall|ft: FloatTexts| #[trigger] renders(f, ft) ==> hex_of(
            SpecItem::Array { data: items_view(array@), bitwidth },
            old(context).encoding,
            old(context).reference_count,
            bound,
            ft,
        ) == (l@, final(context).reference_count),
    decreases bound, array@, 1nat,
{
    proof { lemma_items_view(array@); }
    let ghost v = items_view(array@);
    let ghost enc = context.encoding;
    let ghost refs0 = context.reference_count;
    let mut sub: Vec<Line> = Vec::new();
    let mut i: usize = 0;
    assert(v.skip(0) =~= v);
    let ghost x = SpecItem::Array { data: v, bitwidth };
    proof { lemma_array_parts(x, bound); }
    assert forall|j: int| 0 <= j < v.len() implies bytes_below(#[trigger] v[j], bound) by {
        assert(x->Array_data[j] == v[j]);
    }
    assert forall|ft: FloatTexts| #[trigger] renders(f, ft) implies hex_items(v, enc, refs0, bound, ft)
        == (lines_view(sub@) + hex_items(v.skip(0), enc, context.reference_count, bound, ft).0,
            hex_items(v.skip(0), enc, context.reference_count, bound, ft).1) by {
        assert(lines_view(sub@) + hex_items(v.skip(0), enc, context.reference_count, bound, ft).0
            =~= hex_items(v, enc, refs0, bound, ft).0);
    }
    while i < array.len()
        invariant
            i <= array@.len(),
            callable(f),
            v == items_view(array@),
            v.len() == array@.len(),
            forall|j: int| 0 <= j < array@.len() ==> #[trigger] v[j] == array@[j]@,
            forall|j: int| 0 <= j < v.len() ==> bytes_below(#[trigger] v[j], bound),
            context.encoding == enc,
            forall|ft: FloatTexts| #[trigger] renders(f, ft) ==> hex_items(v, enc, refs0, bound, ft)
                == (lines_view(sub@) + hex_items(v.skip(i as int), enc, context.reference_count, bound, ft).0,
                    hex_items(v.skip(i as int), enc, context.reference_count, bound, ft).1),
        decreases array@.len() - i,
    {
        let ghost r = context.reference_count;
        assert(bytes_below(v[i as int], bound));
        let line = Line::from_value(context, &array[i], f, Ghost(bound));
        proof { lemma_lines_view_push(sub@, line); }
        sub.push(line);
        i = i + 1;
        assert forall|ft: FloatTexts| #[trigger] renders(f, ft) implies hex_items(v, enc, refs0, bound, ft)
            == (lines_view(sub@) + hex_items(v.skip(i as int), enc, context.reference_count, bound, ft).0,
                hex_items(v.skip(i as int), enc, context.reference_count, bound, ft).1) by {
            let rest = v.skip(i - 1);
            assert(rest[0] == v[i - 1]);
            assert(rest.skip(1) =~= v.skip(i as int));
            assert(lines_view(sub@) + hex_items(v.skip(i as int), enc, context.reference_count, bound, ft).0
                =~= lines_view(sub@).drop_last() + hex_items(rest, enc, r, bound, ft).0);
        }
    }
    let ghost subv = lines_view(sub@);
    let mut line = length_to_hex(Some(array.len()), bitwidth, 4, "array");
    line.sublines = sub;
    if bitwidth.is_none() {
        line.push(break_to_hex());
    }
    assert forall|ft: FloatTexts| #[trigger] renders(f, ft) implies hex_of(
        SpecItem::Array { data: v, bitwidth }, enc, refs0, bound, ft) == (line@, context.reference_count) by {
        assert(v.skip(i as int) =~= Seq::<SpecItem>::empty());
        assert(subv + Seq::<SpecLine>::empty() =~= subv);
        assert(line@ =~= hex_of(SpecItem::Array { data: v, bitwidth }, enc, refs0, bound, ft).0);
    }
    line
}


/// The line of a map and the lines of its keys and values.
pub fn map_to_hex<F: Fn(u64, FloatWidth, FloatText) -> String>(
    context: &mut Context,
    values: &[(DataItem, DataItem)],
    bitwidth: Option<IntegerWidth>,
    f: &F,
    Ghost(bound): Ghost<nat>,
) -> (l: Line)
    requires
        callable(f),
        bytes_below(SpecItem::Mapping { data: pairs_view(values@), bitwidth }, bound),
    ensures
        final(context).encoding == old(context).encoding,
        forall|ft: FloatTexts| #[trigger] renders(f, ft) ==> hex_of(
            SpecItem::Mapping { data: pairs_view(values@), bitwidth },
            old(context).encoding,
            old(context).reference_count,
            bound,
            ft,
        ) == (l@, final(context).reference_count),
    decreases bound, values@, 1nat,
{
    proof { lemma_pairs_view(values@); }
    let ghost v = pairs_view(values@);
    let ghost enc = context.encoding;
    let ghost refs0 = context.reference_count;
    let mut sub: Vec<Line> = Vec::new();
    let mut i: usize = 0;
    assert(v.skip(0) =~= v);
    let ghost x = SpecItem::Mapping { data: v, bitwidth };
    proof { lemma_map_parts(x, bound); }
    assert forall|j: int| 0 <= j < v.len() implies bytes_below(#[trigger] v[j].0, bound)
        && bytes_below(v[j].1, bound) by {
        assert(x->Mapping_data[j] == v[j]);
    }
    assert forall|ft: FloatTexts| #[trigger] renders(f, ft) implies hex_pairs(v, enc, refs0, bound, ft)
        == (lines_view(sub@) + hex_pairs(v.skip(0), enc, context.reference_count, bound, ft).0,
            hex_pairs(v.skip(0), enc, context.reference_count, bound, ft).1) by {
        assert(lines_view(sub@) + hex_pairs(v.skip(0), enc, context.reference_count, bound, ft).0
            =~= hex_pairs(v, enc, refs0, bound, ft).0);
    }
    while i < values.len()
        invariant
            i <= values@.len(),
            callable(f),
            v == pairs_view(values@),
            v.len() == values@.len(),
            forall|j: int| 0 <= j < values@.len() ==> #[trigger] v[j] == (values@[j].0@, values@[j].1@),
            forall|j: int| 0 <= j < v.len() ==> bytes_below(#[trigger] v[j].0, bound)
                && bytes_below(v[j].1, bound),
            context.encoding == enc,
            forall|ft: FloatTexts| #[trigger] renders(f, ft) ==> hex_pairs(v, enc, refs0, bound, ft)
                == (lines_view(sub@) + hex_pairs(v.skip(i as int), enc, context.reference_count, bound, ft).0,
                    hex_pairs(v.skip(i as int), enc, context.reference_count, bound, ft).1),
        decreases values@.len() - i,
    {
        let ghost r = context.reference_count;
        assert(bytes_below(v[i as int].0, bound));
        let key = Line::from_value(context, &values[i].0, f, Ghost(bound));
        let ghost r1 = context.reference_count;
        let value = Line::from_value(context, &values[i].1, f, Ghost(bound));
        let ghost before = sub@;
        proof { lemma_lines_view_push(sub@, key); }
        sub.push(key);
        proof { lemma_lines_view_push(sub@, value); }
        sub.push(value);
        i = i + 1;
        assert forall|ft: FloatTexts| #[trigger] renders(f, ft) implies hex_pairs(v, enc, refs0, bound, ft)
            == (lines_view(sub@) + hex_pairs(v.skip(i as int), enc, context.reference_count, bound, ft).0,
                hex_pairs(v.skip(i as int), enc, context.reference_count, bound, ft).1) by {
            let rest = v.skip(i - 1);
            assert(rest[0] == v[i - 1]);
            assert(rest.skip(1) =~= v.skip(i as int));
            assert(lines_view(sub@) + hex_pairs(v.skip(i as int), enc, context.reference_count, bound, ft).0
                =~= lines_view(before) + hex_pairs(rest, enc, r, bound, ft).0);
        }
    }
    let ghost subv = lines_view(sub@);
    let mut line = length_to_hex(Some(values.len()), bitwidth, 5, "map");
    line.sublines = sub;
    if bitwidth.is_none() {
        line.push(break_to_hex());
    }
    assert forall|ft: FloatTexts| #[trigger] renders(f, ft) implies hex_of(
        SpecItem::Mapping { data: v, bitwidth }, enc, refs0, bound, ft) == (line@, context.reference_count) by {
        assert(v.skip(i as int) =~= Seq::<(SpecItem, SpecItem)>::empty());
        assert(subv + Seq::<SpecLine>::empty() =~= subv);
        assert(line@ =~= hex_of(SpecItem::Mapping { data: v, bitwidth }, enc, refs0, bound, ft).0);
    }
    line
}

impl Line {
    /// The line of a data item and the lines nested under it. `bound` is
    /// larger than the length of any byte string in the item.
    pub fn from_value<F: Fn(u64, FloatWidth, FloatText) -> String>(
        context: &mut Context,
        value: &DataItem,
        f: &F,
        Ghost(bound): Ghost<nat>,
    ) -> (l: Line)
        requires
            callable(f),
            bytes_below(value@, bound),
        ensures
            final(context).encoding == old(context).encoding,
            forall|ft: FloatTexts| #[trigger] renders(f, ft) ==> hex_of(
                value@,
                old(context).encoding,
                old(context).reference_count,
                bound,
                ft,
            ) == (l@, final(context).reference_count),
        decreases bound, value, 0nat,
    {
        match value {
            DataItem::Integer { value: v, bitwidth } => integer_to_hex(*v, *bitwidth),
            DataItem::Negative { value: v, bitwidth } => negative_to_hex(*v, *bitwidth),
            DataItem::ByteString(b) => definite_bytestring_to_hex(context.encoding, b),
            DataItem::TextString(t) => definite_textstring_to_hex(t),
            DataItem::IndefiniteByteString(_) => indefinite_string_to_hex(context.encoding, value),
            DataItem::IndefiniteTextString(_) => indefinite_string_to_hex(context.encoding, value),
            DataItem::Array { data, bitwidth } => array_to_hex(context, data.as_slice(), *bitwidth, f, Ghost(bound)),
            DataItem::Mapping { data, bitwidth } => map_to_hex(context, data.as_slice(), *bitwidth, f, Ghost(bound)),
            DataItem::Tag { tag, bitwidth, value: inner } => tagged_to_hex(context, *tag, *bitwidth, inner, f, Ghost(bound)),
            DataItem::Float { value: v, bitwidth } => float_to_hex(*v, *bitwidth, f),
            DataItem::Simple(simple) => simple_to_hex(*simple),
        }
    }
}

/// A sequence of one line.
fn one_line(l: Line) -> (v: Vec<Line>)
    ensures
        lines_view(v@) == seq![l@],
{
    let mut v: Vec<Line> = Vec::new();
    proof { lemma_lines_view_push(v@, l); }
    v.push(l);
    assert(lines_view(v@) =~= seq![l@]);
    v
}

/// The models of two sequences of lines, one after the other.
proof fn lemma_lines_view_concat(a: Seq<Line>, b: Seq<Line>)
    ensures
        lines_view(a + b) == lines_view(a) + lines_view(b),
    decreases b.len(),
{
    if b.len() == 0 {
        assert(a + b =~= a);
        assert(lines_view(a) + lines_view(b) =~= lines_view(a));
    } else {
        lemma_lines_view_concat(a, b.drop_last());
        assert((a + b).drop_last() =~= a + b.drop_last());
        assert(lines_view(a + b) =~= lines_view(a) + lines_view(b));
    }
}

/// The lines of `a` followed by those of `b`.
fn concat_lines(a: Vec<Line>, b: Vec<Line>) -> (v: Vec<Line>)
    ensures
        lines_view(v@) == lines_view(a@) + lines_view(b@),
{
    let mut v = a;
    let mut rest = b;
    proof { lemma_lines_view_concat(v@, rest@); }
    v.append(&mut rest);
    v
}


/// What a tag number stands for, where this library knows it.
fn tag_description_of(tag: u64) -> (r: Option<&'static str>)
    ensures
        match r {
            Some(d) => tag_description(tag) == Some(d@),
            None => tag_description(tag) == None::<Seq<char>>,
        },
{
    if tag == Tag::DATETIME { Some("standard datetime string") }
    else if tag == Tag::EPOCH_DATETIME { Some("epoch datetime value") }
    else if tag == Tag::POSITIVE_BIGNUM { Some("positive bignum") }
    else if tag == Tag::NEGATIVE_BIGNUM { Some("negative bignum") }
    else if tag == Tag::DECIMAL_FRACTION { Some("decimal fraction") }
    else if tag == Tag::BIGFLOAT { Some("bigfloat") }
    else if tag == Tag::ENCODED_BASE64URL { Some("suggested base64url encoding") }
    else if tag == Tag::ENCODED_BASE64 { Some("suggested base64 encoding") }
    else if tag == Tag::ENCODED_BASE16 { Some("suggested base16 encoding") }
    else if tag == Tag::ENCODED_CBOR { Some("encoded cbor data item") }
    else if tag == Tag::ENCODED_CBOR_SEQ { Some("encoded cbor sequence") }
    else if tag == Tag::URI { Some("uri") }
    else if tag == Tag::BASE64URL { Some("base64url encoded text") }
    else if tag == Tag::BASE64 { Some("base64 encoded text") }
    else if tag == Tag::REGEX { Some("regex") }
    else if tag == Tag::MIME { Some("mime message") }
    else if tag == Tag::UUID { Some("uuid") }
    else if tag == Tag::NETWORK_ADDRESS { Some("network address") }
    else if tag == Tag::SELF_DESCRIBE_CBOR { Some("self describe cbor") }
    else if tag == Tag::EPOCH_DATE { Some("epoch date value") }
    else if tag == Tag::DATE { Some("standard date string") }
    else if tag == Tag::SHAREABLE { Some("shareable value") }
    else if tag == Tag::SHARED_REF { Some("reference to shared value") }
    else if tag == Tag::IPV4 { Some("ipv4 address and/or prefix") }
    else if tag == Tag::IPV6 { Some("ipv6 address and/or prefix") }
    else if tag == Tag::TYPED_ARRAY_U8 { Some("typed array of u8") }
    else if tag == Tag::TYPED_ARRAY_U16_LITTLE_ENDIAN { Some("typed array of u16, little endian") }
    else if tag == Tag::TYPED_ARRAY_U32_LITTLE_ENDIAN { Some("typed array of u32, little endian") }
    else if tag == Tag::TYPED_ARRAY_U64_LITTLE_ENDIAN { Some("typed array of u64, little endian") }
    else if tag == Tag::TYPED_ARRAY_U8_CLAMPED { Some("typed array of u8, clamped") }
    else if tag == Tag::TYPED_ARRAY_U16_BIG_ENDIAN { Some("typed array of u16, big endian") }
    else if tag == Tag::TYPED_ARRAY_U32_BIG_ENDIAN { Some("typed array of u32, big endian") }
    else if tag == Tag::TYPED_ARRAY_U64_BIG_ENDIAN { Some("typed array of u64, big endian") }
    else if tag == Tag::TYPED_ARRAY_I8 { Some("typed array of u8") }
    else if tag == Tag::TYPED_ARRAY_I16_LITTLE_ENDIAN { Some("typed array of i16, little endian, twos-complement") }
    else if tag == Tag::TYPED_ARRAY_I32_LITTLE_ENDIAN { Some("typed array of i32, little endian, twos-complement") }
    else if tag == Tag::TYPED_ARRAY_I64_LITTLE_ENDIAN { Some("typed array of i64, little endian, twos-complement") }
    else if tag == Tag::TYPED_ARRAY_I16_BIG_ENDIAN { Some("typed array of i16, big endian, twos-complement") }
    else if tag == Tag::TYPED_ARRAY_I32_BIG_ENDIAN { Some("typed array of i32, big endian, twos-complement") }
    else if tag == Tag::TYPED_ARRAY_I64_BIG_ENDIAN { Some("typed array of i64, big endian, twos-complement") }
    else if tag == Tag::TYPED_ARRAY_F16_LITTLE_ENDIAN { Some("typed array of f16, little endian") }
    else if tag == Tag::TYPED_ARRAY_F32_LITTLE_ENDIAN { Some("typed array of f32, little endian") }
    else if tag == Tag::TYPED_ARRAY_F64_LITTLE_ENDIAN { Some("typed array of f64, little endian") }
    else if tag == Tag::TYPED_ARRAY_F128_LITTLE_ENDIAN { Some("typed array of f128, little endian") }
    else if tag == Tag::TYPED_ARRAY_F16_BIG_ENDIAN { Some("typed array of f16, big endian") }
    else if tag == Tag::TYPED_ARRAY_F32_BIG_ENDIAN { Some("typed array of f32, big endian") }
    else if tag == Tag::TYPED_ARRAY_F64_BIG_ENDIAN { Some("typed array of f64, big endian") }
    else if tag == Tag::TYPED_ARRAY_F128_BIG_ENDIAN { Some("typed array of f128, big endian") }
    else { None }
}

/// The line of a tagged item: its head, the lines of the item and the
/// annotations that the tag calls for.
pub fn tagged_to_hex<F: Fn(u64, FloatWidth, FloatText) -> String>(
    context: &mut Context,
    tag: Tag,
    bitwidth: IntegerWidth,
    value: &DataItem,
    f: &F,
    Ghost(bound): Ghost<nat>,
) -> (l: Line)
    requires
        callable(f),
        bytes_below(value@, bound),
    ensures
        final(context).encoding == old(context).encoding,
        forall|ft: FloatTexts| #[trigger] renders(f, ft) ==> tagged_hex(
            tag.0,
            bitwidth,
            value@,
            old(context).encoding,
            old(context).reference_count,
            bound,
            ft,
        ) == (l@, final(context).reference_count),
    decreases bound, value, 3nat,
{
    let t = tag.0;
    let mut hex: Vec<char> = Vec::new();
    let w = if is_unknown(bitwidth) { count_width_of(t) } else { bitwidth };
    if let IntegerWidth::Zero = w {
        push_hex(&mut hex, (0xc0u64 | t) as u128, 2);
    } else {
        push_head_hex(&mut hex, 6, t as u128, w);
    }
    assert(hex@ == tag_hex(t, bitwidth));
    let mut comment: Vec<char> = Vec::new();
    match tag_description_of(t) {
        Some(d) => {
            push_str(&mut comment, d);
            push_str(&mut comment, ", tag(");
        },
        None => push_str(&mut comment, "tag("),
    }
    push_decimal(&mut comment, t as u128);
    comment.push(')');
    assert(comment@ =~= tag_comment(t));
    let ghost enc = context.encoding;
    let ghost refs0 = context.reference_count;
    let extra = tag_extra_lines(context, t, value, f, Ghost(bound));
    let ghost refs1 = context.reference_count;
    let sub = tag_sublines_of(context, t, value, f, Ghost(bound));
    let sublines = concat_lines(sub, extra);
    let l = Line { hex: string_from_chars(hex.as_slice()), comment: string_from_chars(comment.as_slice()), sublines };
    assert forall|ft: FloatTexts| #[trigger] renders(f, ft) implies tagged_hex(t, bitwidth, value@, enc, refs0, bound, ft)
        == (l@, context.reference_count) by {
        assert(l@ =~= tagged_hex(t, bitwidth, value@, enc, refs0, bound, ft).0);
    }
    l
}

/// The annotations of a tagged item.
fn tag_extra_lines<F: Fn(u64, FloatWidth, FloatText) -> String>(
    context: &mut Context,
    tag: u64,
    value: &DataItem,
    f: &F,
    Ghost(bound): Ghost<nat>,
) -> (v: Vec<Line>)
    requires
        callable(f),
        bytes_below(value@, bound),
    ensures
        final(context).encoding == old(context).encoding,
        forall|ft: FloatTexts| #[trigger] renders(f, ft) ==> tag_extra(tag, value@, old(context).reference_count, bound, ft)
            == (lines_view(v@), final(context).reference_count),
    decreases bound, value, 2nat,
{
    if tag == Tag::DATETIME {
        one_line(datetime_epoch(value))
    } else if tag == Tag::EPOCH_DATETIME {
        one_line(epoch_datetime(value, f))
    } else if tag == Tag::POSITIVE_BIGNUM {
        one_line(positive_bignum(value))
    } else if tag == Tag::NEGATIVE_BIGNUM {
        one_line(negative_bignum(value))
    } else if tag == Tag::DECIMAL_FRACTION {
        one_line(decimal_fraction(value))
    } else if tag == Tag::BIGFLOAT {
        one_line(bigfloat(value))
    } else if tag == Tag::URI {
        one_line(uri(value))
    } else if tag == Tag::BASE64URL {
        one_line(base64url(value))
    } else if tag == Tag::BASE64 {
        one_line(base64(value))
    } else if tag == Tag::ENCODED_CBOR {
        one_line(encoded_cbor(value, f, Ghost(bound)))
    } else if tag == Tag::ENCODED_CBOR_SEQ {
        encoded_cbor_seq(value, f, Ghost(bound))
    } else if tag == Tag::NETWORK_ADDRESS {
        one_line(network_address(value))
    } else if tag == Tag::UUID {
        one_line(uuid(value))
    } else if tag == Tag::EPOCH_DATE {
        one_line(epoch_date(value))
    } else if tag == Tag::DATE {
        one_line(date_epoch(value))
    } else if tag == Tag::SHAREABLE {
        let l = shareable(context.reference_count);
        context.reference_count = if context.reference_count == u64::MAX { 0 } else { context.reference_count + 1 };
        one_line(l)
    } else if tag == Tag::SHARED_REF {
        one_line(shared_ref(value, context.reference_count))
    } else if tag == Tag::IPV4 {
        one_line(ipv4_address_or_prefix(value))
    } else if tag == Tag::IPV6 {
        one_line(ipv6_address_or_prefix(value))
    } else {
        let v: Vec<Line> = Vec::new();
        assert(lines_view(v@) =~= Seq::<SpecLine>::empty());
        v
    }
}

/// The lines of the item under a tag.
fn tag_sublines_of<F: Fn(u64, FloatWidth, FloatText) -> String>(
    context: &mut Context,
    tag: u64,
    value: &DataItem,
    f: &F,
    Ghost(bound): Ghost<nat>,
) -> (v: Vec<Line>)
    requires
        callable(f),
        bytes_below(value@, bound),
    ensures
        final(context).encoding == old(context).encoding,
        forall|ft: FloatTexts| #[trigger] renders(f, ft) ==> tag_sublines(
            tag,
            value@,
            old(context).encoding,
            old(context).reference_count,
            bound,
            ft,
        ) == (lines_view(v@), final(context).reference_count),
    decreases bound, value, 2nat,
{
    if 64 <= tag && tag <= 87 && tag != 76 {
        typed_array(context, tag, value, f, Ghost(bound))
    } else {
        let saved = context.encoding;
        if tag == Tag::ENCODED_BASE64URL {
            context.encoding = Some(Encoding::Base64Url);
        } else if tag == Tag::ENCODED_BASE64 {
            context.encoding = Some(Encoding::Base64);
        } else if tag == Tag::ENCODED_BASE16 || tag == Tag::NETWORK_ADDRESS || tag == Tag::UUID || tag == Tag::IPV4
            || tag == Tag::IPV6 {
            context.encoding = Some(Encoding::Base16);
        }
        let l = Line::from_value(context, value, f, Ghost(bound));
        context.encoding = saved;
        one_line(l)
    }
}

/// `256` to the power `k`.
pub open spec fn pow256(k: nat) -> nat
    decreases k,
{
    if k == 0 { 1 } else { 256 * pow256((k - 1) as nat) }
}

proof fn lemma_pow256_small(k: nat)
    requires
        k <= 7,
    ensures
        pow256(k) <= 0x100_0000_0000_0000,
{
    reveal_with_fuel(pow256, 8);
    if k == 0 {} else if k == 1 {} else if k == 2 {} else if k == 3 {} else if k == 4 {} else if k == 5 {} else if k == 6 {} else {}
}

/// The value of the bytes of an element of a typed array, by its byte order.
fn element_value_of(tag: u64, c: &[u8]) -> (v: u64)
    requires
        c@.len() <= 8,
    ensures
        v == element_value(tag, c@),
{
    let ghost order = if typed_little_endian(tag) { c@.reverse() } else { c@ };
    let le = (68 <= tag && tag <= 71) || (76 <= tag && tag <= 79) || (84 <= tag && tag <= 87);
    let mut v: u64 = 0;
    let mut k: usize = 0;
    assert(order.take(0) =~= Seq::<u8>::empty());
    while k < c.len()
        invariant
            k <= c@.len(),
            c@.len() <= 8,
            le == typed_little_endian(tag),
            order == if le { c@.reverse() } else { c@ },
            v == big_value(order.take(k as int)),
            v < pow256(k as nat),
        decreases c@.len() - k,
    {
        let byte = if le { c[c.len() - 1 - k] } else { c[k] };
        assert(order[k as int] == byte);
        assert(order.take(k + 1).drop_last() =~= order.take(k as int));
        proof { lemma_pow256_small(k as nat); }
        assert(pow256((k + 1) as nat) == 256 * pow256(k as nat));
        v = v * 256 + byte as u64;
        k = k + 1;
    }
    assert(order.take(c@.len() as int) =~= order);
    v
}


/// The size in bytes of the elements of a typed array.
fn typed_size_of(tag: u64) -> (n: usize)
    ensures
        n == typed_size(tag),
        1 <= n <= 16,
{
    if tag == 64 || tag == 68 || tag == 72 {
        1
    } else if tag == 65 || tag == 69 || tag == 73 || tag == 77 || tag == 80 || tag == 84 {
        2
    } else if tag == 66 || tag == 70 || tag == 74 || tag == 78 || tag == 81 || tag == 85 {
        4
    } else if tag == 67 || tag == 71 || tag == 75 || tag == 79 || tag == 82 || tag == 86 {
        8
    } else {
        16
    }
}

/// The text of an element of a typed array.
fn element_text_of<F: Fn(u64, FloatWidth, FloatText) -> String>(tag: u64, c: &[u8], f: &F) -> (s: String)
    requires
        callable(f),
        is_typed_array(tag),
        c@.len() == typed_size(tag),
    ensures
        forall|ft: FloatTexts| #[trigger] renders(f, ft) ==> s@ == element_text(tag, c@, ft),
{
    if tag == Tag::TYPED_ARRAY_F128_BIG_ENDIAN || tag == Tag::TYPED_ARRAY_F128_LITTLE_ENDIAN {
        return owned("TODO: f128 unsupported");
    }
    let v = element_value_of(tag, c);
    if tag <= 71 {
        separated_u64(v)
    } else if tag <= 79 {
        let n = c.len();
        let half: u64 = if n == 1 {
            0x80
        } else if n == 2 {
            0x8000
        } else if n == 4 {
            0x8000_0000
        } else {
            0x8000_0000_0000_0000
        };
        assert(half == signed_half(typed_size(tag)));
        let x: i128 = if v >= half { v as i128 - 2 * half as i128 } else { v as i128 };
        proof {
            lemma_element_value_bound(tag, c@);
        }
        separated_i64(x as i64)
    } else if tag == 80 || tag == 84 {
        f(v, FloatWidth::Sixteen, FloatText::Annotation)
    } else if tag == 81 || tag == 85 {
        f(v, FloatWidth::ThirtyTwo, FloatText::NativeAnnotation)
    } else {
        f(v, FloatWidth::SixtyFour, FloatText::Annotation)
    }
}

proof fn lemma_big_value_bound(s: Seq<u8>)
    ensures
        big_value(s) < pow256(s.len()),
    decreases s.len(),
{
    if s.len() > 0 {
        lemma_big_value_bound(s.drop_last());
    }
}

proof fn lemma_element_value_bound(tag: u64, c: Seq<u8>)
    requires
        c.len() == typed_size(tag),
        c.len() <= 8,
    ensures
        element_value(tag, c) < 2 * signed_half(c.len()),
{
    reveal_with_fuel(pow256, 9);
    if typed_little_endian(tag) {
        lemma_big_value_bound(c.reverse());
    } else {
        lemma_big_value_bound(c);
    }
}

/// The lines of the item under a typed array tag.
fn typed_array<F: Fn(u64, FloatWidth, FloatText) -> String>(
    context: &mut Context,
    tag: u64,
    value: &DataItem,
    f: &F,
    Ghost(bound): Ghost<nat>,
) -> (v: Vec<Line>)
    requires
        callable(f),
        is_typed_array(tag),
        bytes_below(value@, bound),
    ensures
        final(context).encoding == old(context).encoding,
        forall|ft: FloatTexts| #[trigger] renders(f, ft) ==> typed_lines(
            tag,
            value@,
            old(context).encoding,
            old(context).reference_count,
            bound,
            ft,
        ) == (lines_view(v@), final(context).reference_count),
    decreases bound, value, 1nat,
{
    let n = typed_size_of(tag);
    if let DataItem::ByteString(b) = value {
        let data = b.data.as_slice();
        if data.len() % n == 0 {
            let mut line = length_to_hex(Some(data.len()), Some(b.bitwidth), 2, "bytes");
            let count = data.len() / n;
            let ghost head = line@;
            let ghost elements = Seq::new(count as nat, |i: int| element(data@, n as nat, i));
            let mut i: usize = 0;
            while i < count
                invariant
                    i <= count,
                    count == data@.len() / (n as nat),
                    data@.len() == data.len(),
                    n == typed_size(tag),
                    1 <= n <= 16,
                    callable(f),
                    is_typed_array(tag),
                    line@.hex == head.hex,
                    line@.comment == head.comment,
                    line@.sublines.len() == i,
                    forall|ft: FloatTexts| #[trigger] renders(f, ft) ==> forall|j: int| 0 <= j < i ==> #[trigger] line@.sublines[j]
                        == leaf_of(tag, element(data@, n as nat, j), ft),
                decreases count - i,
            {
                let l = element_line(tag, data, n, i, f);
                let ghost before = line@;
                line.push(l);
                i = i + 1;
                assert forall|ft: FloatTexts| #[trigger] renders(f, ft) implies forall|j: int| 0 <= j < i ==> #[trigger] line@.sublines[j]
                    == leaf_of(tag, element(data@, n as nat, j), ft) by {
                    assert forall|j: int| 0 <= j < i implies #[trigger] line@.sublines[j] == leaf_of(tag, element(data@, n as nat, j), ft) by {
                        if j < i - 1 {
                            assert(line@.sublines[j] == before.sublines[j]);
                        }
                    }
                }
            }
            let ghost lv = line@;
            let v = one_line(line);
            assert forall|ft: FloatTexts| #[trigger] renders(f, ft) implies typed_lines(tag, value@, context.encoding,
                context.reference_count, bound, ft) == (lines_view(v@), context.reference_count) by {
                let expected = typed_lines(tag, value@, context.encoding, context.reference_count, bound, ft).0[0];
                assert(lv.sublines.len() == expected.sublines.len());
                assert forall|j: int| 0 <= j < lv.sublines.len() implies lv.sublines[j] == expected.sublines[j] by {
                    assert(lv.sublines[j] == leaf_of(tag, element(data@, n as nat, j), ft));
                }
                assert(lv.sublines =~= expected.sublines);
                assert(lv =~= expected);
                assert(lines_view(v@) =~= typed_lines(tag, value@, context.encoding, context.reference_count, bound, ft).0);
            }
            v
        } else {
            let l = Line::from_value(context, value, f, Ghost(bound));
            concat_lines(one_line(l), one_line(note_str("invalid data length for typed array")))
        }
    } else {
        let l = Line::from_value(context, value, f, Ghost(bound));
        concat_lines(one_line(l), one_line(note_str("invalid type for typed array")))
    }
}

/// The line of element `i` of a typed array of elements of `n` bytes.
fn element_line<F: Fn(u64, FloatWidth, FloatText) -> String>(tag: u64, data: &[u8], n: usize, i: usize, f: &F) -> (l: Line)
    requires
        callable(f),
        is_typed_array(tag),
        n == typed_size(tag),
        1 <= n <= 16,
        i < data@.len() / (n as nat),
    ensures
        forall|ft: FloatTexts| #[trigger] renders(f, ft) ==> l@ == leaf_of(tag, element(data@, n as nat, i as int), ft),
{
    assert(n * i + n <= data@.len()) by (nonlinear_arith)
        requires
            i < data@.len() / (n as nat),
            n >= 1,
    ;
    assert(data@.len() == data.len());
    let chunk = slice_range(data, n * i, n * i + n);
    let text = element_text_of(tag, chunk.as_slice(), f);
    let mut comment: Vec<char> = Vec::new();
    if tag <= 71 {
        push_str(&mut comment, "unsigned");
    } else if tag <= 79 {
        push_str(&mut comment, "signed");
    } else {
        push_str(&mut comment, "float");
    }
    comment.push('(');
    push_str(&mut comment, text.as_str());
    comment.push(')');
    let l = Line::new(hexlower_encode(chunk.as_slice()), string_from_chars(comment.as_slice()));
    assert forall|ft: FloatTexts| #[trigger] renders(f, ft) implies l@ == leaf_of(tag, element(data@, n as nat, i as int), ft) by {
        assert(chunk@ =~= element(data@, n as nat, i as int));
        assert(l@ =~= leaf_of(tag, element(data@, n as nat, i as int), ft));
    }
    l
}

/// The line of an element of a typed array.
pub open spec fn leaf_of(tag: u64, c: Seq<u8>, ft: FloatTexts) -> SpecLine {
    super::hex::leaf(hex_lower(c), typed_kind(tag) + seq!['('] + element_text(tag, c, ft) + seq![')'])
}

/// Annotated hex of a data item, starting afresh; `bound` is larger than the
/// length of any byte string in it.
fn render_hex<F: Fn(u64, FloatWidth, FloatText) -> String>(item: &DataItem, f: &F, Ghost(bound): Ghost<nat>) -> (s: String)
    requires
        callable(f),
        bytes_below(item@, bound),
    ensures
        forall|ft: FloatTexts| #[trigger] renders(f, ft) ==> s@ == merged(hex_of(item@, None, 0, bound, ft).0),
    decreases bound, item, 5nat,
{
    let mut context = Context { encoding: None, reference_count: 0 };
    let line = Line::from_value(&mut context, item, f, Ghost(bound));
    line.merge()
}

/// The `Debug` text of an error with the given message.
fn error_debug_line(message: &String) -> (l: Line)
    ensures
        l@ == note(error_debug(message@)),
{
    let mut c: Vec<char> = Vec::new();
    push_str(&mut c, "Todo(\"");
    push_str(&mut c, message.as_str());
    push_str(&mut c, "\")");
    note_line(c)
}

/// The annotation of an encoded data item (tag 24).
fn encoded_cbor<F: Fn(u64, FloatWidth, FloatText) -> String>(value: &DataItem, f: &F, Ghost(bound): Ghost<nat>) -> (l: Line)
    requires
        callable(f),
        bytes_below(value@, bound),
    ensures
        forall|ft: FloatTexts| #[trigger] renders(f, ft) ==> l@ == encoded_cbor_line(value@, bound, ft),
    decreases bound, value, 1nat,
{
    match value {
        DataItem::ByteString(b) => {
            let data = b.data.as_slice();
            match parse_bytes(data) {
                Ok(item) => {
                    proof { lemma_item_bytes(data@); }
                    assert(parse_result(data@) == Ok::<SpecItem, Seq<char>>(item@));
                    let text = render_hex(&item, f, Ghost(data@.len()));
                    let chars = chars_of(text.as_str());
                    let lines = note_lines(chars.as_slice());
                    let mut line = note_str("encoded cbor data item");
                    line.sublines = lines;
                    assert forall|ft: FloatTexts| #[trigger] renders(f, ft) implies line@ == encoded_cbor_line(value@, bound, ft) by {
                        assert(line@ =~= encoded_cbor_line(value@, bound, ft));
                    }
                    line
                },
                Err(e) => {
                    assert(parse_result(data@) == Err::<SpecItem, Seq<char>>(e.message()));
                    let mut line = note_str("failed to parse encoded cbor data item");
                    line.push(error_debug_line(&e.to_message()));
                    assert(line@ =~= encoded_cbor_line(value@, bound, |v: u64, w: FloatWidth, k: FloatText| Seq::<char>::empty()));
                    line
                },
            }
        },
        _ => note_str("invalid type for encoded cbor data item"),
    }
}


/// The annotations of an encoded sequence of data items (tag 63).
fn encoded_cbor_seq<F: Fn(u64, FloatWidth, FloatText) -> String>(value: &DataItem, f: &F, Ghost(bound): Ghost<nat>) -> (v: Vec<Line>)
    requires
        callable(f),
        bytes_below(value@, bound),
    ensures
        forall|ft: FloatTexts| #[trigger] renders(f, ft) ==> lines_view(v@) == encoded_cbor_seq_lines(value@, bound, ft),
    decreases bound, value, 1nat,
{
    match value {
        DataItem::ByteString(b) => {
            let data = b.data.as_slice();
            let ghost len = data@.len();
            let ghost xs = cbor_sequence(data@).0;
            let mut lines: Vec<Line> = Vec::new();
            let mut rest = slice_range(data, 0, data.len());
            assert(rest@ =~= data@);
            let ghost mut count: nat = 0;
            let mut going = true;
            assert(xs.take(0) + cbor_sequence(rest@).0 =~= xs);
            while going
                invariant
                    callable(f),
                    len == data@.len(),
                    len < bound,
                    rest@.len() <= len,
                    count <= xs.len(),
                    xs == cbor_sequence(data@).0,
                    xs == xs.take(count as int) + cbor_sequence(rest@).0,
                    cbor_sequence(data@).1 == cbor_sequence(rest@).1,
                    !going ==> cbor_sequence(rest@).0.len() == 0 && cbor_sequence(rest@).1 == rest@,
                    forall|ft: FloatTexts| #[trigger] renders(f, ft) ==> lines_view(lines@) == Seq::new(
                        count as nat,
                        |i: int| encoded_item_line(hex_of(xs[i], None, 0, len, ft).0),
                    ),
                decreases rest@.len() + if going { 1int } else { 0int },
            {
                match parse_bytes_partial(rest.as_slice()) {
                    Ok(Some((item, k))) => {
                        if k == 0 || k > rest.len() {
                            going = false;
                        } else {
                            let ghost r = rest@;
                            proof {
                                lemma_item_bytes(r);
                                lemma_bytes_below_mono(item@, r.len(), len);
                            }
                            assert(cbor_sequence(r).0 == seq![item@] + cbor_sequence(r.skip(k as int)).0);
                            assert(xs[count as int] == item@) by {
                                assert((xs.take(count as int) + cbor_sequence(r).0)[count as int] == cbor_sequence(r).0[0]);
                            }
                            let text = render_hex(&item, f, Ghost(len));
                            let chars = chars_of(text.as_str());
                            let mut line = note_str("encoded cbor data item");
                            line.sublines = note_lines(chars.as_slice());
                            let ghost before = lines@;
                            proof { lemma_lines_view_push(lines@, line); }
                            lines.push(line);
                            rest = slice_range(rest.as_slice(), k, rest.len());
                            assert(rest@ =~= r.skip(k as int));
                            proof {
                                count = count + 1;
                            }
                            assert(xs.take(count as int) =~= xs.take(count - 1).push(item@));
                            assert(xs =~= xs.take(count as int) + cbor_sequence(rest@).0);
                            assert forall|ft: FloatTexts| #[trigger] renders(f, ft) implies lines_view(lines@) == Seq::new(
                                count as nat,
                                |i: int| encoded_item_line(hex_of(xs[i], None, 0, len, ft).0),
                            ) by {
                                assert(lines_view(lines@) =~= Seq::new(
                                    count as nat,
                                    |i: int| encoded_item_line(hex_of(xs[i], None, 0, len, ft).0),
                                ));
                            }
                        }
                    },
                    _ => {
                        going = false;
                    },
                }
            }
            assert(xs.take(count as int) =~= xs);
            if rest.len() > 0 {
                let message = match parse_bytes(rest.as_slice()) {
                    Err(e) => e.to_message(),
                    Ok(_) => owned(""),
                };
                proof { reveal_strlit(""); }
                let mut line = note_str("failed to parse remaining encoded cbor sequence");
                line.push(error_debug_line(&message));
                let ghost before = lines@;
                proof { lemma_lines_view_push(lines@, line); }
                lines.push(line);
                assert forall|ft: FloatTexts| #[trigger] renders(f, ft) implies lines_view(lines@) == encoded_cbor_seq_lines(value@, bound, ft) by {
                    assert(lines_view(lines@) =~= encoded_cbor_seq_lines(value@, bound, ft));
                }
            }
            lines
        },
        _ => one_line(note_str("invalid type for encoded cbor sequence")),
    }
}

impl DataItem {
    /// This item as annotated hex: each head on a line of its own, with a
    /// comment saying what it encodes, nested items indented under it;
    /// `f` gives the texts of floating point values. An item that asks for
    /// no float text (see `float_free`) is rendered without calling `f`.
    pub fn to_hex<F: Fn(u64, FloatWidth, FloatText) -> String>(&self, f: &F) -> (s: String)
        requires
            callable(f),
        ensures
            forall|ft: FloatTexts| #[trigger] renders(f, ft) ==> s@ == merged(hex_of(self@, None, 0, usize::MAX as nat + 1, ft).0),
            float_free(self@) ==> s@ == merged(hex_of(self@, None, 0, usize::MAX as nat + 1, no_float_texts()).0),
    {
        proof { lemma_item_bytes_bounded(self); }
        if is_float_free(self) {
            let no_text = |v: u64, w: FloatWidth, k: FloatText| -> (t: String)
                ensures
                    t@ == Seq::<char>::empty(),
            {
                String::new()
            };
            assert(renders(&no_text, no_float_texts()));
            let s = render_hex(self, &no_text, Ghost(usize::MAX as nat + 1));
            assert forall|ft: FloatTexts| #[trigger] renders(f, ft) implies s@ == merged(hex_of(self@, None, 0, usize::MAX as nat + 1, ft).0) by {
                lemma_hex_float_free(self@, None, 0, usize::MAX as nat + 1, no_float_texts(), ft);
            }
            s
        } else {
            render_hex(self, f, Ghost(usize::MAX as nat + 1))
        }
    }
}


/// The items of an array inherit the bounds on it.
proof fn lemma_array_parts(x: SpecItem, bound: nat)
    requires
        x is Array,
        bytes_below(x, bound),
    ensures
        forall|j: int| 0 <= j < x->Array_data.len() ==> bytes_below(#[trigger] x->Array_data[j], bound),
{
}

/// The keys and values of a map inherit the bounds on it.
proof fn lemma_map_parts(x: SpecItem, bound: nat)
    requires
        x is Mapping,
        bytes_below(x, bound),
    ensures
        forall|j: int| 0 <= j < x->Mapping_data.len() ==> bytes_below(#[trigger] x->Mapping_data[j].0, bound)
            && bytes_below(x->Mapping_data[j].1, bound),
{
}


} // verus!
