//! Rendering data items in diagnostic notation.
use vstd::prelude::*;
use vstd::utf8::encode_utf8;

use super::Encoding;
use crate::codecs::{
    base64_encode, base64_text, base64url_nopad_encode, hex_lower, hexlower_encode,
};
use crate::float::{
    FloatText, callable, classify, is_infinite, is_nan, is_sign_negative, renders,
};
use crate::syntax::{
    ByteString, DataItem, FloatWidth, IntegerWidth, Simple, SpecBytes, SpecItem, SpecText, Tag,
    TextString, bytestrings_view, items_view, lemma_items_view, lemma_pairs_view, pairs_view,
    textstrings_view,
};
use crate::text::{chars_of, decimal, decimal_len, lemma_decimal_len_bound, push_chars, push_decimal, push_str, string_from_chars};
use crate::parse::binary::{parse_bytes, parse_bytes_partial};
use super::bounds::{bytes_below, lemma_bytes_below_mono, lemma_item_bytes, lemma_item_bytes_bounded};
use super::hex::{cbor_sequence, parse_result, slice_range};
use super::floatfree::{float_free, is_float_free, lemma_diag_float_free, no_float_texts};

verus! {

/// The layout of diagnostic notation output.
#[derive(Copy, Clone, PartialEq, Eq)]
pub enum Layout {
    Pretty,
    Compact,
}

/// The float text functions that the specifications are given.
pub type FloatTexts = spec_fn(u64, FloatWidth, FloatText) -> Seq<char>;

/// The text marking the width an integer was encoded with.
pub open spec fn width_suffix(w: IntegerWidth) -> Seq<char> {
    match w {
        IntegerWidth::Eight => seq!['_', '0'],
        IntegerWidth::Sixteen => seq!['_', '1'],
        IntegerWidth::ThirtyTwo => seq!['_', '2'],
        IntegerWidth::SixtyFour => seq!['_', '3'],
        _ => Seq::empty(),
    }
}

/// The text marking the width a float was encoded with.
pub open spec fn float_suffix(w: FloatWidth) -> Seq<char> {
    match w {
        FloatWidth::Sixteen => seq!['_', '1'],
        FloatWidth::ThirtyTwo => seq!['_', '2'],
        FloatWidth::SixtyFour => seq!['_', '3'],
        _ => Seq::empty(),
    }
}

/// An unsigned integer (or tag number) in diagnostic notation.
pub open spec fn integer_diag(value: u64, w: IntegerWidth) -> Seq<char> {
    decimal(value as nat) + width_suffix(w)
}

/// A negative integer `-1 - value` in diagnostic notation.
pub open spec fn negative_diag(value: u64, w: IntegerWidth) -> Seq<char> {
    seq!['-'] + decimal(value as nat + 1) + width_suffix(w)
}

/// A byte string in diagnostic notation with the given suggested encoding.
pub open spec fn bytes_diag(data: Seq<u8>, enc: Encoding) -> Seq<char> {
    match enc {
        Encoding::Base64Url => "b64'"@ + base64_text(data, true, false) + seq!['\''],
        Encoding::Base64 => "b64'"@ + base64_text(data, false, true) + seq!['\''],
        Encoding::Base16 => "h'"@ + hex_lower(data) + seq!['\''],
    }
}

/// Text with `"` and `\` escaped by a backslash.
pub open spec fn escape_quoted(s: Seq<char>) -> Seq<char>
    decreases s.len(),
{
    if s.len() == 0 {
        Seq::empty()
    } else {
        escape_quoted(s.drop_last()) + if s.last() == '"' || s.last() == '\\' {
            seq!['\\', s.last()]
        } else {
            seq![s.last()]
        }
    }
}

/// A text string in diagnostic notation.
pub open spec fn text_diag(s: Seq<char>) -> Seq<char> {
    seq!['"'] + escape_quoted(s) + seq!['"']
}

/// A simple value in diagnostic notation.
pub open spec fn simple_diag(v: u8) -> Seq<char> {
    if v == 20 {
        "false"@
    } else if v == 21 {
        "true"@
    } else if v == 22 {
        "null"@
    } else if v == 23 {
        "undefined"@
    } else {
        "simple("@ + decimal(v as nat) + seq![')']
    }
}

/// A float in diagnostic notation.
pub open spec fn float_diag(v: u64, w: FloatWidth, ft: FloatTexts) -> Seq<char> {
    (if is_nan(v, w) {
        "NaN"@
    } else if is_infinite(v, w) {
        (if is_sign_negative(v, w) { seq!['-'] } else { Seq::empty() }) + "Infinity"@
    } else {
        let t = ft(v, w, FloatText::Diag);
        t + if !t.contains('.') && !t.contains('e') { seq!['.', '0'] } else { Seq::empty() }
    }) + float_suffix(w)
}

/// The suggested encoding inside a tag.
pub open spec fn tag_encoding(tag: u64, enc: Encoding) -> Encoding {
    if tag == 21 {
        Encoding::Base64Url
    } else if tag == 22 {
        Encoding::Base64
    } else if tag == 23 {
        Encoding::Base16
    } else {
        enc
    }
}

/// `n` spaces.
pub open spec fn spaces(n: nat) -> Seq<char> {
    Seq::new(n, |i: int| ' ')
}

/// The indentation of the items of a container.
pub open spec fn inner_indent(indent: nat, trivial: bool) -> nat {
    if trivial {
        indent
    } else if indent + 4 <= usize::MAX {
        indent + 4
    } else {
        usize::MAX as nat
    }
}

/// The rendered items of a container joined with their separators.
pub open spec fn join_items(parts: Seq<Seq<char>>, lay: Layout, trivial: bool, inner: nat) -> Seq<char>
    decreases parts.len(),
{
    if parts.len() == 0 {
        Seq::empty()
    } else if parts.len() == 1 {
        (if lay == Layout::Pretty && !trivial { seq!['\n'] + spaces(inner) } else { Seq::empty() }) + parts[0]
    } else {
        join_items(parts.drop_last(), lay, trivial, inner) + seq![','] + (if lay == Layout::Pretty {
            if trivial { seq![' '] } else { seq!['\n'] + spaces(inner) }
        } else {
            Seq::empty()
        }) + parts.last()
    }
}

/// The text written before an item of a container: a line break and the
/// indentation before the first item of a container that is laid out one
/// item per line, a comma and a space or line break before any other.
pub open spec fn item_separator(first: bool, lay: Layout, trivial: bool, inner: nat) -> Seq<char> {
    if first {
        if lay == Layout::Pretty && !trivial { seq!['\n'] + spaces(inner) } else { Seq::empty() }
    } else {
        seq![','] + if lay == Layout::Pretty {
            if trivial { seq![' '] } else { seq!['\n'] + spaces(inner) }
        } else {
            Seq::empty()
        }
    }
}

/// Joining one more item appends its separator and the item.
pub proof fn lemma_join_step(p: Seq<Seq<char>>, i: int, lay: Layout, trivial: bool, inner: nat)
    requires
        0 <= i < p.len(),
    ensures
        join_items(p.take(i + 1), lay, trivial, inner) == join_items(p.take(i), lay, trivial, inner)
            + item_separator(i == 0, lay, trivial, inner) + p[i],
{
    assert(p.take(i + 1).drop_last() =~= p.take(i));
    if i == 0 {
        assert(p.take(i) =~= Seq::<Seq<char>>::empty());
        assert(join_items(p.take(i), lay, trivial, inner) =~= Seq::<char>::empty());
        assert(join_items(p.take(i + 1), lay, trivial, inner) =~= join_items(p.take(i), lay, trivial, inner)
            + item_separator(i == 0, lay, trivial, inner) + p[i]);
    } else {
        assert(join_items(p.take(i + 1), lay, trivial, inner) =~= join_items(p.take(i), lay, trivial, inner)
            + item_separator(i == 0, lay, trivial, inner) + p[i]);
    }
}

/// A container in diagnostic notation, given its rendered items.
pub open spec fn container_diag(
    begin: char,
    parts: Seq<Seq<char>>,
    end: char,
    definite: bool,
    trivial: bool,
    lay: Layout,
    indent: nat,
) -> Seq<char> {
    seq![begin] + (if !definite {
        seq!['_'] + if trivial && lay == Layout::Pretty { seq![' '] } else { Seq::empty() }
    } else {
        Seq::empty()
    }) + join_items(parts, lay, trivial, inner_indent(indent, trivial)) + (if !trivial && lay == Layout::Pretty {
        seq![',', '\n'] + spaces(indent)
    } else {
        Seq::empty()
    }) + seq![end]
}

/// `a + b` capped at `usize::MAX`.
pub open spec fn sat(n: int) -> int {
    if n > usize::MAX { usize::MAX as int } else { n }
}

/// `a - b`, or zero when `b` is larger.
pub open spec fn sat_sub(a: int, b: int) -> int {
    if a >= b { a - b } else { 0 }
}

/// A rough estimate of the length of an item's diagnostic notation, which
/// may stop early once it reaches `max`.
pub open spec fn length_estimate(x: SpecItem, max: int, ft: FloatTexts) -> int
    decreases x, 0nat,
{
    match x {
        SpecItem::Integer { value, .. } => decimal(value as nat).len() as int + 2,
        SpecItem::Negative { value, .. } => decimal(value as nat).len() as int + 3,
        SpecItem::Float { value, bitwidth } => sat(encode_utf8(ft(value, bitwidth, FloatText::Plain)).len() as int + 3),
        SpecItem::Simple(v) => decimal(v as nat).len() as int + 8,
        SpecItem::ByteString(b) => sat(sat(b.data.len() as int * 2) + 4),
        SpecItem::TextString(t) => sat(encode_utf8(t.data).len() as int + 2),
        SpecItem::Array { data, .. } => estimate_items(data, 4, max, ft),
        SpecItem::Mapping { data, .. } => estimate_pairs(data, 4, max, ft),
        SpecItem::IndefiniteByteString(s) => estimate_chunks(s.map_values(|b: SpecBytes| sat(sat(b.data.len() as int * 2) + 4)), 4, max),
        SpecItem::IndefiniteTextString(s) => estimate_chunks(s.map_values(|t: SpecText| sat(encode_utf8(t.data).len() as int + 2)), 4, max),
        SpecItem::Tag { tag, value, .. } => {
            let e = decimal(tag as nat).len() as int + 2;
            if e < max { sat(e + length_estimate(*value, max - e, ft)) } else { e }
        },
    }
}

/// The running estimate over the items of an array.
pub open spec fn estimate_items(s: Seq<SpecItem>, len: int, max: int, ft: FloatTexts) -> int
    decreases s, 1nat,
{
    if s.len() == 0 {
        len
    } else {
        let len2 = sat(sat(len + length_estimate(s[0], sat_sub(max, len), ft)) + 2);
        if len2 >= max { len2 } else { estimate_items(s.skip(1), len2, max, ft) }
    }
}

/// The estimate of one key/value pair.
pub open spec fn estimate_pair(p: (SpecItem, SpecItem), max: int, ft: FloatTexts) -> int
    decreases p, 0nat,
{
    let e = length_estimate(p.0, max, ft);
    if e < max { sat(e + length_estimate(p.1, max - e, ft)) } else { e }
}

/// The running estimate over the pairs of a map.
pub open spec fn estimate_pairs(s: Seq<(SpecItem, SpecItem)>, len: int, max: int, ft: FloatTexts) -> int
    decreases s, 1nat,
{
    if s.len() == 0 {
        len
    } else {
        let len2 = sat(sat(len + estimate_pair(s[0], sat_sub(max, len), ft)) + 2);
        if len2 >= max { len2 } else { estimate_pairs(s.skip(1), len2, max, ft) }
    }
}

/// The running estimate over the chunks of an indefinite string, given
/// the estimate of each chunk.
pub open spec fn estimate_chunks(s: Seq<int>, len: int, max: int) -> int
    decreases s.len(),
{
    if s.len() == 0 {
        len
    } else {
        let len2 = sat(sat(len + s[0]) + 2);
        if len2 >= max { len2 } else { estimate_chunks(s.skip(1), len2, max) }
    }
}

/// Whether an item is short enough to be laid out on one line.
pub open spec fn is_trivial_item(x: SpecItem, ft: FloatTexts) -> bool {
    length_estimate(x, 60, ft) < 60
}


/// An item in diagnostic notation, rendered with the given layout, suggested
/// byte string encoding and indentation. Every byte string in the item is
/// shorter than `bound`.
pub open spec fn diag(x: SpecItem, lay: Layout, enc: Encoding, indent: nat, bound: nat, ft: FloatTexts) -> Seq<char>
    decreases bound, x, 1nat,
{
    let trivial = is_trivial_item(x, ft);
    let inner = inner_indent(indent, trivial);
    match x {
        SpecItem::Integer { value, bitwidth } => integer_diag(value, bitwidth),
        SpecItem::Negative { value, bitwidth } => negative_diag(value, bitwidth),
        SpecItem::ByteString(b) => bytes_diag(b.data, enc),
        SpecItem::TextString(t) => text_diag(t.data),
        SpecItem::IndefiniteByteString(_) => container_diag('(', diag_parts(x, lay, enc, inner, bound, ft), ')', false, trivial, lay, indent),
        SpecItem::IndefiniteTextString(_) => container_diag('(', diag_parts(x, lay, enc, inner, bound, ft), ')', false, trivial, lay, indent),
        SpecItem::Array { bitwidth, .. } => container_diag('[', diag_parts(x, lay, enc, inner, bound, ft), ']', bitwidth is Some, trivial, lay, indent),
        SpecItem::Mapping { bitwidth, .. } => container_diag('{', diag_parts(x, lay, enc, inner, bound, ft), '}', bitwidth is Some, trivial, lay, indent),
        SpecItem::Tag { tag, bitwidth, value } => integer_diag(tag, bitwidth) + seq!['('] + (if tag == 24 || tag == 63 {
            encoded_diag(tag, *value, lay, enc, indent, bound, ft)
        } else {
            diag(*value, lay, tag_encoding(tag, enc), indent, bound, ft)
        }) + seq![')'],
        SpecItem::Float { value, bitwidth } => float_diag(value, bitwidth, ft),
        SpecItem::Simple(v) => simple_diag(v),
    }
}

/// The item under an encoded data item tag (24) or encoded sequence tag
/// (63): the items its bytes encode in `<<` and `>>`, separated by commas,
/// then any bytes left over; a byte string that does not hold exactly one
/// item under tag 24 is written as it is.
pub open spec fn encoded_diag(tag: u64, v: SpecItem, lay: Layout, enc: Encoding, indent: nat, bound: nat, ft: FloatTexts) -> Seq<char>
    decreases bound, v, 2nat,
{
    match v {
        SpecItem::ByteString(b) => if b.data.len() < bound {
            if tag == 24 {
                if b.data.len() == 0 {
                    "<<>>"@
                } else {
                    match parse_result(b.data) {
                        Ok(x) => "<<"@ + diag(x, lay, enc, indent, b.data.len(), ft) + ">>"@,
                        Err(_) => diag(v, lay, enc, indent, bound, ft),
                    }
                }
            } else {
                let (xs, left) = cbor_sequence(b.data);
                "<<"@ + join_items(diags(xs, lay, enc, indent, b.data.len(), ft), lay, true, indent) + ">>"@ + (if left.len() > 0 {
                    (if lay == Layout::Pretty { seq![' '] } else { Seq::empty() }) + bytes_diag(left, enc)
                } else {
                    Seq::empty()
                })
            }
        } else {
            diag(v, lay, enc, indent, bound, ft)
        },
        _ => diag(v, lay, enc, indent, bound, ft),
    }
}

/// Items in diagnostic notation, each with the same layout, encoding and
/// indentation; every byte string in them is shorter than `bound`.
pub open spec fn diags(xs: Seq<SpecItem>, lay: Layout, enc: Encoding, indent: nat, bound: nat, ft: FloatTexts) -> Seq<Seq<char>>
    decreases bound, xs, 0nat,
{
    Seq::new(xs.len(), |i: int| if 0 <= i < xs.len() {
        diag(xs[i], lay, enc, indent, bound, ft)
    } else {
        Seq::empty()
    })
}

/// The rendered items of a container item.
pub open spec fn diag_parts(x: SpecItem, lay: Layout, enc: Encoding, inner: nat, bound: nat, ft: FloatTexts) -> Seq<Seq<char>>
    decreases bound, x, 0nat,
{
    match x {
        SpecItem::Array { data, .. } => Seq::new(data.len(), |i: int| if 0 <= i < data.len() {
            diag(data[i], lay, enc, inner, bound, ft)
        } else {
            Seq::empty()
        }),
        SpecItem::Mapping { data, .. } => Seq::new(data.len(), |i: int| if 0 <= i < data.len() {
            diag(data[i].0, lay, enc, inner, bound, ft) + seq![':'] + (if lay == Layout::Pretty { seq![' '] } else { Seq::empty() })
                + diag(data[i].1, lay, enc, inner, bound, ft)
        } else {
            Seq::empty()
        }),
        SpecItem::IndefiniteByteString(s) => s.map_values(|b: SpecBytes| bytes_diag(b.data, enc)),
        SpecItem::IndefiniteTextString(s) => s.map_values(|t: SpecText| text_diag(t.data)),
        _ => Seq::empty(),
    }
}

} // verus!

verus! {

/// The length in bytes of the UTF-8 encoding of a string.
fn utf8_len(s: &String) -> (n: usize)
    ensures
        n == encode_utf8(s@).len(),
{
    s.as_str().as_bytes().len()
}

/// `a * 2` capped at `usize::MAX`.
fn saturating_double(a: usize) -> (r: usize)
    ensures
        r == sat(a * 2),
{
    match a.checked_mul(2) {
        Some(r) => r,
        None => usize::MAX,
    }
}

/// The estimate of a byte string chunk.
fn bytestring_estimate(b: &ByteString) -> (r: usize)
    ensures
        r == sat(sat(b.data@.len() as int * 2) + 4),
{
    saturating_double(b.data.len()).saturating_add(4)
}

/// The estimate of a text string chunk.
fn textstring_estimate(t: &TextString) -> (r: usize)
    ensures
        r == sat(encode_utf8(t.data@).len() as int + 2),
{
    utf8_len(&t.data).saturating_add(2)
}

/// The running estimate over the items of an array, starting from `start`.
fn items_estimate<F: Fn(u64, FloatWidth, FloatText) -> String>(data: &[DataItem], start: usize, max: usize, f: &F) -> (r: usize)
    requires
        callable(f),
    ensures
        forall|ft: FloatTexts| #[trigger] renders(f, ft) ==> r == estimate_items(items_view(data@), start as int, max as int, ft),
    decreases data@, 1nat,
{
    let ghost v = items_view(data@);
    proof {
        lemma_items_view(data@);
        assert(v.skip(0) =~= v);
    }
    let mut len: usize = start;
    let mut i: usize = 0;
    while i < data.len()
        invariant
            i <= data@.len(),
            callable(f),
            v == items_view(data@),
            v.len() == data@.len(),
            forall|j: int| 0 <= j < data@.len() ==> #[trigger] v[j] == data@[j]@,
            forall|ft: FloatTexts| #[trigger] renders(f, ft) ==> estimate_items(v, start as int, max as int, ft)
                == estimate_items(v.skip(i as int), len as int, max as int, ft),
        decreases data@.len() - i,
    {
        let e = estimate(&data[i], max.saturating_sub(len), f);
        let len2 = len.saturating_add(e).saturating_add(2);
        proof {
            assert(v.skip(i as int)[0] == v[i as int]);
            assert(v.skip(i as int).skip(1) =~= v.skip(i + 1));
        }
        if len2 >= max {
            return len2;
        }
        i = i + 1;
        len = len2;
    }
    len
}

/// The running estimate over the pairs of a map, starting from `start`.
fn pairs_estimate<F: Fn(u64, FloatWidth, FloatText) -> String>(data: &[(DataItem, DataItem)], start: usize, max: usize, f: &F) -> (r: usize)
    requires
        callable(f),
    ensures
        forall|ft: FloatTexts| #[trigger] renders(f, ft) ==> r == estimate_pairs(pairs_view(data@), start as int, max as int, ft),
    decreases data@, 1nat,
{
    let ghost v = pairs_view(data@);
    proof {
        lemma_pairs_view(data@);
        assert(v.skip(0) =~= v);
    }
    let mut len: usize = start;
    let mut i: usize = 0;
    while i < data.len()
        invariant
            i <= data@.len(),
            callable(f),
            v == pairs_view(data@),
            v.len() == data@.len(),
            forall|j: int| 0 <= j < data@.len() ==> #[trigger] v[j] == (data@[j].0@, data@[j].1@),
            forall|ft: FloatTexts| #[trigger] renders(f, ft) ==> estimate_pairs(v, start as int, max as int, ft)
                == estimate_pairs(v.skip(i as int), len as int, max as int, ft),
        decreases data@.len() - i,
    {
        let m = max.saturating_sub(len);
        let e0 = estimate(&data[i].0, m, f);
        let e = if e0 < m {
            e0.saturating_add(estimate(&data[i].1, m - e0, f))
        } else {
            e0
        };
        let len2 = len.saturating_add(e).saturating_add(2);
        proof {
            assert(v.skip(i as int)[0] == v[i as int]);
            assert(v.skip(i as int).skip(1) =~= v.skip(i + 1));
            assert forall|ft: FloatTexts| #[trigger] renders(f, ft) implies e == estimate_pair(v[i as int], m as int, ft) by {
                assert(m as int == sat_sub(max as int, len as int));
            }
        }
        if len2 >= max {
            return len2;
        }
        i = i + 1;
        len = len2;
    }
    len
}

/// The running estimate over a sequence of chunk estimates.
fn chunks_estimate(Ghost(v): Ghost<Seq<int>>, es: &Vec<usize>, max: usize) -> (r: usize)
    requires
        es@.len() == v.len(),
        forall|j: int| 0 <= j < es@.len() ==> es@[j] as int == #[trigger] v[j],
    ensures
        r == estimate_chunks(v, 4, max as int),
{
    assert(v.skip(0) =~= v);
    let mut len: usize = 4;
    let mut i: usize = 0;
    while i < es.len()
        invariant
            i <= es@.len(),
            es@.len() == v.len(),
            forall|j: int| 0 <= j < es@.len() ==> es@[j] as int == #[trigger] v[j],
            estimate_chunks(v, 4, max as int) == estimate_chunks(v.skip(i as int), len as int, max as int),
        decreases es@.len() - i,
    {
        let len2 = len.saturating_add(es[i]).saturating_add(2);
        assert(v.skip(i as int)[0] == v[i as int]);
        assert(v.skip(i as int).skip(1) =~= v.skip(i + 1));
        assert(estimate_chunks(v.skip(i as int), len as int, max as int) == if len2 >= max {
            len2 as int
        } else {
            estimate_chunks(v.skip(i + 1), len2 as int, max as int)
        });
        if len2 >= max {
            return len2;
        }
        i = i + 1;
        len = len2;
    }
    len
}

/// A rough estimate of the length of an item's diagnostic notation, which
/// may stop early once it reaches `max`.
pub fn estimate<F: Fn(u64, FloatWidth, FloatText) -> String>(value: &DataItem, max: usize, f: &F) -> (r: usize)
    requires
        callable(f),
    ensures
        forall|ft: FloatTexts| #[trigger] renders(f, ft) ==> r == length_estimate(value@, max as int, ft),
    decreases value, 2nat,
{
    match value {
        DataItem::Integer { value: v, .. } => {
            proof { lemma_decimal_len_bound(*v as nat); }
            decimal_len(*v as u128) + 2
        },
        DataItem::Negative { value: v, .. } => {
            proof { lemma_decimal_len_bound(*v as nat); }
            decimal_len(*v as u128) + 3
        },
        DataItem::Float { value: v, bitwidth } => {
            let s = f(*v, *bitwidth, FloatText::Plain);
            utf8_len(&s).saturating_add(3)
        },
        DataItem::Simple(s) => {
            proof { lemma_decimal_len_bound(s.0 as nat); }
            decimal_len(s.0 as u128) + 8
        },
        DataItem::ByteString(b) => bytestring_estimate(b),
        DataItem::TextString(t) => textstring_estimate(t),
        DataItem::Array { data, .. } => items_estimate(data.as_slice(), 4, max, f),
        DataItem::Mapping { data, .. } => pairs_estimate(data.as_slice(), 4, max, f),
        DataItem::IndefiniteByteString(strings) => {
            let ghost v = bytestrings_view(strings@).map_values(|b: SpecBytes| sat(sat(b.data.len() as int * 2) + 4));
            let mut es: Vec<usize> = Vec::new();
            let mut i: usize = 0;
            while i < strings.len()
                invariant
                    i <= strings@.len(),
                    v == bytestrings_view(strings@).map_values(|b: SpecBytes| sat(sat(b.data.len() as int * 2) + 4)),
                    es@.len() == i,
                    forall|j: int| 0 <= j < i ==> es@[j] as int == #[trigger] v[j],
                decreases strings@.len() - i,
            {
                es.push(bytestring_estimate(&strings[i]));
                i = i + 1;
            }
            chunks_estimate(Ghost(v), &es, max)
        },
        DataItem::IndefiniteTextString(strings) => {
            let ghost v = textstrings_view(strings@).map_values(|t: SpecText| sat(encode_utf8(t.data).len() as int + 2));
            let mut es: Vec<usize> = Vec::new();
            let mut i: usize = 0;
            while i < strings.len()
                invariant
                    i <= strings@.len(),
                    v == textstrings_view(strings@).map_values(|t: SpecText| sat(encode_utf8(t.data).len() as int + 2)),
                    es@.len() == i,
                    forall|j: int| 0 <= j < i ==> es@[j] as int == #[trigger] v[j],
                decreases strings@.len() - i,
            {
                es.push(textstring_estimate(&strings[i]));
                i = i + 1;
            }
            chunks_estimate(Ghost(v), &es, max)
        },
        DataItem::Tag { tag, value: inner, .. } => {
            proof { lemma_decimal_len_bound(tag.0 as nat); }
            let e = decimal_len(tag.0 as u128) + 2;
            if e < max {
                e.saturating_add(estimate(inner, max - e, f))
            } else {
                e
            }
        },
    }
}

/// Whether an item is short enough to be laid out on one line.
pub fn is_trivial<F: Fn(u64, FloatWidth, FloatText) -> String>(value: &DataItem, f: &F) -> (b: bool)
    requires
        callable(f),
    ensures
        forall|ft: FloatTexts| #[trigger] renders(f, ft) ==> b == is_trivial_item(value@, ft),
{
    estimate(value, 60, f) < 60
}

} // verus!

verus! {

/// Whether `c` occurs in `s`.
fn has_char(s: &[char], c: char) -> (b: bool)
    ensures
        b == s@.contains(c),
{
    let mut i: usize = 0;
    while i < s.len()
        invariant
            i <= s@.len(),
            forall|j: int| 0 <= j < i ==> s@[j] != c,
        decreases s@.len() - i,
    {
        if s[i] == c {
            return true;
        }
        i = i + 1;
    }
    false
}

/// The state of a rendering in diagnostic notation: the text written so far,
/// the layout, the suggested byte string encoding and the current indentation.
pub struct Context {
    pub output: Vec<char>,
    pub layout: Layout,
    pub encoding: Encoding,
    pub indent: usize,
}

impl Context {
    /// A fresh context with the given layout.
    pub fn new(layout: Layout) -> (c: Context)
        ensures
            c.output@ == Seq::<char>::empty(),
            c.layout == layout,
            c.encoding == Encoding::Base16,
            c.indent == 0,
    {
        Context { output: Vec::new(), layout, encoding: Encoding::Base16, indent: 0 }
    }

    /// A context that goes on writing this context's text with another
    /// suggested encoding; the text moves to the new context.
    pub fn with_encoding(&mut self, encoding: Encoding) -> (c: Context)
        ensures
            c.output@ == old(self).output@,
            c.layout == old(self).layout,
            c.encoding == encoding,
            c.indent == old(self).indent,
            final(self).output@ == Seq::<char>::empty(),
            final(self).layout == old(self).layout,
            final(self).encoding == old(self).encoding,
            final(self).indent == old(self).indent,
    {
        let mut output: Vec<char> = Vec::new();
        std::mem::swap(&mut output, &mut self.output);
        Context { output, layout: self.layout, encoding, indent: self.indent }
    }

    /// Whether the layout is the pretty one.
    pub fn pretty(&self) -> (b: bool)
        ensures
            b == (self.layout == Layout::Pretty),
    {
        match self.layout {
            Layout::Pretty => true,
            Layout::Compact => false,
        }
    }

    /// Writes the current indentation.
    pub fn indent(&mut self)
        ensures
            final(self).output@ == old(self).output@ + spaces(old(self).indent as nat),
            final(self).layout == old(self).layout,
            final(self).encoding == old(self).encoding,
            final(self).indent == old(self).indent,
    {
        let ghost start = self.output@;
        let mut i: usize = 0;
        assert(start + spaces(0) =~= start);
        while i < self.indent
            invariant
                i <= self.indent,
                self.output@ == start + spaces(i as nat),
                start == old(self).output@,
                self.layout == old(self).layout,
                self.encoding == old(self).encoding,
                self.indent == old(self).indent,
            decreases self.indent - i,
        {
            self.output.push(' ');
            i = i + 1;
            assert(start + spaces(i as nat) =~= (start + spaces((i - 1) as nat)).push(' '));
        }
    }

    /// Starts a new line.
    pub fn line(&mut self)
        ensures
            final(self).output@ == old(self).output@.push('\n'),
            final(self).layout == old(self).layout,
            final(self).encoding == old(self).encoding,
            final(self).indent == old(self).indent,
    {
        self.output.push('\n');
    }

    /// Writes the suffix marking an encoded width.
    fn width_to_diag(&mut self, bitwidth: IntegerWidth)
        ensures
            final(self).output@ == old(self).output@ + width_suffix(bitwidth),
            final(self).layout == old(self).layout,
            final(self).encoding == old(self).encoding,
            final(self).indent == old(self).indent,
    {
        let d = match bitwidth {
            IntegerWidth::Eight => '0',
            IntegerWidth::Sixteen => '1',
            IntegerWidth::ThirtyTwo => '2',
            IntegerWidth::SixtyFour => '3',
            _ => {
                assert(width_suffix(bitwidth) =~= Seq::<char>::empty());
                return;
            },
        };
        self.output.push('_');
        self.output.push(d);
    }

    /// Writes an unsigned integer.
    pub fn integer_to_diag(&mut self, value: u64, bitwidth: IntegerWidth)
        ensures
            final(self).output@ == old(self).output@ + integer_diag(value, bitwidth),
            final(self).layout == old(self).layout,
            final(self).encoding == old(self).encoding,
            final(self).indent == old(self).indent,
    {
        push_decimal(&mut self.output, value as u128);
        self.width_to_diag(bitwidth);
    }

    /// Writes the negative integer `-1 - value`.
    pub fn negative_to_diag(&mut self, value: u64, bitwidth: IntegerWidth)
        ensures
            final(self).output@ == old(self).output@ + negative_diag(value, bitwidth),
            final(self).layout == old(self).layout,
            final(self).encoding == old(self).encoding,
            final(self).indent == old(self).indent,
    {
        self.output.push('-');
        push_decimal(&mut self.output, value as u128 + 1);
        self.width_to_diag(bitwidth);
    }

    /// Writes a byte string in the suggested encoding.
    pub fn definite_bytestring_to_diag(&mut self, bytestring: &ByteString)
        ensures
            final(self).output@ == old(self).output@ + bytes_diag(bytestring.data@, old(self).encoding),
            final(self).layout == old(self).layout,
            final(self).encoding == old(self).encoding,
            final(self).indent == old(self).indent,
    {
        let text = match self.encoding {
            Encoding::Base64Url => {
                push_str(&mut self.output, "b64'");
                base64url_nopad_encode(bytestring.data.as_slice())
            },
            Encoding::Base64 => {
                push_str(&mut self.output, "b64'");
                base64_encode(bytestring.data.as_slice())
            },
            Encoding::Base16 => {
                push_str(&mut self.output, "h'");
                hexlower_encode(bytestring.data.as_slice())
            },
        };
        push_str(&mut self.output, text.as_str());
        self.output.push('\'');
    }

    /// Writes a text string in quotes, escaping `"` and `\`.
    pub fn definite_textstring_to_diag(&mut self, textstring: &TextString)
        ensures
            final(self).output@ == old(self).output@ + text_diag(textstring.data@),
            final(self).layout == old(self).layout,
            final(self).encoding == old(self).encoding,
            final(self).indent == old(self).indent,
    {
        let chars = chars_of(textstring.data.as_str());
        self.output.push('"');
        let ghost start = self.output@;
        let mut i: usize = 0;
        while i < chars.len()
            invariant
                i <= chars@.len(),
                self.output@ == start + escape_quoted(chars@.take(i as int)),
                self.layout == old(self).layout,
                self.encoding == old(self).encoding,
                self.indent == old(self).indent,
            decreases chars@.len() - i,
        {
            let c = chars[i];
            if c == '"' || c == '\\' {
                self.output.push('\\');
            }
            self.output.push(c);
            i = i + 1;
            assert(chars@.take(i as int).drop_last() =~= chars@.take(i - 1));
        }
        assert(chars@.take(chars@.len() as int) =~= chars@);
        self.output.push('"');
        assert(self.output@ =~= old(self).output@ + text_diag(textstring.data@));
    }

    /// Writes a simple value.
    pub fn simple_to_diag(&mut self, simple: Simple)
        ensures
            final(self).output@ == old(self).output@ + simple_diag(simple.0),
            final(self).layout == old(self).layout,
            final(self).encoding == old(self).encoding,
            final(self).indent == old(self).indent,
    {
        if simple.0 == Simple::FALSE {
            push_str(&mut self.output, "false");
        } else if simple.0 == Simple::TRUE {
            push_str(&mut self.output, "true");
        } else if simple.0 == Simple::NULL {
            push_str(&mut self.output, "null");
        } else if simple.0 == Simple::UNDEFINED {
            push_str(&mut self.output, "undefined");
        } else {
            push_str(&mut self.output, "simple(");
            push_decimal(&mut self.output, simple.0 as u128);
            self.output.push(')');
        }
    }

    /// Writes a floating point value given by its bit pattern, with the text
    /// of finite values from `f`.
    pub fn float_to_diag<F: Fn(u64, FloatWidth, FloatText) -> String>(&mut self, value: u64, bitwidth: FloatWidth, f: &F)
        requires
            callable(f),
        ensures
            forall|ft: FloatTexts| #[trigger] renders(f, ft) ==> final(self).output@ == old(self).output@
                + float_diag(value, bitwidth, ft),
            final(self).layout == old(self).layout,
            final(self).encoding == old(self).encoding,
            final(self).indent == old(self).indent,
    {
        let (nan, infinite, negative) = classify(value, bitwidth);
        if nan {
            push_str(&mut self.output, "NaN");
        } else if infinite {
            if negative {
                self.output.push('-');
            }
            push_str(&mut self.output, "Infinity");
        } else {
            let text = f(value, bitwidth, FloatText::Diag);
            let chars = chars_of(text.as_str());
            push_chars(&mut self.output, chars.as_slice());
            if !has_char(chars.as_slice(), '.') && !has_char(chars.as_slice(), 'e') {
                self.output.push('.');
                self.output.push('0');
            }
        }
        match bitwidth {
            FloatWidth::Unknown => {},
            FloatWidth::Sixteen => push_str(&mut self.output, "_1"),
            FloatWidth::ThirtyTwo => push_str(&mut self.output, "_2"),
            FloatWidth::SixtyFour => push_str(&mut self.output, "_3"),
        }
        proof {
            reveal_strlit("_1");
            reveal_strlit("_2");
            reveal_strlit("_3");
        }
        assert forall|ft: FloatTexts| #[trigger] renders(f, ft) implies self.output@ == old(self).output@
            + float_diag(value, bitwidth, ft) by {
            assert(self.output@ =~= old(self).output@ + float_diag(value, bitwidth, ft));
        }
    }
}

} // verus!

verus! {

/// The number of rendered parts of a container item.
pub open spec fn part_count(x: SpecItem) -> nat {
    match x {
        SpecItem::Array { data, .. } => data.len(),
        SpecItem::Mapping { data, .. } => data.len(),
        SpecItem::IndefiniteByteString(s) => s.len(),
        SpecItem::IndefiniteTextString(s) => s.len(),
        _ => 0,
    }
}

impl Context {
    /// Writes item `i` of an array.
    fn array_item_to_diag<F: Fn(u64, FloatWidth, FloatText) -> String>(&mut self, data: &[DataItem], i: usize, f: &F, Ghost(bound): Ghost<nat>)
        requires
            callable(f),
            i < data@.len(),
            bytes_below(data@[i as int]@, bound),
        ensures
            forall|ft: FloatTexts| #[trigger] renders(f, ft) ==> final(self).output@ == old(self).output@
                + diag(data@[i as int]@, old(self).layout, old(self).encoding, old(self).indent as nat, bound, ft),
            final(self).layout == old(self).layout,
            final(self).encoding == old(self).encoding,
            final(self).indent == old(self).indent,
        decreases bound, data@, 0nat,
    {
        self.item_to_diag(&data[i], f, Ghost(bound));
    }

    /// Writes entry `i` of a map: the key, a colon and the value.
    fn map_entry_to_diag<F: Fn(u64, FloatWidth, FloatText) -> String>(&mut self, data: &[(DataItem, DataItem)], i: usize, f: &F, Ghost(bound): Ghost<nat>)
        requires
            callable(f),
            i < data@.len(),
            bytes_below(data@[i as int].0@, bound),
            bytes_below(data@[i as int].1@, bound),
        ensures
            forall|ft: FloatTexts| #[trigger] renders(f, ft) ==> final(self).output@ == old(self).output@
                + diag(data@[i as int].0@, old(self).layout, old(self).encoding, old(self).indent as nat, bound, ft)
                + seq![':'] + (if old(self).layout == Layout::Pretty { seq![' '] } else { Seq::empty() })
                + diag(data@[i as int].1@, old(self).layout, old(self).encoding, old(self).indent as nat, bound, ft),
            final(self).layout == old(self).layout,
            final(self).encoding == old(self).encoding,
            final(self).indent == old(self).indent,
        decreases bound, data@, 0nat,
    {
        let ghost start = self.output@;
        self.item_to_diag(&data[i].0, f, Ghost(bound));
        let ghost mid = self.output@;
        self.output.push(':');
        if self.pretty() {
            self.output.push(' ');
        }
        let ghost mid2 = self.output@;
        self.item_to_diag(&data[i].1, f, Ghost(bound));
        assert forall|ft: FloatTexts| #[trigger] renders(f, ft) implies self.output@ == start
            + diag(data@[i as int].0@, old(self).layout, old(self).encoding, old(self).indent as nat, bound, ft)
            + seq![':'] + (if old(self).layout == Layout::Pretty { seq![' '] } else { Seq::empty() })
            + diag(data@[i as int].1@, old(self).layout, old(self).encoding, old(self).indent as nat, bound, ft) by {
            assert(self.output@ =~= start
                + diag(data@[i as int].0@, old(self).layout, old(self).encoding, old(self).indent as nat, bound, ft)
                + seq![':'] + (if old(self).layout == Layout::Pretty { seq![' '] } else { Seq::empty() })
                + diag(data@[i as int].1@, old(self).layout, old(self).encoding, old(self).indent as nat, bound, ft));
        }
    }

    /// Writes part `i` of a container item.
    fn part_to_diag<F: Fn(u64, FloatWidth, FloatText) -> String>(&mut self, value: &DataItem, i: usize, f: &F, Ghost(bound): Ghost<nat>)
        requires
            callable(f),
            bytes_below(value@, bound),
            i < part_count(value@),
        ensures
            forall|ft: FloatTexts| #[trigger] renders(f, ft) ==> final(self).output@ == old(self).output@
                + diag_parts(value@, old(self).layout, old(self).encoding, old(self).indent as nat, bound, ft)[i as int],
            final(self).layout == old(self).layout,
            final(self).encoding == old(self).encoding,
            final(self).indent == old(self).indent,
        decreases bound, value, 1nat,
    {
        match value {
            DataItem::Array { data, .. } => {
                proof { lemma_items_view(data@); }
                assert(bytes_below(items_view(data@)[i as int], bound));
                self.array_item_to_diag(data.as_slice(), i, f, Ghost(bound));
            },
            DataItem::Mapping { data, .. } => {
                proof { lemma_pairs_view(data@); }
                assert(bytes_below(pairs_view(data@)[i as int].0, bound));
                assert(bytes_below(pairs_view(data@)[i as int].1, bound));
                self.map_entry_to_diag(data.as_slice(), i, f, Ghost(bound));
            },
            DataItem::IndefiniteByteString(strings) => {
                self.definite_bytestring_to_diag(&strings[i]);
            },
            DataItem::IndefiniteTextString(strings) => {
                self.definite_textstring_to_diag(&strings[i]);
            },
            _ => {},
        }
    }

    /// Writes the separator before part `i` of a container and the part.
    fn separated_part_to_diag<F: Fn(u64, FloatWidth, FloatText) -> String>(
        &mut self,
        value: &DataItem,
        i: usize,
        trivial: bool,
        f: &F,
        Ghost(bound): Ghost<nat>,
    )
        requires
            callable(f),
            bytes_below(value@, bound),
            i < part_count(value@),
        ensures
            forall|ft: FloatTexts| #[trigger] renders(f, ft) ==> final(self).output@ == old(self).output@
                + item_separator(i == 0, old(self).layout, trivial, old(self).indent as nat)
                + diag_parts(value@, old(self).layout, old(self).encoding, old(self).indent as nat, bound, ft)[i as int],
            final(self).layout == old(self).layout,
            final(self).encoding == old(self).encoding,
            final(self).indent == old(self).indent,
        decreases bound, value, 2nat,
    {
        if i == 0 {
            if self.pretty() && !trivial {
                self.line();
                self.indent();
            }
        } else {
            self.output.push(',');
            if self.pretty() {
                if trivial {
                    self.output.push(' ');
                } else {
                    self.line();
                    self.indent();
                }
            }
        }
        let ghost mid = self.output@;
        assert(mid =~= old(self).output@ + item_separator(i == 0, old(self).layout, trivial, old(self).indent as nat));
        self.part_to_diag(value, i, f, Ghost(bound));
        assert forall|ft: FloatTexts| #[trigger] renders(f, ft) implies self.output@ == old(self).output@
            + item_separator(i == 0, old(self).layout, trivial, old(self).indent as nat)
            + diag_parts(value@, old(self).layout, old(self).encoding, old(self).indent as nat, bound, ft)[i as int] by {
            assert(self.output@ =~= old(self).output@
                + item_separator(i == 0, old(self).layout, trivial, old(self).indent as nat)
                + diag_parts(value@, old(self).layout, old(self).encoding, old(self).indent as nat, bound, ft)[i as int]);
        }
    }

    /// Writes the parts of a container with their separators.
    fn parts_to_diag<F: Fn(u64, FloatWidth, FloatText) -> String>(&mut self, value: &DataItem, trivial: bool, f: &F, Ghost(bound): Ghost<nat>)
        requires
            callable(f),
            bytes_below(value@, bound),
        ensures
            forall|ft: FloatTexts| #[trigger] renders(f, ft) ==> final(self).output@ == old(self).output@
                + join_items(diag_parts(value@, old(self).layout, old(self).encoding, old(self).indent as nat, bound, ft),
                    old(self).layout, trivial, old(self).indent as nat),
            final(self).layout == old(self).layout,
            final(self).encoding == old(self).encoding,
            final(self).indent == old(self).indent,
        decreases bound, value, 3nat,
    {
        let ghost lay = self.layout;
        let ghost enc = self.encoding;
        let ghost inner = self.indent as nat;
        let ghost prefix = self.output@;
        let n: usize = match value {
            DataItem::Array { data, .. } => data.len(),
            DataItem::Mapping { data, .. } => data.len(),
            DataItem::IndefiniteByteString(strings) => strings.len(),
            DataItem::IndefiniteTextString(strings) => strings.len(),
            _ => 0,
        };
        proof {
            match value {
                DataItem::Array { data, .. } => lemma_items_view(data@),
                DataItem::Mapping { data, .. } => lemma_pairs_view(data@),
                _ => {},
            }
        }
        assert(n == part_count(value@));
        assert forall|ft: FloatTexts| #[trigger] renders(f, ft) implies self.output@ == prefix
            + join_items(diag_parts(value@, lay, enc, inner, bound, ft).take(0), lay, trivial, inner)
            && diag_parts(value@, lay, enc, inner, bound, ft).len() == n by {
            assert(diag_parts(value@, lay, enc, inner, bound, ft).take(0) =~= Seq::<Seq<char>>::empty());
            assert(prefix + Seq::<char>::empty() =~= prefix);
        }
        let mut i: usize = 0;
        while i < n
            invariant
                i <= n,
                n == part_count(value@),
                callable(f),
                bytes_below(value@, bound),
                self.layout == lay,
                self.encoding == enc,
                self.indent == inner,
                forall|ft: FloatTexts| #[trigger] renders(f, ft) ==> self.output@ == prefix
                    + join_items(diag_parts(value@, lay, enc, inner, bound, ft).take(i as int), lay, trivial, inner)
                    && diag_parts(value@, lay, enc, inner, bound, ft).len() == n,
            decreases n - i,
        {
            self.separated_part_to_diag(value, i, trivial, f, Ghost(bound));
            proof {
                assert forall|ft: FloatTexts| #[trigger] renders(f, ft) implies self.output@ == prefix
                    + join_items(diag_parts(value@, lay, enc, inner, bound, ft).take(i + 1), lay, trivial, inner) by {
                    lemma_join_step(diag_parts(value@, lay, enc, inner, bound, ft), i as int, lay, trivial, inner);
                }
            }
            i = i + 1;
        }
        assert forall|ft: FloatTexts| #[trigger] renders(f, ft) implies self.output@ == prefix
            + join_items(diag_parts(value@, lay, enc, inner, bound, ft), lay, trivial, inner) by {
            assert(diag_parts(value@, lay, enc, inner, bound, ft).take(n as int) =~= diag_parts(value@, lay, enc, inner, bound, ft));
        }
    }

    #[verifier::spinoff_prover]
    #[verifier::rlimit(40)]
    /// Writes a container item: `begin`, an underscore when it is of
    /// indefinite length, its parts separated by commas, and `end`; items
    /// that are not trivial are laid out one per line in the pretty layout.
    pub fn container_to_diag<F: Fn(u64, FloatWidth, FloatText) -> String>(
        &mut self,
        begin: char,
        value: &DataItem,
        end: char,
        definite: bool,
        trivial: bool,
        f: &F,
        Ghost(bound): Ghost<nat>,
    )
        requires
            callable(f),
            bytes_below(value@, bound),
        ensures
            forall|ft: FloatTexts| #[trigger] renders(f, ft) ==> final(self).output@ == old(self).output@
                + container_diag(
                    begin,
                    diag_parts(value@, old(self).layout, old(self).encoding, inner_indent(old(self).indent as nat, trivial), bound, ft),
                    end,
                    definite,
                    trivial,
                    old(self).layout,
                    old(self).indent as nat,
                ),
            final(self).layout == old(self).layout,
            final(self).encoding == old(self).encoding,
            final(self).indent == old(self).indent,
        decreases bound, value, 4nat,
    {
        let ghost lay = self.layout;
        let ghost enc = self.encoding;
        let ghost inner = inner_indent(self.indent as nat, trivial);
        self.output.push(begin);
        if !definite {
            self.output.push('_');
            if trivial && self.pretty() {
                self.output.push(' ');
            }
        }
        let ghost prefix = self.output@;
        let saved = self.indent;
        if !trivial {
            self.indent = saved.saturating_add(4);
        }
        self.parts_to_diag(value, trivial, f, Ghost(bound));
        self.indent = saved;
        let ghost body = self.output@;
        if !trivial && self.pretty() {
            self.output.push(',');
            self.line();
            self.indent();
        }
        self.output.push(end);
        assert forall|ft: FloatTexts| #[trigger] renders(f, ft) implies self.output@ == old(self).output@
            + container_diag(begin, diag_parts(value@, lay, enc, inner, bound, ft), end, definite, trivial, lay, old(self).indent as nat) by {
            assert(self.output@ =~= old(self).output@
                + container_diag(begin, diag_parts(value@, lay, enc, inner, bound, ft), end, definite, trivial, lay, old(self).indent as nat));
        }
    }

    /// Writes an indefinite length string: its chunks in parentheses.
    pub fn indefinite_string_to_diag<F: Fn(u64, FloatWidth, FloatText) -> String>(
        &mut self,
        value: &DataItem,
        trivial: bool,
        f: &F,
        Ghost(bound): Ghost<nat>,
    )
        requires
            callable(f),
            bytes_below(value@, bound),
        ensures
            forall|ft: FloatTexts| #[trigger] renders(f, ft) ==> final(self).output@ == old(self).output@
                + container_diag(
                    '(',
                    diag_parts(value@, old(self).layout, old(self).encoding, inner_indent(old(self).indent as nat, trivial), bound, ft),
                    ')',
                    false,
                    trivial,
                    old(self).layout,
                    old(self).indent as nat,
                ),
            final(self).layout == old(self).layout,
            final(self).encoding == old(self).encoding,
            final(self).indent == old(self).indent,
        decreases bound, value, 5nat,
    {
        self.container_to_diag('(', value, ')', false, trivial, f, Ghost(bound));
    }

    /// Writes a tagged item: the tag number and the item in parentheses,
    /// the item with the encoding that the tag suggests.
    pub fn tagged_to_diag<F: Fn(u64, FloatWidth, FloatText) -> String>(
        &mut self,
        tag: Tag,
        bitwidth: IntegerWidth,
        value: &DataItem,
        f: &F,
        Ghost(bound): Ghost<nat>,
    )
        requires
            callable(f),
            bytes_below(value@, bound),
        ensures
            forall|ft: FloatTexts| #[trigger] renders(f, ft) ==> final(self).output@ == old(self).output@
                + integer_diag(tag.0, bitwidth) + seq!['('] + (if tag.0 == 24 || tag.0 == 63 {
                    encoded_diag(tag.0, value@, old(self).layout, old(self).encoding, old(self).indent as nat, bound, ft)
                } else {
                    diag(value@, old(self).layout, tag_encoding(tag.0, old(self).encoding), old(self).indent as nat, bound, ft)
                }) + seq![')'],
            final(self).layout == old(self).layout,
            final(self).encoding == old(self).encoding,
            final(self).indent == old(self).indent,
        decreases bound, value, 9nat,
    {
        self.integer_to_diag(tag.0, bitwidth);
        self.output.push('(');
        if tag.0 == Tag::ENCODED_CBOR || tag.0 == Tag::ENCODED_CBOR_SEQ {
            let ghost mid = self.output@;
            self.encoded_to_diag(tag.0, value, f, Ghost(bound));
            self.output.push(')');
            assert forall|ft: FloatTexts| #[trigger] renders(f, ft) implies self.output@ == old(self).output@
                + integer_diag(tag.0, bitwidth) + seq!['(']
                + encoded_diag(tag.0, value@, old(self).layout, old(self).encoding, old(self).indent as nat, bound, ft)
                + seq![')'] by {
                assert(self.output@ =~= old(self).output@
                    + integer_diag(tag.0, bitwidth) + seq!['(']
                    + encoded_diag(tag.0, value@, old(self).layout, old(self).encoding, old(self).indent as nat, bound, ft)
                    + seq![')']);
            }
            return;
        }
        let encoding = if tag.0 == Tag::ENCODED_BASE64URL {
            Encoding::Base64Url
        } else if tag.0 == Tag::ENCODED_BASE64 {
            Encoding::Base64
        } else if tag.0 == Tag::ENCODED_BASE16 {
            Encoding::Base16
        } else {
            self.encoding
        };
        let ghost mid = self.output@;
        let mut inner = self.with_encoding(encoding);
        inner.item_to_diag(value, f, Ghost(bound));
        self.output = inner.output;
        self.output.push(')');
        assert forall|ft: FloatTexts| #[trigger] renders(f, ft) implies self.output@ == old(self).output@
            + integer_diag(tag.0, bitwidth) + seq!['(']
            + diag(value@, old(self).layout, tag_encoding(tag.0, old(self).encoding), old(self).indent as nat, bound, ft)
            + seq![')'] by {
            assert(self.output@ =~= old(self).output@
                + integer_diag(tag.0, bitwidth) + seq!['(']
                + diag(value@, old(self).layout, tag_encoding(tag.0, old(self).encoding), old(self).indent as nat, bound, ft)
                + seq![')']);
        }
    }

    /// Writes the item under an encoded data item or sequence tag (see
    /// `encoded_diag`).
    #[verifier::spinoff_prover]
    #[verifier::rlimit(40)]
    fn encoded_to_diag<F: Fn(u64, FloatWidth, FloatText) -> String>(
        &mut self,
        tag: u64,
        value: &DataItem,
        f: &F,
        Ghost(bound): Ghost<nat>,
    )
        requires
            callable(f),
            bytes_below(value@, bound),
        ensures
            forall|ft: FloatTexts| #[trigger] renders(f, ft) ==> final(self).output@ == old(self).output@
                + encoded_diag(tag, value@, old(self).layout, old(self).encoding, old(self).indent as nat, bound, ft),
            final(self).layout == old(self).layout,
            final(self).encoding == old(self).encoding,
            final(self).indent == old(self).indent,
        decreases bound, value, 8nat,
    {
        let ghost lay = self.layout;
        let ghost enc = self.encoding;
        let ghost ind = self.indent as nat;
        match value {
            DataItem::ByteString(b) => {
                let data = b.data.as_slice();
                let ghost len = data@.len();
                if tag == 24 {
                    if data.len() == 0 {
                        push_str(&mut self.output, "<<>>");
                    } else {
                        match parse_bytes(data) {
                            Ok(item) => {
                                proof {
                                    lemma_item_bytes(data@);
                                }
                                assert(parse_result(data@) == Ok::<SpecItem, Seq<char>>(item@));
                                let ghost start = self.output@;
                                push_str(&mut self.output, "<<");
                                self.item_to_diag(&item, f, Ghost(len));
                                push_str(&mut self.output, ">>");
                                assert forall|ft: FloatTexts| #[trigger] renders(f, ft) implies self.output@ == start
                                    + encoded_diag(tag, value@, lay, enc, ind, bound, ft) by {
                                    assert(self.output@ =~= start + ("<<"@ + diag(item@, lay, enc, ind, len, ft) + ">>"@));
                                }
                            },
                            Err(_) => {
                                self.item_to_diag(value, f, Ghost(bound));
                            },
                        }
                    }
                } else {
                    let ghost start = self.output@;
                    let ghost xs = cbor_sequence(data@).0;
                    push_str(&mut self.output, "<<");
                    let ghost open = self.output@;
                    let mut rest = slice_range(data, 0, data.len());
                    assert(rest@ =~= data@);
                    let ghost mut count: nat = 0;
                    let mut first = true;
                    let mut going = true;
                    assert(xs.take(0) + cbor_sequence(rest@).0 =~= xs);
                    assert forall|ft: FloatTexts| #[trigger] renders(f, ft) implies self.output@ == open + join_items(
                        diags(xs, lay, enc, ind, len, ft).take(count as int),
                        lay,
                        true,
                        ind,
                    ) by {
                        assert(diags(xs, lay, enc, ind, len, ft).take(0) =~= Seq::<Seq<char>>::empty());
                        assert(open + Seq::<char>::empty() =~= open);
                    }
                    while going
                        invariant
                            callable(f),
                            len == data@.len(),
                            len < bound,
                            rest@.len() <= len,
                            count <= xs.len(),
                            first == (count == 0),
                            xs == cbor_sequence(data@).0,
                            xs == xs.take(count as int) + cbor_sequence(rest@).0,
                            cbor_sequence(data@).1 == cbor_sequence(rest@).1,
                            !going ==> cbor_sequence(rest@).0.len() == 0 && cbor_sequence(rest@).1 == rest@,
                            self.layout == lay,
                            self.encoding == enc,
                            self.indent == ind,
                            forall|ft: FloatTexts| #[trigger] renders(f, ft) ==> self.output@ == open + join_items(
                                diags(xs, lay, enc, ind, len, ft).take(count as int),
                                lay,
                                true,
                                ind,
                            ),
                        decreases rest@.len() + if going { 1int } else { 0int },
                    {
                        match parse_bytes_partial(rest.as_slice()) {
                            Ok(Some((item, k))) => {
                                if k == 0 || k > rest.len() {
                                    going = false;
                                } else {
                                    let ghost r = rest@;
                                    let ghost before = self.output@;
                                    proof {
                                        lemma_item_bytes(r);
                                        lemma_bytes_below_mono(item@, r.len(), len);
                                    }
                                    assert(cbor_sequence(r).0 == seq![item@] + cbor_sequence(r.skip(k as int)).0);
                                    assert(xs[count as int] == item@) by {
                                        assert((xs.take(count as int) + cbor_sequence(r).0)[count as int] == cbor_sequence(r).0[0]);
                                    }
                                    if !first {
                                        self.output.push(',');
                                        if self.pretty() {
                                            self.output.push(' ');
                                        }
                                    }
                                    let ghost sep = self.output@;
                                    assert(sep =~= before + item_separator(count == 0, lay, true, ind));
                                    self.item_to_diag(&item, f, Ghost(len));
                                    rest = slice_range(rest.as_slice(), k, rest.len());
                                    assert(rest@ =~= r.skip(k as int));
                                    assert forall|ft: FloatTexts| #[trigger] renders(f, ft) implies self.output@ == open + join_items(
                                        diags(xs, lay, enc, ind, len, ft).take((count + 1) as int),
                                        lay,
                                        true,
                                        ind,
                                    ) by {
                                        lemma_join_step(diags(xs, lay, enc, ind, len, ft), count as int, lay, true, ind);
                                        assert(self.output@ =~= open + join_items(
                                            diags(xs, lay, enc, ind, len, ft).take(count as int),
                                            lay,
                                            true,
                                            ind,
                                        ) + item_separator(count == 0, lay, true, ind) + diag(item@, lay, enc, ind, len, ft));
                                    }
                                    proof {
                                        count = count + 1;
                                    }
                                    first = false;
                                    assert(xs.take(count as int) =~= xs.take(count - 1).push(item@));
                                    assert(xs =~= xs.take(count as int) + cbor_sequence(rest@).0);
                                }
                            },
                            _ => {
                                going = false;
                            },
                        }
                    }
                    assert(xs.take(count as int) =~= xs);
                    let ghost left = cbor_sequence(data@).1;
                    assert(left == rest@);
                    let ghost joined = self.output@;
                    push_str(&mut self.output, ">>");
                    let ghost closed = self.output@;
                    if rest.len() > 0 {
                        if self.pretty() {
                            self.output.push(' ');
                        }
                        let ghost spaced = self.output@;
                        let left_bytes = ByteString { data: rest, bitwidth: IntegerWidth::Unknown };
                        self.definite_bytestring_to_diag(&left_bytes);
                        assert(self.output@ =~= closed + ((if lay == Layout::Pretty { seq![' '] } else { Seq::empty() }) + bytes_diag(left, enc)));
                    } else {
                        assert(self.output@ =~= closed + Seq::<char>::empty());
                    }
                    let ghost trailer = if left.len() > 0 {
                        (if lay == Layout::Pretty { seq![' '] } else { Seq::<char>::empty() }) + bytes_diag(left, enc)
                    } else {
                        Seq::<char>::empty()
                    };
                    assert(self.output@ == closed + trailer);
                    assert forall|ft: FloatTexts| #[trigger] renders(f, ft) implies self.output@ == start
                        + encoded_diag(tag, value@, lay, enc, ind, bound, ft) by {
                        let parts = diags(xs, lay, enc, ind, len, ft);
                        assert(parts.take(xs.len() as int) =~= parts);
                        assert(value@ == SpecItem::ByteString(b@));
                        assert(joined == open + join_items(parts, lay, true, ind));
                        assert(encoded_diag(tag, value@, lay, enc, ind, bound, ft)
                            == "<<"@ + join_items(parts, lay, true, ind) + ">>"@ + trailer);
                        assert(self.output@ =~= start + ("<<"@ + join_items(parts, lay, true, ind) + ">>"@ + trailer));
                    }
                }
            },
            _ => {
                self.item_to_diag(value, f, Ghost(bound));
            },
        }
    }

    /// Writes a data item.
    pub fn item_to_diag<F: Fn(u64, FloatWidth, FloatText) -> String>(&mut self, value: &DataItem, f: &F, Ghost(bound): Ghost<nat>)
        requires
            callable(f),
            bytes_below(value@, bound),
        ensures
            forall|ft: FloatTexts| #[trigger] renders(f, ft) ==> final(self).output@ == old(self).output@
                + diag(value@, old(self).layout, old(self).encoding, old(self).indent as nat, bound, ft),
            final(self).layout == old(self).layout,
            final(self).encoding == old(self).encoding,
            final(self).indent == old(self).indent,
        decreases bound, value, 6nat,
    {
        match value {
            DataItem::Integer { value: v, bitwidth } => self.integer_to_diag(*v, *bitwidth),
            DataItem::Negative { value: v, bitwidth } => self.negative_to_diag(*v, *bitwidth),
            DataItem::ByteString(bytestring) => self.definite_bytestring_to_diag(bytestring),
            DataItem::TextString(textstring) => self.definite_textstring_to_diag(textstring),
            DataItem::IndefiniteByteString(_) | DataItem::IndefiniteTextString(_) => {
                let trivial = is_trivial(value, f);
                self.indefinite_string_to_diag(value, trivial, f, Ghost(bound));
            },
            DataItem::Array { bitwidth, .. } => {
                let trivial = is_trivial(value, f);
                self.container_to_diag('[', value, ']', bitwidth.is_some(), trivial, f, Ghost(bound));
            },
            DataItem::Mapping { bitwidth, .. } => {
                let trivial = is_trivial(value, f);
                self.container_to_diag('{', value, '}', bitwidth.is_some(), trivial, f, Ghost(bound));
            },
            DataItem::Tag { tag, bitwidth, value: inner } => self.tagged_to_diag(*tag, *bitwidth, inner, f, Ghost(bound)),
            DataItem::Float { value: v, bitwidth } => self.float_to_diag(*v, *bitwidth, f),
            DataItem::Simple(simple) => self.simple_to_diag(*simple),
        }
    }
}

impl DataItem {
    /// This item in compact diagnostic notation; `f` gives the text of
    /// floating point values. An item that asks for no float text (see
    /// `float_free`) is rendered without calling `f`.
    pub fn to_diag<F: Fn(u64, FloatWidth, FloatText) -> String>(&self, f: &F) -> (s: String)
        requires
            callable(f),
        ensures
            forall|ft: FloatTexts| #[trigger] renders(f, ft) ==> s@ == diag(self@, Layout::Compact, Encoding::Base16, 0, usize::MAX as nat + 1, ft),
            float_free(self@) ==> s@ == diag(self@, Layout::Compact, Encoding::Base16, 0, usize::MAX as nat + 1, no_float_texts()),
    {
        proof {
            lemma_item_bytes_bounded(self);
        }
        let mut context = Context::new(Layout::Compact);
        if is_float_free(self) {
            let no_text = |v: u64, w: FloatWidth, k: FloatText| -> (t: String)
                ensures
                    t@ == Seq::<char>::empty(),
            {
                String::new()
            };
            assert(renders(&no_text, no_float_texts()));
            context.item_to_diag(self, &no_text, Ghost(usize::MAX as nat + 1));
            let s = string_from_chars(context.output.as_slice());
            assert forall|ft: FloatTexts| #[trigger] renders(f, ft) implies s@ == diag(self@, Layout::Compact, Encoding::Base16, 0, usize::MAX as nat + 1, ft) by {
                lemma_diag_float_free(self@, Layout::Compact, Encoding::Base16, 0, usize::MAX as nat + 1, no_float_texts(), ft);
            }
            s
        } else {
            context.item_to_diag(self, f, Ghost(usize::MAX as nat + 1));
            string_from_chars(context.output.as_slice())
        }
    }

    /// This item in pretty diagnostic notation, with containers that are not
    /// trivial laid out one item per line; `f` gives the text of floating
    /// point values. An item that asks for no float text (see `float_free`)
    /// is rendered without calling `f`.
    pub fn to_diag_pretty<F: Fn(u64, FloatWidth, FloatText) -> String>(&self, f: &F) -> (s: String)
        requires
            callable(f),
        ensures
            forall|ft: FloatTexts| #[trigger] renders(f, ft) ==> s@ == diag(self@, Layout::Pretty, Encoding::Base16, 0, usize::MAX as nat + 1, ft),
            float_free(self@) ==> s@ == diag(self@, Layout::Pretty, Encoding::Base16, 0, usize::MAX as nat + 1, no_float_texts()),
    {
        proof {
            lemma_item_bytes_bounded(self);
        }
        let mut context = Context::new(Layout::Pretty);
        if is_float_free(self) {
            let no_text = |v: u64, w: FloatWidth, k: FloatText| -> (t: String)
                ensures
                    t@ == Seq::<char>::empty(),
            {
                String::new()
            };
            assert(renders(&no_text, no_float_texts()));
            context.item_to_diag(self, &no_text, Ghost(usize::MAX as nat + 1));
            let s = string_from_chars(context.output.as_slice());
            assert forall|ft: FloatTexts| #[trigger] renders(f, ft) implies s@ == diag(self@, Layout::Pretty, Encoding::Base16, 0, usize::MAX as nat + 1, ft) by {
                lemma_diag_float_free(self@, Layout::Pretty, Encoding::Base16, 0, usize::MAX as nat + 1, no_float_texts(), ft);
            }
            s
        } else {
            context.item_to_diag(self, f, Ghost(usize::MAX as nat + 1));
            string_from_chars(context.output.as_slice())
        }
    }
}

/// Stopping early leaves an item's estimate as it compares with the limit.
proof fn lemma_estimate_limit(x: SpecItem, m1: int, m2: int, ft: FloatTexts)
    requires
        0 <= m1 <= m2 <= usize::MAX,
    ensures
        length_estimate(x, m1, ft) >= 0,
        (length_estimate(x, m1, ft) < m1) == (length_estimate(x, m2, ft) < m1),
        length_estimate(x, m1, ft) < m1 ==> length_estimate(x, m1, ft) == length_estimate(x, m2, ft),
    decreases x, 0nat,
{
    match x {
        SpecItem::Array { data, .. } => lemma_estimate_items_limit(data, 4, m1, m2, ft),
        SpecItem::Mapping { data, .. } => lemma_estimate_pairs_limit(data, 4, m1, m2, ft),
        SpecItem::IndefiniteByteString(s) => {
            let c = s.map_values(|b: SpecBytes| sat(sat(b.data.len() as int * 2) + 4));
            assert forall|i: int| 0 <= i < c.len() implies #[trigger] c[i] >= 0 by {}
            lemma_estimate_chunks_limit(c, 4, m1, m2);
        },
        SpecItem::IndefiniteTextString(s) => {
            let c = s.map_values(|t: SpecText| sat(encode_utf8(t.data).len() as int + 2));
            assert forall|i: int| 0 <= i < c.len() implies #[trigger] c[i] >= 0 by {}
            lemma_estimate_chunks_limit(c, 4, m1, m2);
        },
        SpecItem::Tag { tag, value, .. } => {
            let e = decimal(tag as nat).len() as int + 2;
            if e < m1 {
                lemma_estimate_limit(*value, m1 - e, m2 - e, ft);
            } else if e < m2 {
                lemma_estimate_limit(*value, m2 - e, m2 - e, ft);
            }
        },
        _ => {},
    }
}

/// Stopping early leaves the running estimate of array items as it
/// compares with the limit.
proof fn lemma_estimate_items_limit(s: Seq<SpecItem>, len: int, m1: int, m2: int, ft: FloatTexts)
    requires
        0 <= m1 <= m2 <= usize::MAX,
        0 <= len <= usize::MAX,
    ensures
        estimate_items(s, len, m1, ft) >= len,
        estimate_items(s, len, m2, ft) >= len,
        (estimate_items(s, len, m1, ft) < m1) == (estimate_items(s, len, m2, ft) < m1),
        estimate_items(s, len, m1, ft) < m1 ==> estimate_items(s, len, m1, ft) == estimate_items(s, len, m2, ft),
    decreases s, 1nat,
{
    if s.len() > 0 {
        let a1 = sat_sub(m1, len);
        let a2 = sat_sub(m2, len);
        lemma_estimate_limit(s[0], a1, a2, ft);
        lemma_estimate_limit(s[0], a2, a2, ft);
        let l1 = sat(sat(len + length_estimate(s[0], a1, ft)) + 2);
        let l2 = sat(sat(len + length_estimate(s[0], a2, ft)) + 2);
        lemma_estimate_items_limit(s.skip(1), l1, m1, m2, ft);
        lemma_estimate_items_limit(s.skip(1), l2, m2, m2, ft);
    }
}

/// Stopping early leaves the estimate of a key/value pair as it compares
/// with the limit.
proof fn lemma_estimate_pair_limit(p: (SpecItem, SpecItem), m1: int, m2: int, ft: FloatTexts)
    requires
        0 <= m1 <= m2 <= usize::MAX,
    ensures
        estimate_pair(p, m1, ft) >= 0,
        (estimate_pair(p, m1, ft) < m1) == (estimate_pair(p, m2, ft) < m1),
        estimate_pair(p, m1, ft) < m1 ==> estimate_pair(p, m1, ft) == estimate_pair(p, m2, ft),
    decreases p, 0nat,
{
    lemma_estimate_limit(p.0, m1, m2, ft);
    lemma_estimate_limit(p.0, m2, m2, ft);
    let e1 = length_estimate(p.0, m1, ft);
    let e2 = length_estimate(p.0, m2, ft);
    if e1 < m1 {
        lemma_estimate_limit(p.1, m1 - e1, m2 - e1, ft);
    }
    if e2 < m2 {
        lemma_estimate_limit(p.1, m2 - e2, m2 - e2, ft);
    }
}

/// Stopping early leaves the running estimate of map entries as it
/// compares with the limit.
proof fn lemma_estimate_pairs_limit(s: Seq<(SpecItem, SpecItem)>, len: int, m1: int, m2: int, ft: FloatTexts)
    requires
        0 <= m1 <= m2 <= usize::MAX,
        0 <= len <= usize::MAX,
    ensures
        estimate_pairs(s, len, m1, ft) >= len,
        estimate_pairs(s, len, m2, ft) >= len,
        (estimate_pairs(s, len, m1, ft) < m1) == (estimate_pairs(s, len, m2, ft) < m1),
        estimate_pairs(s, len, m1, ft) < m1 ==> estimate_pairs(s, len, m1, ft) == estimate_pairs(s, len, m2, ft),
    decreases s, 1nat,
{
    if s.len() > 0 {
        let a1 = sat_sub(m1, len);
        let a2 = sat_sub(m2, len);
        lemma_estimate_pair_limit(s[0], a1, a2, ft);
        lemma_estimate_pair_limit(s[0], a2, a2, ft);
        let l1 = sat(sat(len + estimate_pair(s[0], a1, ft)) + 2);
        let l2 = sat(sat(len + estimate_pair(s[0], a2, ft)) + 2);
        lemma_estimate_pairs_limit(s.skip(1), l1, m1, m2, ft);
        lemma_estimate_pairs_limit(s.skip(1), l2, m2, m2, ft);
    }
}

/// Stopping early leaves the running estimate of string chunks as it
/// compares with the limit.
proof fn lemma_estimate_chunks_limit(s: Seq<int>, len: int, m1: int, m2: int)
    requires
        0 <= m1 <= m2 <= usize::MAX,
        0 <= len <= usize::MAX,
        forall|i: int| 0 <= i < s.len() ==> #[trigger] s[i] >= 0,
    ensures
        estimate_chunks(s, len, m1) >= len,
        estimate_chunks(s, len, m2) >= len,
        (estimate_chunks(s, len, m1) < m1) == (estimate_chunks(s, len, m2) < m1),
        estimate_chunks(s, len, m1) < m1 ==> estimate_chunks(s, len, m1) == estimate_chunks(s, len, m2),
    decreases s.len(),
{
    if s.len() > 0 {
        let l = sat(sat(len + s[0]) + 2);
        assert forall|i: int| 0 <= i < s.skip(1).len() implies #[trigger] s.skip(1)[i] >= 0 by {
            assert(s.skip(1)[i] == s[i + 1]);
        }
        lemma_estimate_chunks_limit(s.skip(1), l, m1, m2);
        lemma_estimate_chunks_limit(s.skip(1), l, m2, m2);
    }
}

/// Stopping the estimate early, once it reaches the limit `m`, never changes
/// how it compares with `m`: it is below `m` exactly when the estimate with
/// no limit to stop at is, and then the two are equal.
pub proof fn law_estimate_limit(x: SpecItem, m: int, ft: FloatTexts)
    requires
        0 <= m <= usize::MAX,
    ensures
        (length_estimate(x, m, ft) < m) == (length_estimate(x, usize::MAX as int, ft) < m),
        length_estimate(x, m, ft) < m ==> length_estimate(x, m, ft) == length_estimate(x, usize::MAX as int, ft),
{
    lemma_estimate_limit(x, m, usize::MAX as int, ft);
}

} // verus!
