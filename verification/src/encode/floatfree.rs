//! Items whose renderings do not depend on the caller's float texts.
use vstd::prelude::*;

use super::annotate::epoch_datetime_line;
use super::diag::{
    Layout, diag, diag_parts, estimate_items, estimate_pair, estimate_pairs, length_estimate,
};
use super::hex::{FloatTexts, hex_items, hex_of, hex_pairs, tag_extra, tag_sublines, tagged_hex, typed_lines};
use super::Encoding;
use crate::syntax::{DataItem, SpecItem, items_view, lemma_items_view, lemma_pairs_view, pairs_view};

verus! {

/// Whether an item's renderings ask for no float text: it holds no float,
/// no encoded data item or sequence (tags 24 and 63, whose contents are only
/// known once parsed) and no typed array of floats (tags 80 to 87).
pub open spec fn float_free(x: SpecItem) -> bool
    decreases x,
{
    match x {
        SpecItem::Float { .. } => false,
        SpecItem::Array { data, .. } => forall|i: int| 0 <= i < data.len() ==> float_free(#[trigger] data[i]),
        SpecItem::Mapping { data, .. } => forall|i: int|
            0 <= i < data.len() ==> float_free(#[trigger] data[i].0) && float_free(data[i].1),
        SpecItem::Tag { tag, value, .. } => tag != 24 && tag != 63 && !(80 <= tag <= 87) && float_free(*value),
        _ => true,
    }
}

/// Float texts that are all empty.
pub open spec fn no_float_texts() -> FloatTexts {
    |v: u64, w: crate::syntax::FloatWidth, k: crate::float::FloatText| Seq::<char>::empty()
}

/// The annotated hex of an item that asks for no float text is the same
/// whatever the float texts.
pub proof fn lemma_hex_float_free(x: SpecItem, enc: Option<Encoding>, refs: u64, bound: nat, ft1: FloatTexts, ft2: FloatTexts)
    requires
        float_free(x),
    ensures
        hex_of(x, enc, refs, bound, ft1) == hex_of(x, enc, refs, bound, ft2),
    decreases bound, x, 0nat,
{
    match x {
        SpecItem::Array { data, .. } => lemma_items_float_free(data, enc, refs, bound, ft1, ft2),
        SpecItem::Mapping { data, .. } => lemma_pairs_float_free(data, enc, refs, bound, ft1, ft2),
        SpecItem::Tag { tag, bitwidth, value } => lemma_tagged_float_free(tag, bitwidth, *value, enc, refs, bound, ft1, ft2),
        _ => {},
    }
}

proof fn lemma_items_float_free(s: Seq<SpecItem>, enc: Option<Encoding>, refs: u64, bound: nat, ft1: FloatTexts, ft2: FloatTexts)
    requires
        forall|i: int| 0 <= i < s.len() ==> float_free(#[trigger] s[i]),
    ensures
        hex_items(s, enc, refs, bound, ft1) == hex_items(s, enc, refs, bound, ft2),
    decreases bound, s, 1nat,
{
    if s.len() > 0 {
        lemma_hex_float_free(s[0], enc, refs, bound, ft1, ft2);
        let r1 = hex_of(s[0], enc, refs, bound, ft1).1;
        assert forall|i: int| 0 <= i < s.skip(1).len() implies float_free(#[trigger] s.skip(1)[i]) by {
            assert(s.skip(1)[i] == s[i + 1]);
        }
        lemma_items_float_free(s.skip(1), enc, r1, bound, ft1, ft2);
    }
}

proof fn lemma_pairs_float_free(s: Seq<(SpecItem, SpecItem)>, enc: Option<Encoding>, refs: u64, bound: nat, ft1: FloatTexts, ft2: FloatTexts)
    requires
        forall|i: int| 0 <= i < s.len() ==> float_free(#[trigger] s[i].0) && float_free(s[i].1),
    ensures
        hex_pairs(s, enc, refs, bound, ft1) == hex_pairs(s, enc, refs, bound, ft2),
    decreases bound, s, 1nat,
{
    if s.len() > 0 {
        lemma_hex_float_free(s[0].0, enc, refs, bound, ft1, ft2);
        let r1 = hex_of(s[0].0, enc, refs, bound, ft1).1;
        lemma_hex_float_free(s[0].1, enc, r1, bound, ft1, ft2);
        let r2 = hex_of(s[0].1, enc, r1, bound, ft1).1;
        assert forall|i: int| 0 <= i < s.skip(1).len() implies float_free(#[trigger] s.skip(1)[i].0) && float_free(s.skip(1)[i].1) by {
            assert(s.skip(1)[i] == s[i + 1]);
        }
        lemma_pairs_float_free(s.skip(1), enc, r2, bound, ft1, ft2);
    }
}

proof fn lemma_tagged_float_free(
    tag: u64,
    bitwidth: crate::syntax::IntegerWidth,
    v: SpecItem,
    enc: Option<Encoding>,
    refs: u64,
    bound: nat,
    ft1: FloatTexts,
    ft2: FloatTexts,
)
    requires
        tag != 24 && tag != 63 && !(80 <= tag <= 87),
        float_free(v),
    ensures
        tagged_hex(tag, bitwidth, v, enc, refs, bound, ft1) == tagged_hex(tag, bitwidth, v, enc, refs, bound, ft2),
    decreases bound, v, 3nat,
{
    assert(epoch_datetime_line(v, ft1) == epoch_datetime_line(v, ft2));
    assert(tag_extra(tag, v, refs, bound, ft1) == tag_extra(tag, v, refs, bound, ft2));
    let r1 = tag_extra(tag, v, refs, bound, ft1).1;
    if super::hex::is_typed_array(tag) {
        match v {
            SpecItem::ByteString(b) => {
                if b.data.len() % super::hex::typed_size(tag) == 0 {
                    assert(typed_lines(tag, v, enc, r1, bound, ft1).0[0].sublines
                        =~= typed_lines(tag, v, enc, r1, bound, ft2).0[0].sublines);
                    assert(typed_lines(tag, v, enc, r1, bound, ft1) == typed_lines(tag, v, enc, r1, bound, ft2));
                } else {
                    lemma_hex_float_free(v, enc, r1, bound, ft1, ft2);
                }
            },
            _ => lemma_hex_float_free(v, enc, r1, bound, ft1, ft2),
        }
        assert(tag_sublines(tag, v, enc, r1, bound, ft1) == tag_sublines(tag, v, enc, r1, bound, ft2));
    } else {
        let enc2 = if tag == 21 {
            Some(Encoding::Base64Url)
        } else if tag == 22 {
            Some(Encoding::Base64)
        } else if tag == 23 || tag == 260 || tag == 37 || tag == 52 || tag == 54 {
            Some(Encoding::Base16)
        } else {
            enc
        };
        lemma_hex_float_free(v, enc2, r1, bound, ft1, ft2);
    }
}

/// The estimate of an item that asks for no float text is the same whatever
/// the float texts.
pub proof fn lemma_estimate_float_free(x: SpecItem, max: int, ft1: FloatTexts, ft2: FloatTexts)
    requires
        float_free(x),
    ensures
        length_estimate(x, max, ft1) == length_estimate(x, max, ft2),
    decreases x, 0nat,
{
    match x {
        SpecItem::Array { data, .. } => lemma_estimate_items_float_free(data, 4, max, ft1, ft2),
        SpecItem::Mapping { data, .. } => lemma_estimate_pairs_float_free(data, 4, max, ft1, ft2),
        SpecItem::Tag { tag, value, .. } => {
            let e = crate::text::decimal(tag as nat).len() as int + 2;
            lemma_estimate_float_free(*value, max - e, ft1, ft2);
        },
        _ => {},
    }
}

proof fn lemma_estimate_items_float_free(s: Seq<SpecItem>, len: int, max: int, ft1: FloatTexts, ft2: FloatTexts)
    requires
        forall|i: int| 0 <= i < s.len() ==> float_free(#[trigger] s[i]),
    ensures
        estimate_items(s, len, max, ft1) == estimate_items(s, len, max, ft2),
    decreases s, 1nat,
{
    if s.len() > 0 {
        lemma_estimate_float_free(s[0], super::diag::sat_sub(max, len), ft1, ft2);
        let len2 = super::diag::sat(super::diag::sat(len + length_estimate(s[0], super::diag::sat_sub(max, len), ft1)) + 2);
        assert forall|i: int| 0 <= i < s.skip(1).len() implies float_free(#[trigger] s.skip(1)[i]) by {
            assert(s.skip(1)[i] == s[i + 1]);
        }
        lemma_estimate_items_float_free(s.skip(1), len2, max, ft1, ft2);
    }
}

proof fn lemma_estimate_pair_float_free(p: (SpecItem, SpecItem), max: int, ft1: FloatTexts, ft2: FloatTexts)
    requires
        float_free(p.0),
        float_free(p.1),
    ensures
        estimate_pair(p, max, ft1) == estimate_pair(p, max, ft2),
    decreases p, 0nat,
{
    lemma_estimate_float_free(p.0, max, ft1, ft2);
    let e = length_estimate(p.0, max, ft1);
    lemma_estimate_float_free(p.1, max - e, ft1, ft2);
}

proof fn lemma_estimate_pairs_float_free(s: Seq<(SpecItem, SpecItem)>, len: int, max: int, ft1: FloatTexts, ft2: FloatTexts)
    requires
        forall|i: int| 0 <= i < s.len() ==> float_free(#[trigger] s[i].0) && float_free(s[i].1),
    ensures
        estimate_pairs(s, len, max, ft1) == estimate_pairs(s, len, max, ft2),
    decreases s, 1nat,
{
    if s.len() > 0 {
        lemma_estimate_pair_float_free(s[0], super::diag::sat_sub(max, len), ft1, ft2);
        let len2 = super::diag::sat(super::diag::sat(len + estimate_pair(s[0], super::diag::sat_sub(max, len), ft1)) + 2);
        assert forall|i: int| 0 <= i < s.skip(1).len() implies float_free(#[trigger] s.skip(1)[i].0) && float_free(s.skip(1)[i].1) by {
            assert(s.skip(1)[i] == s[i + 1]);
        }
        lemma_estimate_pairs_float_free(s.skip(1), len2, max, ft1, ft2);
    }
}

/// The diagnostic notation of an item that asks for no float text is the
/// same whatever the float texts.
pub proof fn lemma_diag_float_free(x: SpecItem, lay: Layout, enc: Encoding, indent: nat, bound: nat, ft1: FloatTexts, ft2: FloatTexts)
    requires
        float_free(x),
    ensures
        diag(x, lay, enc, indent, bound, ft1) == diag(x, lay, enc, indent, bound, ft2),
    decreases bound, x, 1nat,
{
    lemma_estimate_float_free(x, 60, ft1, ft2);
    let trivial = super::diag::is_trivial_item(x, ft1);
    let inner = super::diag::inner_indent(indent, trivial);
    match x {
        SpecItem::Array { data, .. } => {
            assert forall|i: int| 0 <= i < data.len() implies diag(#[trigger] data[i], lay, enc, inner, bound, ft1)
                == diag(data[i], lay, enc, inner, bound, ft2) by {
                lemma_diag_float_free(data[i], lay, enc, inner, bound, ft1, ft2);
            }
            assert(diag_parts(x, lay, enc, inner, bound, ft1) =~= diag_parts(x, lay, enc, inner, bound, ft2));
            assert(super::diag::is_trivial_item(x, ft2) == trivial);
            assert(diag(x, lay, enc, indent, bound, ft1) == super::diag::container_diag('[', diag_parts(x, lay, enc, inner, bound, ft1), ']', x->Array_bitwidth is Some, trivial, lay, indent));
            assert(diag(x, lay, enc, indent, bound, ft2) == super::diag::container_diag('[', diag_parts(x, lay, enc, inner, bound, ft2), ']', x->Array_bitwidth is Some, trivial, lay, indent));
            assert(diag(x, lay, enc, indent, bound, ft1) == diag(x, lay, enc, indent, bound, ft2));
        },
        SpecItem::Mapping { data, .. } => {
            assert forall|i: int| 0 <= i < data.len() implies diag(#[trigger] data[i].0, lay, enc, inner, bound, ft1)
                == diag(data[i].0, lay, enc, inner, bound, ft2) && diag(data[i].1, lay, enc, inner, bound, ft1)
                == diag(data[i].1, lay, enc, inner, bound, ft2) by {
                lemma_diag_float_free(data[i].0, lay, enc, inner, bound, ft1, ft2);
                lemma_diag_float_free(data[i].1, lay, enc, inner, bound, ft1, ft2);
            }
            assert(diag_parts(x, lay, enc, inner, bound, ft1) =~= diag_parts(x, lay, enc, inner, bound, ft2));
            assert(super::diag::is_trivial_item(x, ft2) == trivial);
            assert(diag(x, lay, enc, indent, bound, ft1) == diag(x, lay, enc, indent, bound, ft2));
        },
        SpecItem::Tag { tag, value, .. } => {
            lemma_diag_float_free(*value, lay, super::diag::tag_encoding(tag, enc), indent, bound, ft1, ft2);
            assert(diag(x, lay, enc, indent, bound, ft1) == diag(x, lay, enc, indent, bound, ft2));
        },
        SpecItem::IndefiniteByteString(_) => {
            assert(super::diag::is_trivial_item(x, ft2) == trivial);
            assert(diag_parts(x, lay, enc, inner, bound, ft1) =~= diag_parts(x, lay, enc, inner, bound, ft2));
            assert(diag(x, lay, enc, indent, bound, ft1) == diag(x, lay, enc, indent, bound, ft2));
        },
        SpecItem::IndefiniteTextString(_) => {
            assert(super::diag::is_trivial_item(x, ft2) == trivial);
            assert(diag_parts(x, lay, enc, inner, bound, ft1) =~= diag_parts(x, lay, enc, inner, bound, ft2));
            assert(diag(x, lay, enc, indent, bound, ft1) == diag(x, lay, enc, indent, bound, ft2));
        },
        _ => {
            assert(diag(x, lay, enc, indent, bound, ft1) == diag(x, lay, enc, indent, bound, ft2));
        },
    }
}

/// Whether every item of a slice asks for no float text.
fn items_float_free(data: &[DataItem]) -> (b: bool)
    ensures
        b == (forall|j: int| 0 <= j < data@.len() ==> float_free(#[trigger] items_view(data@)[j])),
    decreases data@, 1nat,
{
    proof { lemma_items_view(data@); }
    let mut i: usize = 0;
    while i < data.len()
        invariant
            i <= data@.len(),
            items_view(data@).len() == data@.len(),
            forall|j: int| 0 <= j < data@.len() ==> #[trigger] items_view(data@)[j] == data@[j].view_item(),
            forall|j: int| 0 <= j < i ==> float_free(#[trigger] items_view(data@)[j]),
        decreases data@.len() - i,
    {
        if !is_float_free(&data[i]) {
            assert(!float_free(items_view(data@)[i as int]));
            return false;
        }
        i = i + 1;
    }
    true
}

/// Whether every key and value of a slice of pairs asks for no float text.
fn pairs_float_free(data: &[(DataItem, DataItem)]) -> (b: bool)
    ensures
        b == (forall|j: int| 0 <= j < data@.len() ==> float_free(#[trigger] pairs_view(data@)[j].0)
            && float_free(pairs_view(data@)[j].1)),
    decreases data@, 1nat,
{
    proof { lemma_pairs_view(data@); }
    let mut i: usize = 0;
    while i < data.len()
        invariant
            i <= data@.len(),
            pairs_view(data@).len() == data@.len(),
            forall|j: int| 0 <= j < data@.len() ==> #[trigger] pairs_view(data@)[j] == (data@[j].0.view_item(), data@[j].1.view_item()),
            forall|j: int| 0 <= j < i ==> float_free(#[trigger] pairs_view(data@)[j].0) && float_free(pairs_view(data@)[j].1),
        decreases data@.len() - i,
    {
        let k = is_float_free(&data[i].0);
        let v = is_float_free(&data[i].1);
        assert(pairs_view(data@)[i as int] == (data@[i as int].0.view_item(), data@[i as int].1.view_item()));
        if !k {
            assert(!float_free(pairs_view(data@)[i as int].0));
            return false;
        }
        if !v {
            assert(float_free(pairs_view(data@)[i as int].0) && !float_free(pairs_view(data@)[i as int].1));
            return false;
        }
        assert(float_free(pairs_view(data@)[i as int].0) && float_free(pairs_view(data@)[i as int].1));
        i = i + 1;
    }
    true
}

/// Whether an item asks for no float text (see `float_free`).
pub fn is_float_free(x: &DataItem) -> (b: bool)
    ensures
        b == float_free(x@),
    decreases x, 2nat,
{
    match x {
        DataItem::Float { .. } => {
            assert(x@ is Float);
            false
        },
        DataItem::Array { data, .. } => {
            proof { lemma_items_view(data@); }
            let sl = data.as_slice();
            assert(sl@ == data@);
            let b = items_float_free(sl);
            assert(x@->Array_data == items_view(data@));
            assert(b == float_free(x@));
            b
        },
        DataItem::Mapping { data, .. } => {
            proof { lemma_pairs_view(data@); }
            let sl = data.as_slice();
            assert(sl@ == data@);
            let b = pairs_float_free(sl);
            assert(x@->Mapping_data == pairs_view(data@));
            assert(b == float_free(x@));
            b
        },
        DataItem::Tag { tag, value, .. } => {
            assert(x@ == SpecItem::Tag { tag: tag.0, bitwidth: x@->Tag_bitwidth, value: Box::new(value.view_item()) });
            let b = tag.0 != 24 && tag.0 != 63 && !(80 <= tag.0 && tag.0 <= 87) && is_float_free(value);
            assert(b == float_free(x@));
            b
        },
        _ => {
            assert(!(x@ is Float || x@ is Array || x@ is Mapping || x@ is Tag));
            true
        },
    }
}

} // verus!
