//! Bounds on the byte strings inside data items, which make the rendering of
//! encoded data items nested in byte strings terminate: an item parsed from
//! some bytes holds only byte strings shorter than them.
use vstd::prelude::*;

use crate::parse::binary::{
    Parsed, parse_chunks, parse_definite_string, parse_head, parse_item, parse_items,
    parse_items_to_break, parse_pair, parse_pairs, parse_pairs_to_break, parse_string_body,
    chunk_bytestrings,
};
use crate::syntax::{DataItem, SpecItem, items_view, lemma_items_view, lemma_pairs_view, pairs_view};

verus! {

/// Whether every byte string in an item, at any depth, is shorter than `n`.
pub open spec fn bytes_below(x: SpecItem, n: nat) -> bool
    decreases x,
{
    match x {
        SpecItem::ByteString(b) => b.data.len() < n,
        SpecItem::IndefiniteByteString(s) => forall|i: int| 0 <= i < s.len() ==> #[trigger] s[i].data.len() < n,
        SpecItem::Array { data, .. } => forall|i: int| 0 <= i < data.len() ==> bytes_below(#[trigger] data[i], n),
        SpecItem::Mapping { data, .. } => forall|i: int|
            0 <= i < data.len() ==> bytes_below(#[trigger] data[i].0, n) && bytes_below(data[i].1, n),
        SpecItem::Tag { value, .. } => bytes_below(*value, n),
        _ => true,
    }
}

/// A bound on byte strings holds for any larger bound too.
pub proof fn lemma_bytes_below_mono(x: SpecItem, n: nat, m: nat)
    requires
        bytes_below(x, n),
        n <= m,
    ensures
        bytes_below(x, m),
    decreases x,
{
    match x {
        SpecItem::Array { data, .. } => {
            assert forall|i: int| 0 <= i < data.len() implies bytes_below(#[trigger] data[i], m) by {
                lemma_bytes_below_mono(data[i], n, m);
            }
        },
        SpecItem::Mapping { data, .. } => {
            assert forall|i: int| 0 <= i < data.len() implies bytes_below(#[trigger] data[i].0, m) && bytes_below(data[i].1, m) by {
                lemma_bytes_below_mono(data[i].0, n, m);
                lemma_bytes_below_mono(data[i].1, n, m);
            }
        },
        SpecItem::Tag { value, .. } => {
            lemma_bytes_below_mono(*value, n, m);
        },
        _ => {},
    }
}

/// No byte string held in memory is longer than `usize::MAX`.
pub proof fn lemma_item_bytes_bounded(x: &DataItem)
    ensures
        bytes_below(x@, usize::MAX as nat + 1),
    decreases x,
{
    match x {
        DataItem::ByteString(b) => {
            assert(b.data.len() == b.data@.len());
        },
        DataItem::IndefiniteByteString(v) => {
            assert forall|i: int| 0 <= i < v@.len() implies #[trigger] crate::syntax::bytestrings_view(v@)[i].data.len() < usize::MAX as nat + 1 by {
                assert(v@[i].data.len() == v@[i].data@.len());
            }
        },
        DataItem::Array { data, .. } => {
            lemma_items_view(data@);
            assert forall|i: int| 0 <= i < data@.len() implies bytes_below(#[trigger] items_view(data@)[i], usize::MAX as nat + 1) by {
                lemma_item_bytes_bounded(&data@[i]);
            }
        },
        DataItem::Mapping { data, .. } => {
            lemma_pairs_view(data@);
            assert forall|i: int| 0 <= i < data@.len() implies bytes_below(#[trigger] pairs_view(data@)[i].0, usize::MAX as nat + 1)
                && bytes_below(pairs_view(data@)[i].1, usize::MAX as nat + 1) by {
                lemma_item_bytes_bounded(&data@[i].0);
                lemma_item_bytes_bounded(&data@[i].1);
            }
        },
        DataItem::Tag { value, .. } => {
            lemma_item_bytes_bounded(value);
        },
        _ => {},
    }
}


/// Every item in a sequence holds only byte strings shorter than `n`.
pub open spec fn all_bytes_below(xs: Seq<SpecItem>, n: nat) -> bool {
    forall|i: int| 0 <= i < xs.len() ==> bytes_below(#[trigger] xs[i], n)
}

/// Every pair in a sequence holds only byte strings shorter than `n`.
pub open spec fn pairs_bytes_below(xs: Seq<(SpecItem, SpecItem)>, n: nat) -> bool {
    forall|i: int| 0 <= i < xs.len() ==> bytes_below(#[trigger] xs[i].0, n) && bytes_below(xs[i].1, n)
}

proof fn lemma_cons_items(x: SpecItem, xs: Seq<SpecItem>, n: nat, m: nat, total: nat)
    requires
        bytes_below(x, n),
        all_bytes_below(xs, m),
        n <= total,
        m <= total,
    ensures
        all_bytes_below(seq![x] + xs, total),
{
    lemma_bytes_below_mono(x, n, total);
    assert forall|i: int| 0 <= i < (seq![x] + xs).len() implies bytes_below(#[trigger] (seq![x] + xs)[i], total) by {
        if i > 0 {
            assert((seq![x] + xs)[i] == xs[i - 1]);
            lemma_bytes_below_mono(xs[i - 1], m, total);
        }
    }
}

proof fn lemma_cons_pairs(x: (SpecItem, SpecItem), xs: Seq<(SpecItem, SpecItem)>, n: nat, m: nat, total: nat)
    requires
        bytes_below(x.0, n),
        bytes_below(x.1, n),
        pairs_bytes_below(xs, m),
        n <= total,
        m <= total,
    ensures
        pairs_bytes_below(seq![x] + xs, total),
{
    lemma_bytes_below_mono(x.0, n, total);
    lemma_bytes_below_mono(x.1, n, total);
    assert forall|i: int| 0 <= i < (seq![x] + xs).len() implies bytes_below(#[trigger] (seq![x] + xs)[i].0, total)
        && bytes_below((seq![x] + xs)[i].1, total) by {
        if i > 0 {
            assert((seq![x] + xs)[i] == xs[i - 1]);
            lemma_bytes_below_mono(xs[i - 1].0, m, total);
            lemma_bytes_below_mono(xs[i - 1].1, m, total);
        }
    }
}

/// A definite string parsed from `s` is shorter than `s`.
proof fn lemma_definite_string_bytes(s: Seq<u8>, text: bool)
    ensures
        parse_definite_string(s, text) matches Parsed::Done(x, _) ==> bytes_below(x, s.len()),
{
}

/// The chunks of an indefinite string parsed from `s` are byte strings
/// shorter than `s`, if byte strings.
proof fn lemma_chunks_bytes(s: Seq<u8>, text: bool)
    ensures
        parse_chunks(s, text) matches Parsed::Done(xs, _) ==> all_bytes_below(xs, s.len()),
    decreases s.len(),
{
    if s.len() > 0 && s[0] != 0xff {
        lemma_definite_string_bytes(s, text);
        if let Parsed::Done(x, k) = parse_definite_string(s, text) {
            if 0 < k <= s.len() {
                lemma_chunks_bytes(s.skip(k as int), text);
                if let Parsed::Done(xs, k2) = parse_chunks(s.skip(k as int), text) {
                    lemma_cons_items(x, xs, s.len(), s.skip(k as int).len(), s.len());
                }
            }
        }
    }
}

/// An item parsed from `s` holds only byte strings shorter than `s`.
pub proof fn lemma_item_bytes(s: Seq<u8>)
    ensures
        parse_item(s) matches Parsed::Done(x, _) ==> bytes_below(x, s.len()),
    decreases s.len(), 0nat, 0nat,
{
    if let Parsed::Done(h, hl) = parse_head(s) {
        if 0 < hl <= s.len() {
            let rest = s.skip(hl as int);
            if h.major == 2 || h.major == 3 {
                if h.additional == 31 {
                    lemma_chunks_bytes(rest, h.major == 3);
                    if let Parsed::Done(xs, k) = parse_chunks(rest, h.major == 3) {
                        assert forall|i: int| 0 <= i < xs.len() implies #[trigger] chunk_bytestrings(xs)[i].data.len() < s.len() by {
                            assert(bytes_below(xs[i], rest.len()));
                        }
                    }
                }
            } else if h.major == 4 {
                if h.additional == 31 {
                    lemma_items_to_break_bytes(rest);
                } else {
                    lemma_items_bytes(rest, (h.value as usize) as nat);
                }
                let r = if h.additional == 31 { parse_items_to_break(rest) } else { parse_items(rest, (h.value as usize) as nat) };
                if let Parsed::Done(xs, k) = r {
                    assert forall|i: int| 0 <= i < xs.len() implies bytes_below(#[trigger] xs[i], s.len()) by {
                        lemma_bytes_below_mono(xs[i], rest.len(), s.len());
                    }
                }
            } else if h.major == 5 {
                if h.additional == 31 {
                    lemma_pairs_to_break_bytes(rest);
                } else {
                    lemma_pairs_bytes(rest, (h.value as usize) as nat);
                }
                let r = if h.additional == 31 { parse_pairs_to_break(rest) } else { parse_pairs(rest, (h.value as usize) as nat) };
                if let Parsed::Done(xs, k) = r {
                    assert forall|i: int| 0 <= i < xs.len() implies bytes_below(#[trigger] xs[i].0, s.len()) && bytes_below(xs[i].1, s.len()) by {
                        lemma_bytes_below_mono(xs[i].0, rest.len(), s.len());
                        lemma_bytes_below_mono(xs[i].1, rest.len(), s.len());
                    }
                }
            } else if h.major == 6 && h.additional != 31 {
                lemma_item_bytes(rest);
                if let Parsed::Done(x, k) = parse_item(rest) {
                    lemma_bytes_below_mono(x, rest.len(), s.len());
                }
            }
        }
    }
}

proof fn lemma_items_bytes(s: Seq<u8>, n: nat)
    ensures
        parse_items(s, n) matches Parsed::Done(xs, _) ==> all_bytes_below(xs, s.len()),
    decreases s.len(), 1nat, n,
{
    if n > 0 {
        lemma_item_bytes(s);
        if let Parsed::Done(x, k) = parse_item(s) {
            if 0 < k <= s.len() {
                lemma_items_bytes(s.skip(k as int), (n - 1) as nat);
                if let Parsed::Done(xs, k2) = parse_items(s.skip(k as int), (n - 1) as nat) {
                    lemma_cons_items(x, xs, s.len(), s.skip(k as int).len(), s.len());
                }
            }
        }
    }
}

proof fn lemma_items_to_break_bytes(s: Seq<u8>)
    ensures
        parse_items_to_break(s) matches Parsed::Done(xs, _) ==> all_bytes_below(xs, s.len()),
    decreases s.len(), 1nat, 0nat,
{
    if s.len() > 0 && s[0] != 0xff {
        lemma_item_bytes(s);
        if let Parsed::Done(x, k) = parse_item(s) {
            if 0 < k <= s.len() {
                lemma_items_to_break_bytes(s.skip(k as int));
                if let Parsed::Done(xs, k2) = parse_items_to_break(s.skip(k as int)) {
                    lemma_cons_items(x, xs, s.len(), s.skip(k as int).len(), s.len());
                }
            }
        }
    }
}

proof fn lemma_pair_bytes(s: Seq<u8>)
    ensures
        parse_pair(s) matches Parsed::Done(p, _) ==> bytes_below(p.0, s.len()) && bytes_below(p.1, s.len()),
    decreases s.len(), 1nat, 0nat,
{
    lemma_item_bytes(s);
    if let Parsed::Done(x, k) = parse_item(s) {
        if 0 < k <= s.len() {
            lemma_item_bytes(s.skip(k as int));
            if let Parsed::Done(y, k2) = parse_item(s.skip(k as int)) {
                lemma_bytes_below_mono(y, s.skip(k as int).len(), s.len());
            }
        }
    }
}

proof fn lemma_pairs_bytes(s: Seq<u8>, n: nat)
    ensures
        parse_pairs(s, n) matches Parsed::Done(xs, _) ==> pairs_bytes_below(xs, s.len()),
    decreases s.len(), 2nat, n,
{
    if n > 0 {
        lemma_pair_bytes(s);
        if let Parsed::Done(x, k) = parse_pair(s) {
            if 0 < k <= s.len() {
                lemma_pairs_bytes(s.skip(k as int), (n - 1) as nat);
                if let Parsed::Done(xs, k2) = parse_pairs(s.skip(k as int), (n - 1) as nat) {
                    lemma_cons_pairs(x, xs, s.len(), s.skip(k as int).len(), s.len());
                }
            }
        }
    }
}

proof fn lemma_pairs_to_break_bytes(s: Seq<u8>)
    ensures
        parse_pairs_to_break(s) matches Parsed::Done(xs, _) ==> pairs_bytes_below(xs, s.len()),
    decreases s.len(), 2nat, 0nat,
{
    if s.len() > 0 && s[0] != 0xff {
        lemma_pair_bytes(s);
        if let Parsed::Done(x, k) = parse_pair(s) {
            if 0 < k <= s.len() {
                lemma_pairs_to_break_bytes(s.skip(k as int));
                if let Parsed::Done(xs, k2) = parse_pairs_to_break(s.skip(k as int)) {
                    lemma_cons_pairs(x, xs, s.len(), s.skip(k as int).len(), s.len());
                }
            }
        }
    }
}

} // verus!
