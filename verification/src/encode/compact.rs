//! The compact layout of diagnostic notation is one line: a line break in it
//! comes only from a text string, or from a float text the caller supplies.
use vstd::prelude::*;

use crate::codecs::{base64_char, base64_text, hex_lower};
use crate::float::FloatText;
use crate::readback::{lemma_hex_lower_chars, single_line};
use crate::syntax::{FloatWidth, SpecBytes, SpecItem, SpecText};
use crate::text::{decimal, digit_char};
use super::diag::{
    FloatTexts, Layout, bytes_diag, container_diag, diag, diag_parts, diags, encoded_diag,
    escape_quoted, float_diag, float_suffix, integer_diag, join_items, negative_diag,
    simple_diag, text_diag, width_suffix,
};
use super::hex::{cbor_sequence, parse_result};

verus! {

/// Whether no text string in an item has a line feed, also in the items
/// that the byte string under an encoded data item tag (24) or encoded
/// sequence tag (63) holds, where it is shorter than `bound`.
pub open spec fn texts_single_line(x: SpecItem, bound: nat) -> bool
    decreases bound, x, 1nat,
{
    match x {
        SpecItem::TextString(t) => single_line(t.data),
        SpecItem::IndefiniteTextString(s) => forall|i: int| 0 <= i < s.len() ==> single_line(#[trigger] s[i].data),
        SpecItem::Array { data, .. } => forall|i: int| 0 <= i < data.len() ==> texts_single_line(#[trigger] data[i], bound),
        SpecItem::Mapping { data, .. } => forall|i: int|
            0 <= i < data.len() ==> texts_single_line(#[trigger] data[i].0, bound) && texts_single_line(data[i].1, bound),
        SpecItem::Tag { tag, value, .. } => texts_single_line(*value, bound) && encoded_single_line(tag, *value, bound),
        _ => true,
    }
}

/// Whether no text string in the items that a byte string under tag 24 or
/// 63 holds has a line feed.
pub open spec fn encoded_single_line(tag: u64, v: SpecItem, bound: nat) -> bool
    decreases bound, v, 0nat,
{
    match v {
        SpecItem::ByteString(b) => b.data.len() < bound ==> {
            &&& tag == 24 ==> match parse_result(b.data) {
                Ok(x) => texts_single_line(x, b.data.len()),
                Err(_) => true,
            }
            &&& tag == 63 ==> forall|i: int| 0 <= i < cbor_sequence(b.data).0.len()
                ==> texts_single_line(#[trigger] cbor_sequence(b.data).0[i], b.data.len())
        },
        _ => true,
    }
}

/// Whether no float text that `ft` gives for diagnostic notation has a
/// line feed.
pub open spec fn float_texts_single_line(ft: FloatTexts) -> bool {
    forall|v: u64, w: FloatWidth| single_line(#[trigger] ft(v, w, FloatText::Diag))
}

pub(crate) proof fn lemma_concat(a: Seq<char>, b: Seq<char>)
    requires
        single_line(a),
        single_line(b),
    ensures
        single_line(a + b),
{
    assert forall|i: int| 0 <= i < (a + b).len() implies #[trigger] (a + b)[i] != '\n' by {
        if i < a.len() {
            assert((a + b)[i] == a[i]);
        } else {
            assert((a + b)[i] == b[i - a.len()]);
        }
    }
}

pub(crate) proof fn lemma_decimal(n: nat)
    ensures
        single_line(decimal(n)),
    decreases n,
{
    if n >= 10 {
        lemma_decimal(n / 10);
        assert(digit_char(n % 10) != '\n');
        lemma_concat(decimal(n / 10), seq![digit_char(n % 10)]);
    } else {
        assert(digit_char(n) != '\n');
    }
}

pub(crate) proof fn lemma_base64(d: Seq<u8>, url: bool, pad: bool)
    ensures
        single_line(base64_text(d, url, pad)),
    decreases d.len(),
{
    assert(forall|v: u8| #[trigger] base64_char(v, url) != '\n');
    if d.len() >= 3 {
        lemma_base64(d.skip(3), url, pad);
        let head = seq![
            base64_char(d[0] >> 2u8, url),
            base64_char((((d[0] & 3u8) << 4u8) | (d[1] >> 4u8)) as u8, url),
            base64_char((((d[1] & 15u8) << 2u8) | (d[2] >> 6u8)) as u8, url),
            base64_char(d[2] & 63u8, url),
        ];
        lemma_concat(head, base64_text(d.skip(3), url, pad));
    }
}

proof fn lemma_escape(s: Seq<char>)
    requires
        single_line(s),
    ensures
        single_line(escape_quoted(s)),
    decreases s.len(),
{
    if s.len() > 0 {
        assert forall|i: int| 0 <= i < s.drop_last().len() implies #[trigger] s.drop_last()[i] != '\n' by {
            assert(s.drop_last()[i] == s[i]);
        }
        lemma_escape(s.drop_last());
        assert(s.last() != '\n');
        let tail = if s.last() == '"' || s.last() == '\\' { seq!['\\', s.last()] } else { seq![s.last()] };
        lemma_concat(escape_quoted(s.drop_last()), tail);
    }
}

proof fn lemma_join(parts: Seq<Seq<char>>, trivial: bool, inner: nat)
    requires
        forall|i: int| 0 <= i < parts.len() ==> single_line(#[trigger] parts[i]),
    ensures
        single_line(join_items(parts, Layout::Compact, trivial, inner)),
    decreases parts.len(),
{
    if parts.len() == 1 {
        assert(join_items(parts, Layout::Compact, trivial, inner) =~= parts[0]);
    } else if parts.len() > 1 {
        let p = parts.drop_last();
        assert forall|i: int| 0 <= i < p.len() implies single_line(#[trigger] p[i]) by {
            assert(p[i] == parts[i]);
        }
        lemma_join(p, trivial, inner);
        assert(single_line(parts.last()));
        lemma_concat(join_items(p, Layout::Compact, trivial, inner), seq![',']);
        lemma_concat(join_items(p, Layout::Compact, trivial, inner) + seq![','], parts.last());
        assert(join_items(parts, Layout::Compact, trivial, inner)
            =~= join_items(p, Layout::Compact, trivial, inner) + seq![','] + parts.last());
    }
}

proof fn lemma_container(begin: char, parts: Seq<Seq<char>>, end: char, definite: bool, trivial: bool, indent: nat)
    requires
        forall|i: int| 0 <= i < parts.len() ==> single_line(#[trigger] parts[i]),
        begin != '\n',
        end != '\n',
    ensures
        single_line(container_diag(begin, parts, end, definite, trivial, Layout::Compact, indent)),
{
    let j = join_items(parts, Layout::Compact, trivial, super::diag::inner_indent(indent, trivial));
    lemma_join(parts, trivial, super::diag::inner_indent(indent, trivial));
    let pre = seq![begin] + (if !definite { seq!['_'] } else { Seq::<char>::empty() });
    assert(single_line(pre));
    lemma_concat(pre, j);
    lemma_concat(pre + j, seq![end]);
    assert(container_diag(begin, parts, end, definite, trivial, Layout::Compact, indent) =~= pre + j + seq![end]);
}

proof fn lemma_suffixes()
    ensures
        forall|w| single_line(#[trigger] width_suffix(w)),
        forall|w| single_line(#[trigger] float_suffix(w)),
{
}

proof fn lemma_bytes(data: Seq<u8>, enc: super::Encoding)
    ensures
        single_line(bytes_diag(data, enc)),
{
    reveal_strlit("b64'");
    reveal_strlit("h'");
    lemma_hex_lower_chars(data);
    lemma_base64(data, true, false);
    lemma_base64(data, false, true);
    match enc {
        super::Encoding::Base64Url => {
            lemma_concat("b64'"@, base64_text(data, true, false));
            lemma_concat("b64'"@ + base64_text(data, true, false), seq!['\'']);
        },
        super::Encoding::Base64 => {
            lemma_concat("b64'"@, base64_text(data, false, true));
            lemma_concat("b64'"@ + base64_text(data, false, true), seq!['\'']);
        },
        super::Encoding::Base16 => {
            assert(single_line(hex_lower(data))) by {
                assert forall|i: int| 0 <= i < hex_lower(data).len() implies #[trigger] hex_lower(data)[i] != '\n' by {
                    assert(crate::readback::is_column_char(hex_lower(data)[i]));
                }
            }
            lemma_concat("h'"@, hex_lower(data));
            lemma_concat("h'"@ + hex_lower(data), seq!['\'']);
        },
    }
}

proof fn lemma_leaf(x: SpecItem, enc: super::Encoding, indent: nat, bound: nat, ft: FloatTexts)
    requires
        texts_single_line(x, bound),
        float_texts_single_line(ft),
        !(x is Array || x is Mapping || x is Tag || x is IndefiniteByteString || x is IndefiniteTextString),
    ensures
        single_line(diag(x, Layout::Compact, enc, indent, bound, ft)),
{
    lemma_suffixes();
    match x {
        SpecItem::Integer { value, bitwidth } => {
            lemma_decimal(value as nat);
            lemma_concat(decimal(value as nat), width_suffix(bitwidth));
        },
        SpecItem::Negative { value, bitwidth } => {
            lemma_decimal(value as nat + 1);
            lemma_concat(seq!['-'], decimal(value as nat + 1));
            lemma_concat(seq!['-'] + decimal(value as nat + 1), width_suffix(bitwidth));
        },
        SpecItem::ByteString(b) => lemma_bytes(b.data, enc),
        SpecItem::TextString(t) => {
            lemma_escape(t.data);
            lemma_concat(seq!['"'], escape_quoted(t.data));
            lemma_concat(seq!['"'] + escape_quoted(t.data), seq!['"']);
        },
        SpecItem::Float { value, bitwidth } => {
            reveal_strlit("NaN");
            reveal_strlit("Infinity");
            let t = ft(value, bitwidth, FloatText::Diag);
            assert(single_line(t));
            let body = if crate::float::is_nan(value, bitwidth) {
                "NaN"@
            } else if crate::float::is_infinite(value, bitwidth) {
                (if crate::float::is_sign_negative(value, bitwidth) { seq!['-'] } else { Seq::empty() }) + "Infinity"@
            } else {
                t + if !t.contains('.') && !t.contains('e') { seq!['.', '0'] } else { Seq::empty() }
            };
            lemma_concat(if crate::float::is_sign_negative(value, bitwidth) { seq!['-'] } else { Seq::<char>::empty() }, "Infinity"@);
            lemma_concat(t, if !t.contains('.') && !t.contains('e') { seq!['.', '0'] } else { Seq::<char>::empty() });
            lemma_concat(body, float_suffix(bitwidth));
            assert(float_diag(value, bitwidth, ft) == body + float_suffix(bitwidth));
        },
        SpecItem::Simple(v) => {
            reveal_strlit("false");
            reveal_strlit("true");
            reveal_strlit("null");
            reveal_strlit("undefined");
            reveal_strlit("simple(");
            lemma_decimal(v as nat);
            lemma_concat("simple("@, decimal(v as nat));
            lemma_concat("simple("@ + decimal(v as nat), seq![')']);
        },
        _ => {},
    }
}

proof fn lemma_compact(x: SpecItem, enc: super::Encoding, indent: nat, bound: nat, ft: FloatTexts)
    requires
        texts_single_line(x, bound),
        float_texts_single_line(ft),
    ensures
        single_line(diag(x, Layout::Compact, enc, indent, bound, ft)),
    decreases bound, x, 1nat,
{
    let trivial = super::diag::is_trivial_item(x, ft);
    let inner = super::diag::inner_indent(indent, trivial);
    let parts = diag_parts(x, Layout::Compact, enc, inner, bound, ft);
    match x {
        SpecItem::Array { data, bitwidth } => {
            assert forall|i: int| 0 <= i < parts.len() implies single_line(#[trigger] parts[i]) by {
                lemma_compact(data[i], enc, inner, bound, ft);
            }
            lemma_container('[', parts, ']', bitwidth is Some, trivial, indent);
        },
        SpecItem::Mapping { data, bitwidth } => {
            assert forall|i: int| 0 <= i < parts.len() implies single_line(#[trigger] parts[i]) by {
                lemma_compact(data[i].0, enc, inner, bound, ft);
                lemma_compact(data[i].1, enc, inner, bound, ft);
                let k = diag(data[i].0, Layout::Compact, enc, inner, bound, ft);
                let v = diag(data[i].1, Layout::Compact, enc, inner, bound, ft);
                lemma_concat(k, seq![':']);
                lemma_concat(k + seq![':'], v);
                assert(parts[i] =~= k + seq![':'] + v);
            }
            lemma_container('{', parts, '}', bitwidth is Some, trivial, indent);
        },
        SpecItem::IndefiniteByteString(s) => {
            assert forall|i: int| 0 <= i < parts.len() implies single_line(#[trigger] parts[i]) by {
                lemma_bytes(s[i].data, enc);
            }
            lemma_container('(', parts, ')', false, trivial, indent);
        },
        SpecItem::IndefiniteTextString(s) => {
            assert forall|i: int| 0 <= i < parts.len() implies single_line(#[trigger] parts[i]) by {
                assert(single_line(s[i].data));
                lemma_escape(s[i].data);
                lemma_concat(seq!['"'], escape_quoted(s[i].data));
                lemma_concat(seq!['"'] + escape_quoted(s[i].data), seq!['"']);
            }
            lemma_container('(', parts, ')', false, trivial, indent);
        },
        SpecItem::Tag { tag, bitwidth, value } => {
            lemma_suffixes();
            lemma_decimal(tag as nat);
            lemma_concat(decimal(tag as nat), width_suffix(bitwidth));
            let inside = if tag == 24 || tag == 63 {
                lemma_encoded(tag, *value, enc, indent, bound, ft);
                encoded_diag(tag, *value, Layout::Compact, enc, indent, bound, ft)
            } else {
                lemma_compact(*value, super::diag::tag_encoding(tag, enc), indent, bound, ft);
                diag(*value, Layout::Compact, super::diag::tag_encoding(tag, enc), indent, bound, ft)
            };
            lemma_concat(integer_diag(tag, bitwidth), seq!['(']);
            lemma_concat(integer_diag(tag, bitwidth) + seq!['('], inside);
            lemma_concat(integer_diag(tag, bitwidth) + seq!['('] + inside, seq![')']);
        },
        _ => lemma_leaf(x, enc, indent, bound, ft),
    }
}

proof fn lemma_encoded(tag: u64, v: SpecItem, enc: super::Encoding, indent: nat, bound: nat, ft: FloatTexts)
    requires
        tag == 24 || tag == 63,
        texts_single_line(v, bound),
        encoded_single_line(tag, v, bound),
        float_texts_single_line(ft),
    ensures
        single_line(encoded_diag(tag, v, Layout::Compact, enc, indent, bound, ft)),
    decreases bound, v, 2nat,
{
    reveal_strlit("<<>>");
    reveal_strlit("<<");
    reveal_strlit(">>");
    match v {
        SpecItem::ByteString(b) => {
            if b.data.len() < bound {
                if tag == 24 {
                    if b.data.len() > 0 {
                        match parse_result(b.data) {
                            Ok(x) => {
                                lemma_compact(x, enc, indent, b.data.len(), ft);
                                let d = diag(x, Layout::Compact, enc, indent, b.data.len(), ft);
                                lemma_concat("<<"@, d);
                                lemma_concat("<<"@ + d, ">>"@);
                            },
                            Err(_) => lemma_compact(v, enc, indent, bound, ft),
                        }
                    }
                } else {
                    let (xs, left) = cbor_sequence(b.data);
                    let ds = diags(xs, Layout::Compact, enc, indent, b.data.len(), ft);
                    assert forall|i: int| 0 <= i < ds.len() implies single_line(#[trigger] ds[i]) by {
                        lemma_compact(xs[i], enc, indent, b.data.len(), ft);
                    }
                    lemma_join(ds, true, indent);
                    let j = join_items(ds, Layout::Compact, true, indent);
                    lemma_concat("<<"@, j);
                    lemma_concat("<<"@ + j, ">>"@);
                    lemma_bytes(left, enc);
                    lemma_concat(Seq::<char>::empty(), bytes_diag(left, enc));
                    lemma_concat("<<"@ + j + ">>"@, if left.len() > 0 {
                        Seq::<char>::empty() + bytes_diag(left, enc)
                    } else {
                        Seq::<char>::empty()
                    });
                }
            } else {
                lemma_compact(v, enc, indent, bound, ft);
            }
        },
        _ => lemma_compact(v, enc, indent, bound, ft),
    }
}

/// In the compact layout (`DataItem::to_diag`, and `Context::item_to_diag`
/// with that layout) diagnostic notation is one line: it holds a line feed
/// only where a text string in the item, also in the items that an encoded
/// data item (tag 24) or encoded sequence (tag 63) holds, or a float text
/// that the caller supplies, holds one.
pub proof fn law_compact_single_line(x: SpecItem, enc: super::Encoding, indent: nat, bound: nat, ft: FloatTexts)
    requires
        texts_single_line(x, bound),
        float_texts_single_line(ft),
    ensures
        single_line(diag(x, Layout::Compact, enc, indent, bound, ft)),
{
    lemma_compact(x, enc, indent, bound, ft);
}

/// Rendered items each on a line of its own, indented by `m` spaces, with a
/// comma ending every line but the last.
pub open spec fn indented_lines(parts: Seq<Seq<char>>, m: nat) -> Seq<char>
    decreases parts.len(),
{
    if parts.len() == 0 {
        Seq::empty()
    } else {
        indented_lines(parts.drop_last(), m) + (if parts.len() > 1 { seq![','] } else { Seq::empty() })
            + seq!['\n'] + super::diag::spaces(m) + parts.last()
    }
}

proof fn lemma_join_pretty(parts: Seq<Seq<char>>, m: nat)
    ensures
        join_items(parts, Layout::Pretty, false, m) == indented_lines(parts, m),
    decreases parts.len(),
{
    if parts.len() > 1 {
        lemma_join_pretty(parts.drop_last(), m);
        assert(join_items(parts, Layout::Pretty, false, m) =~= indented_lines(parts, m));
    } else if parts.len() == 1 {
        assert(parts.drop_last().len() == 0);
        assert(indented_lines(parts.drop_last(), m) =~= Seq::<char>::empty());
        assert(parts.last() == parts[0]);
        assert(join_items(parts, Layout::Pretty, false, m) =~= indented_lines(parts, m));
    }
}

/// In the pretty layout an array or map too long for one line
/// (`to_diag_pretty`) is written with each item (each key, `: ` and value)
/// on a line of its own, indented four spaces deeper than the container
/// (each written at that deeper indentation), a comma after each, and the
/// closing bracket on a line of its own at the container's indentation.
pub proof fn law_pretty_indentation(x: SpecItem, enc: super::Encoding, n: nat, bound: nat, ft: FloatTexts)
    requires
        x is Array || x is Mapping,
        !super::diag::is_trivial_item(x, ft),
        n + 4 <= usize::MAX,
    ensures
        x matches SpecItem::Array { data, bitwidth } ==> diag(x, Layout::Pretty, enc, n, bound, ft)
            == seq!['['] + (if bitwidth is None { seq!['_'] } else { Seq::empty() })
                + indented_lines(Seq::new(data.len(), |i: int| diag(data[i], Layout::Pretty, enc, n + 4, bound, ft)), n + 4)
                + seq![',', '\n'] + super::diag::spaces(n) + seq![']'],
        x matches SpecItem::Mapping { data, bitwidth } ==> diag(x, Layout::Pretty, enc, n, bound, ft)
            == seq!['{'] + (if bitwidth is None { seq!['_'] } else { Seq::empty() })
                + indented_lines(Seq::new(data.len(), |i: int| diag(data[i].0, Layout::Pretty, enc, n + 4, bound, ft)
                    + seq![':', ' '] + diag(data[i].1, Layout::Pretty, enc, n + 4, bound, ft)), n + 4)
                + seq![',', '\n'] + super::diag::spaces(n) + seq!['}'],
{
    let parts = diag_parts(x, Layout::Pretty, enc, n + 4, bound, ft);
    assert(super::diag::inner_indent(n, false) == n + 4);
    lemma_join_pretty(parts, n + 4);
    match x {
        SpecItem::Array { data, bitwidth } => {
            assert(parts =~= Seq::new(data.len(), |i: int| diag(data[i], Layout::Pretty, enc, n + 4, bound, ft)));
        },
        SpecItem::Mapping { data, bitwidth } => {
            assert forall|i: int| 0 <= i < data.len() implies #[trigger] parts[i] =~= diag(data[i].0, Layout::Pretty, enc, n + 4, bound, ft)
                + seq![':', ' '] + diag(data[i].1, Layout::Pretty, enc, n + 4, bound, ft) by {}
            assert(parts =~= Seq::new(data.len(), |i: int| diag(data[i].0, Layout::Pretty, enc, n + 4, bound, ft)
                + seq![':', ' '] + diag(data[i].1, Layout::Pretty, enc, n + 4, bound, ft)));
        },
        _ => {},
    }
}

} // verus!
