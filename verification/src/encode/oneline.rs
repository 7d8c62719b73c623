//! Comments of annotated hex that stay on one line.
use vstd::prelude::*;

use crate::codecs::{base64_text, hex_digit, hex_lower};
use crate::float::FloatText;
use crate::codecs::{hex_bytes, is_hex_text};
use crate::encode::bytes::item_bytes;
use crate::error::Result;
use crate::laws::{encodable, widths_given};
use crate::parse::binary::{Parsed, parse_bytes_gives, parse_item};
use crate::parse::uncommented;
use crate::readback::{
    annotated, comments_single_line, comments_single_lines, law_hex_roundtrip, lemma_hex_lower_chars,
    single_line,
};
use crate::syntax::DataItem;
use vstd::utf8::encode_utf8;
use crate::syntax::{FloatWidth, SpecBytes, SpecItem, SpecText};
use crate::text::decimal;
use super::annotate::{grouped, separated};
use super::compact::{lemma_base64, lemma_concat, lemma_decimal};
use super::hex::{
    FloatTexts, SpecLine, ascii_escape, ascii_escaped, break_line, bytes_comment, bytestring_line,
    char_escape, chunk16, chunk16_count, empty_string_line, float_line, hex_digits, hex_items,
    hex_of, hex_pairs, integer_line, length_line, merged, negative_line, simple_kind, simple_line,
    text_chunk_line, text_chunks, text_escaped, textstring_line,
};
use super::Encoding;

verus! {

/// Whether the annotations a tag calls for are computed by this library
/// alone and show no text of the item as it is: every tag but datetimes and
/// dates (0, 1, 100, 1004), encoded data items and sequences (24, 63),
/// base64 text (33, 34), UUIDs (37), network addresses (52, 54, 260) and
/// typed arrays (64 to 87).
pub open spec fn plain_tag(tag: u64) -> bool {
    !(tag == 0 || tag == 1 || tag == 24 || tag == 33 || tag == 34 || tag == 37 || tag == 52 || tag == 54
        || tag == 63 || tag == 100 || tag == 260 || tag == 1004 || (64 <= tag <= 87))
}

/// Whether an item holds only plain tags (see `plain_tag`).
pub open spec fn plain(x: SpecItem) -> bool
    decreases x,
{
    match x {
        SpecItem::Tag { tag, value, .. } => plain_tag(tag) && plain(*value),
        SpecItem::Array { data, .. } => forall|i: int| 0 <= i < data.len() ==> plain(#[trigger] data[i]),
        SpecItem::Mapping { data, .. } => forall|i: int| 0 <= i < data.len() ==> plain(#[trigger] data[i].0) && plain(data[i].1),
        _ => true,
    }
}

/// Whether no float text that `ft` gives for annotations has a line feed.
pub open spec fn float_notes_single_line(ft: FloatTexts) -> bool {
    forall|v: u64, w: FloatWidth| single_line(#[trigger] ft(v, w, FloatText::Annotation))
}

proof fn lemma_lines(s: Seq<SpecLine>)
    requires
        forall|i: int| 0 <= i < s.len() ==> comments_single_line(#[trigger] s[i]),
    ensures
        comments_single_lines(s),
    decreases s.len(),
{
    if s.len() > 0 {
        let p = s.drop_last();
        assert forall|i: int| 0 <= i < p.len() implies comments_single_line(#[trigger] p[i]) by {
            assert(p[i] == s[i]);
        }
        lemma_lines(p);
        assert(comments_single_line(s[s.len() - 1]));
    }
}

proof fn lemma_leaf(hex: Seq<char>, comment: Seq<char>)
    requires
        single_line(comment),
    ensures
        comments_single_line(super::hex::leaf(hex, comment)),
{
    lemma_lines(Seq::<SpecLine>::empty());
}

proof fn lemma_concat3(a: Seq<char>, b: Seq<char>, c: Seq<char>)
    requires
        single_line(a),
        single_line(b),
        single_line(c),
    ensures
        single_line(a + b + c),
{
    lemma_concat(a, b);
    lemma_concat(a + b, c);
}

proof fn lemma_grouped(d: Seq<char>)
    requires
        single_line(d),
    ensures
        single_line(grouped(d)),
    decreases d.len(),
{
    if d.len() > 3 {
        let t = d.take(d.len() - 3);
        let k = d.skip(d.len() - 3);
        assert forall|i: int| 0 <= i < t.len() implies #[trigger] t[i] != '\n' by { assert(t[i] == d[i]); }
        assert forall|i: int| 0 <= i < k.len() implies #[trigger] k[i] != '\n' by { assert(k[i] == d[i + d.len() - 3]); }
        lemma_grouped(t);
        lemma_concat3(grouped(t), seq![','], k);
    }
}

proof fn lemma_separated(v: int)
    ensures
        single_line(separated(v)),
{
    if v < 0 {
        lemma_decimal((-v) as nat);
        lemma_grouped(decimal((-v) as nat));
        lemma_concat(seq!['-'], grouped(decimal((-v) as nat)));
    } else {
        lemma_decimal(v as nat);
        lemma_grouped(decimal(v as nat));
    }
}

proof fn lemma_hex_digits(n: nat)
    ensures
        single_line(hex_digits(n)),
    decreases n,
{
    if n >= 16 {
        lemma_hex_digits(n / 16);
        assert(hex_digit((n % 16) as u8) != '\n');
        lemma_concat(hex_digits(n / 16), seq![hex_digit((n % 16) as u8)]);
    } else {
        assert(hex_digit(n as u8) != '\n');
    }
}

proof fn lemma_hex_lower(b: Seq<u8>)
    ensures
        single_line(hex_lower(b)),
{
    lemma_hex_lower_chars(b);
    assert forall|i: int| 0 <= i < hex_lower(b).len() implies #[trigger] hex_lower(b)[i] != '\n' by {
        assert(crate::readback::is_column_char(hex_lower(b)[i]));
    }
}

proof fn lemma_text_escaped(s: Seq<char>)
    ensures
        single_line(text_escaped(s)),
    decreases s.len(),
{
    if s.len() > 0 {
        lemma_text_escaped(s.drop_last());
        let c = s.last();
        lemma_hex_digits(c as nat);
        lemma_concat3(seq!['\\', 'u', '{'], hex_digits(c as nat), seq!['}']);
        assert(single_line(char_escape(c)));
        lemma_concat(text_escaped(s.drop_last()), char_escape(c));
    }
}

proof fn lemma_ascii_escaped(s: Seq<u8>)
    ensures
        single_line(ascii_escaped(s)),
    decreases s.len(),
{
    if s.len() > 0 {
        lemma_ascii_escaped(s.drop_last());
        let b = s.last();
        assert(hex_digit(b / 16) != '\n' && hex_digit(b % 16) != '\n');
        assert(single_line(ascii_escape(b)));
        lemma_concat(ascii_escaped(s.drop_last()), ascii_escape(b));
    }
}

proof fn lemma_length_line(len: nat, bitwidth: Option<crate::syntax::IntegerWidth>, major: u8, kind: Seq<char>)
    requires
        single_line(kind),
    ensures
        comments_single_line(length_line(len, bitwidth, major, kind)),
{
    lemma_decimal(len);
    let n = if bitwidth is Some { decimal(len) } else { seq!['*'] };
    lemma_concat3(kind, seq!['('], n);
    lemma_concat(kind + seq!['('] + n, seq![')']);
    lemma_leaf(super::hex::length_hex(len, bitwidth, major), kind + seq!['('] + n + seq![')']);
}

proof fn lemma_bytestring(enc: Option<Encoding>, b: SpecBytes)
    ensures
        comments_single_line(bytestring_line(enc, b)),
{
    reveal_strlit("bytes");
    reveal_strlit("b64'");
    reveal_strlit("h'");
    lemma_length_line(b.data.len(), Some(b.bitwidth), 2, "bytes"@);
    let subs = if b.data.len() == 0 { seq![empty_string_line()] } else { super::hex::bytes_lines(enc, b.data) };
    assert forall|i: int| 0 <= i < subs.len() implies comments_single_line(#[trigger] subs[i]) by {
        if b.data.len() == 0 {
            lemma_leaf(Seq::empty(), seq!['"', '"']);
        } else {
            let c = chunk16(b.data, i);
            lemma_base64(b.data, true, false);
            lemma_base64(b.data, false, true);
            lemma_hex_lower(c);
            lemma_ascii_escaped(c);
            lemma_concat3("b64'"@, base64_text(b.data, true, false), seq!['\'']);
            lemma_concat3("b64'"@, base64_text(b.data, false, true), seq!['\'']);
            lemma_concat3("h'"@, hex_lower(c), seq!['\'']);
            lemma_concat3(seq!['"'], ascii_escaped(c), seq!['"']);
            lemma_leaf(hex_lower(c), bytes_comment(enc, b.data, c));
        }
    }
    lemma_lines(subs);
}

proof fn lemma_textstring(t: SpecText)
    ensures
        comments_single_line(textstring_line(t)),
{
    reveal_strlit("text");
    lemma_length_line(vstd::utf8::encode_utf8(t.data).len(), Some(t.bitwidth), 3, "text"@);
    let l = textstring_line(t);
    let subs = l.sublines;
    assert forall|i: int| 0 <= i < subs.len() implies comments_single_line(#[trigger] subs[i]) by {
        if t.data.len() == 0 {
            lemma_leaf(Seq::empty(), seq!['"', '"']);
        } else {
            let c = if vstd::utf8::encode_utf8(t.data).len() <= 24 { t.data } else { text_chunks(t.data)[i] };
            lemma_text_escaped(c);
            lemma_concat3(seq!['"'], text_escaped(c), seq!['"']);
            lemma_leaf(hex_lower(vstd::utf8::encode_utf8(c)), seq!['"'] + text_escaped(c) + seq!['"']);
            assert(subs[i] == text_chunk_line(c));
        }
    }
    lemma_lines(subs);
}

proof fn lemma_simple(v: u8)
    ensures
        comments_single_line(simple_line(v)),
{
    reveal_strlit("false, ");
    reveal_strlit("true, ");
    reveal_strlit("null, ");
    reveal_strlit("undefined, ");
    reveal_strlit("reserved, ");
    reveal_strlit("unassigned, ");
    reveal_strlit("simple(");
    lemma_decimal(v as nat);
    lemma_concat3(simple_kind(v), "simple("@, decimal(v as nat));
    lemma_concat(simple_kind(v) + "simple("@ + decimal(v as nat), seq![')']);
    lemma_leaf(simple_line(v).hex, simple_line(v).comment);
}

proof fn lemma_float(value: u64, w: FloatWidth, ft: FloatTexts)
    requires
        float_notes_single_line(ft),
    ensures
        comments_single_line(float_line(value, w, ft)),
{
    reveal_strlit("float(");
    reveal_strlit("NaN");
    reveal_strlit("-Infinity");
    reveal_strlit("Infinity");
    assert(single_line(ft(value, w, FloatText::Annotation)));
    let inner = if crate::float::is_nan(value, w) {
        "NaN"@
    } else if crate::float::is_infinite(value, w) {
        if crate::float::is_sign_negative(value, w) { "-Infinity"@ } else { "Infinity"@ }
    } else {
        ft(value, w, FloatText::Annotation)
    };
    lemma_concat3("float("@, inner, seq![')']);
    lemma_leaf(float_line(value, w, ft).hex, float_line(value, w, ft).comment);
}

proof fn lemma_break()
    ensures
        comments_single_line(break_line()),
{
    reveal_strlit("break");
    lemma_leaf(seq!['f', 'f'], "break"@);
}

/// The comments of the annotated hex of an item with only plain tags (see
/// `plain_tag`) are each on one line, wherever the float texts for
/// annotations are.
pub proof fn lemma_plain_single_line(x: SpecItem, enc: Option<Encoding>, refs: u64, bound: nat, ft: FloatTexts)
    requires
        plain(x),
        float_notes_single_line(ft),
    ensures
        comments_single_line(hex_of(x, enc, refs, bound, ft).0),
    decreases x, 1nat,
{
    match x {
        SpecItem::Integer { value, bitwidth } => {
            reveal_strlit("unsigned(");
            lemma_separated(value as int);
            lemma_concat3("unsigned("@, separated(value as int), seq![')']);
            lemma_leaf(integer_line(value, bitwidth).hex, integer_line(value, bitwidth).comment);
        },
        SpecItem::Negative { value, bitwidth } => {
            reveal_strlit("negative(");
            lemma_separated(-1 - value);
            lemma_concat3("negative("@, separated(-1 - value), seq![')']);
            lemma_leaf(negative_line(value, bitwidth).hex, negative_line(value, bitwidth).comment);
        },
        SpecItem::ByteString(b) => lemma_bytestring(enc, b),
        SpecItem::TextString(t) => lemma_textstring(t),
        SpecItem::IndefiniteByteString(s) => {
            reveal_strlit("bytes");
            lemma_length_line(0, None, 2, "bytes"@);
            let subs = s.map_values(|b: SpecBytes| bytestring_line(enc, b)).push(break_line());
            assert forall|i: int| 0 <= i < subs.len() implies comments_single_line(#[trigger] subs[i]) by {
                if i < s.len() {
                    lemma_bytestring(enc, s[i]);
                } else {
                    lemma_break();
                }
            }
            lemma_lines(subs);
        },
        SpecItem::IndefiniteTextString(s) => {
            reveal_strlit("text");
            lemma_length_line(0, None, 3, "text"@);
            let subs = s.map_values(|t: SpecText| textstring_line(t)).push(break_line());
            assert forall|i: int| 0 <= i < subs.len() implies comments_single_line(#[trigger] subs[i]) by {
                if i < s.len() {
                    lemma_textstring(s[i]);
                } else {
                    lemma_break();
                }
            }
            lemma_lines(subs);
        },
        SpecItem::Array { data, bitwidth } => {
            reveal_strlit("array");
            lemma_length_line(data.len(), bitwidth, 4, "array"@);
            lemma_items_single_line(data, enc, refs, bound, ft);
            let ls = hex_items(data, enc, refs, bound, ft).0;
            let subs = if bitwidth is None { ls.push(break_line()) } else { ls };
            assert forall|i: int| 0 <= i < subs.len() implies comments_single_line(#[trigger] subs[i]) by {
                if i < ls.len() {
                    assert(subs[i] == ls[i]);
                } else {
                    lemma_break();
                }
            }
            lemma_lines(subs);
        },
        SpecItem::Mapping { data, bitwidth } => {
            reveal_strlit("map");
            lemma_length_line(data.len(), bitwidth, 5, "map"@);
            lemma_pairs_single_line(data, enc, refs, bound, ft);
            let ls = hex_pairs(data, enc, refs, bound, ft).0;
            let subs = if bitwidth is None { ls.push(break_line()) } else { ls };
            assert forall|i: int| 0 <= i < subs.len() implies comments_single_line(#[trigger] subs[i]) by {
                if i < ls.len() {
                    assert(subs[i] == ls[i]);
                } else {
                    lemma_break();
                }
            }
            lemma_lines(subs);
        },
        SpecItem::Float { value, bitwidth } => lemma_float(value, bitwidth, ft),
        SpecItem::Simple(v) => lemma_simple(v),
        SpecItem::Tag { tag, bitwidth, value } => lemma_tagged_single_line(tag, bitwidth, *value, enc, refs, bound, ft),
    }
}

proof fn lemma_tag_comment(tag: u64)
    requires
        plain_tag(tag),
    ensures
        single_line(super::hex::tag_comment(tag)),
{
    reveal_strlit(", tag(");
    reveal_strlit("tag(");
    reveal_strlit("positive bignum");
    reveal_strlit("negative bignum");
    reveal_strlit("decimal fraction");
    reveal_strlit("bigfloat");
    reveal_strlit("suggested base64url encoding");
    reveal_strlit("suggested base64 encoding");
    reveal_strlit("suggested base16 encoding");
    reveal_strlit("uri");
    reveal_strlit("regex");
    reveal_strlit("mime message");
    reveal_strlit("self describe cbor");
    reveal_strlit("shareable value");
    reveal_strlit("reference to shared value");
    lemma_decimal(tag as nat);
    match super::hex::tag_description(tag) {
        Some(d) => {
            assert(single_line(d));
            lemma_concat3(d, ", tag("@, decimal(tag as nat));
            lemma_concat(d + ", tag("@ + decimal(tag as nat), seq![')']);
        },
        None => {
            lemma_concat3("tag("@, decimal(tag as nat), seq![')']);
        },
    }
}

proof fn lemma_int_text(v: int)
    ensures
        single_line(super::annotate::int_text(v)),
{
    if v < 0 {
        lemma_decimal((-v) as nat);
        lemma_concat(seq!['-'], decimal((-v) as nat));
    } else {
        lemma_decimal(v as nat);
    }
}

proof fn lemma_fraction_line(x: SpecItem, base: nat, name: Seq<char>)
    requires
        single_line(name),
    ensures
        comments_single_line(super::annotate::fraction_line(x, base, name)),
{
    reveal_strlit("invalid type");
    reveal_strlit("exponent is too large");
    reveal_strlit(" for ");
    match super::annotate::fraction_text(x, base) {
        Ok(t) => {
            let data = x->Array_data;
            let (exp, positive) = super::annotate::fraction_exponent(data[0])->Ok_0;
            let m = super::annotate::fraction_mantissa(data[1])->Ok_0;
            let (mm, d) = if positive {
                (m * super::annotate::power(base, exp), 1nat)
            } else {
                (m, super::annotate::power(base, exp))
            };
            let g = super::annotate::gcd(if mm < 0 { (-mm) as nat } else { mm as nat }, d);
            lemma_int_text(mm / (g as int));
            lemma_decimal(d / g);
            lemma_concat3(super::annotate::int_text(mm / (g as int)), seq!['/'], decimal(d / g));
            assert(single_line(t));
            lemma_concat3(name, seq!['('], t);
            lemma_concat(name + seq!['('] + t, seq![')']);
            lemma_leaf(Seq::empty(), name + seq!['('] + t + seq![')']);
        },
        Err(e) => {
            assert(single_line(e));
            lemma_concat3(e, " for "@, name);
            lemma_leaf(Seq::empty(), e + " for "@ + name);
        },
    }
}

proof fn lemma_extra_single_line(tag: u64, v: SpecItem, refs: u64, bound: nat, ft: FloatTexts)
    requires
        plain_tag(tag),
    ensures
        forall|i: int| 0 <= i < super::hex::tag_extra(tag, v, refs, bound, ft).0.len()
            ==> comments_single_line(#[trigger] super::hex::tag_extra(tag, v, refs, bound, ft).0[i]),
{
    let extra = super::hex::tag_extra(tag, v, refs, bound, ft).0;
    if tag == 2 || tag == 3 {
        reveal_strlit("bignum(");
        reveal_strlit("bignum(-");
        reveal_strlit("invalid type for bignum");
        if let SpecItem::ByteString(b) = v {
            let n = super::annotate::big_value(b.data);
            lemma_decimal(n);
            lemma_decimal(n + 1);
            lemma_concat3("bignum("@, decimal(n), seq![')']);
            lemma_concat3("bignum(-"@, decimal(n + 1), seq![')']);
        }
        lemma_leaf(Seq::empty(), extra[0].comment);
    } else if tag == 4 {
        reveal_strlit("decimal fraction");
        lemma_fraction_line(v, 10, "decimal fraction"@);
    } else if tag == 5 {
        reveal_strlit("bigfloat");
        lemma_fraction_line(v, 2, "bigfloat"@);
    } else if tag == 32 {
        reveal_strlit("valid URL (checked against URL Standard, not RFC 3986)");
        reveal_strlit("invalid URL (checked against URL Standard, not RFC 3986)");
        reveal_strlit("invalid type for uri");
        lemma_leaf(Seq::empty(), extra[0].comment);
    } else if tag == 28 {
        reveal_strlit("reference(");
        lemma_separated(refs as int);
        lemma_concat3("reference("@, separated(refs as int), seq![')']);
        lemma_leaf(Seq::empty(), extra[0].comment);
    } else if tag == 29 {
        reveal_strlit("reference-to(");
        reveal_strlit("), not previously shared");
        reveal_strlit("invalid type for shared ref");
        if let SpecItem::Integer { value, .. } = v {
            lemma_separated(value as int);
            lemma_concat3("reference-to("@, separated(value as int), seq![')']);
            lemma_concat3("reference-to("@, separated(value as int), "), not previously shared"@);
        }
        lemma_leaf(Seq::empty(), extra[0].comment);
    } else {
        assert(extra.len() == 0);
    }
}

proof fn lemma_tagged_single_line(
    tag: u64,
    bitwidth: crate::syntax::IntegerWidth,
    v: SpecItem,
    enc: Option<Encoding>,
    refs: u64,
    bound: nat,
    ft: FloatTexts,
)
    requires
        plain_tag(tag),
        plain(v),
        float_notes_single_line(ft),
    ensures
        comments_single_line(super::hex::tagged_hex(tag, bitwidth, v, enc, refs, bound, ft).0),
    decreases v, 2nat,
{
    let (extra, r1) = super::hex::tag_extra(tag, v, refs, bound, ft);
    let enc2 = if tag == 21 {
        Some(Encoding::Base64Url)
    } else if tag == 22 {
        Some(Encoding::Base64)
    } else if tag == 23 || tag == 260 || tag == 37 || tag == 52 || tag == 54 {
        Some(Encoding::Base16)
    } else {
        enc
    };
    let l0 = hex_of(v, enc2, r1, bound, ft).0;
    lemma_plain_single_line(v, enc2, r1, bound, ft);
    lemma_extra_single_line(tag, v, refs, bound, ft);
    lemma_tag_comment(tag);
    let subs = seq![l0] + extra;
    assert(super::hex::tag_sublines(tag, v, enc, r1, bound, ft).0 == seq![l0]);
    assert forall|i: int| 0 <= i < subs.len() implies comments_single_line(#[trigger] subs[i]) by {
        if i > 0 {
            assert(subs[i] == extra[i - 1]);
        }
    }
    lemma_lines(subs);
    assert(super::hex::tagged_hex(tag, bitwidth, v, enc, refs, bound, ft).0.sublines == subs);
}

proof fn lemma_items_single_line(s: Seq<SpecItem>, enc: Option<Encoding>, refs: u64, bound: nat, ft: FloatTexts)
    requires
        forall|i: int| 0 <= i < s.len() ==> plain(#[trigger] s[i]),
        float_notes_single_line(ft),
    ensures
        forall|i: int| 0 <= i < hex_items(s, enc, refs, bound, ft).0.len()
            ==> comments_single_line(#[trigger] hex_items(s, enc, refs, bound, ft).0[i]),
    decreases s, 2nat,
{
    if s.len() > 0 {
        let (l, r1) = hex_of(s[0], enc, refs, bound, ft);
        lemma_plain_single_line(s[0], enc, refs, bound, ft);
        assert forall|i: int| 0 <= i < s.skip(1).len() implies plain(#[trigger] s.skip(1)[i]) by {
            assert(s.skip(1)[i] == s[i + 1]);
        }
        lemma_items_single_line(s.skip(1), enc, r1, bound, ft);
        let ls = hex_items(s.skip(1), enc, r1, bound, ft).0;
        let all = seq![l] + ls;
        assert(hex_items(s, enc, refs, bound, ft).0 == all);
        assert forall|i: int| 0 <= i < all.len() implies comments_single_line(#[trigger] all[i]) by {
            if i > 0 {
                assert(all[i] == ls[i - 1]);
            }
        }
    }
}

proof fn lemma_pairs_single_line(s: Seq<(SpecItem, SpecItem)>, enc: Option<Encoding>, refs: u64, bound: nat, ft: FloatTexts)
    requires
        forall|i: int| 0 <= i < s.len() ==> plain(#[trigger] s[i].0) && plain(s[i].1),
        float_notes_single_line(ft),
    ensures
        forall|i: int| 0 <= i < hex_pairs(s, enc, refs, bound, ft).0.len()
            ==> comments_single_line(#[trigger] hex_pairs(s, enc, refs, bound, ft).0[i]),
    decreases s, 2nat,
{
    if s.len() > 0 {
        let (k, r1) = hex_of(s[0].0, enc, refs, bound, ft);
        let (v, r2) = hex_of(s[0].1, enc, r1, bound, ft);
        lemma_plain_single_line(s[0].0, enc, refs, bound, ft);
        lemma_plain_single_line(s[0].1, enc, r1, bound, ft);
        assert forall|i: int| 0 <= i < s.skip(1).len() implies plain(#[trigger] s.skip(1)[i].0) && plain(s.skip(1)[i].1) by {
            assert(s.skip(1)[i] == s[i + 1]);
        }
        lemma_pairs_single_line(s.skip(1), enc, r2, bound, ft);
        let ls = hex_pairs(s.skip(1), enc, r2, bound, ft).0;
        let all = seq![k, v] + ls;
        assert(hex_pairs(s, enc, refs, bound, ft).0 == all);
        assert forall|i: int| 0 <= i < all.len() implies comments_single_line(#[trigger] all[i]) by {
            if i > 1 {
                assert(all[i] == ls[i - 2]);
            }
        }
    }
}

/// Annotated hex reads back for every encodable item with only plain tags
/// (see `plain_tag`), text strings with line feeds included: their comments
/// show text escaped, so
/// each stays on its line, and `parse_hex` of `to_hex` gives the item with
/// each width as the annotation shows it (the item itself where all its
/// widths were given), wherever the caller's float texts for annotations
/// are single lines.
pub proof fn law_hex_roundtrip_plain(x: SpecItem, ft: FloatTexts)
    requires
        encodable(x),
        plain(x),
        float_notes_single_line(ft),
    ensures
        comments_single_line(hex_of(x, None, 0, usize::MAX as nat + 1, ft).0),
        ({
            let text = encode_utf8(uncommented(merged(hex_of(x, None, 0, usize::MAX as nat + 1, ft).0), false));
            &&& is_hex_text(text)
            &&& hex_bytes(text) == item_bytes(annotated(x))
            &&& parse_item(hex_bytes(text)) == Parsed::Done(annotated(x), hex_bytes(text).len())
            &&& forall|r: Result<DataItem>| #[trigger] parse_bytes_gives(hex_bytes(text), r)
                ==> (r matches Ok(y) && y@ == annotated(x))
            &&& widths_given(x) ==> annotated(x) == x
        }),
{
    lemma_plain_single_line(x, None, 0, usize::MAX as nat + 1, ft);
    law_hex_roundtrip(x, ft);
}

} // verus!
