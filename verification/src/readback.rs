//! Reading annotated hex back: what is left of annotated hex once comments
//! and spaces are removed, and the round trip through `to_hex` and
//! `parse_hex`.
use vstd::prelude::*;

use vstd::utf8::{encode_utf8, is_ascii_chars, is_ascii_chars_encode_utf8};

use crate::codecs::{hex_bytes, hex_digit, hex_lower, hex_value, is_hex_text};
use crate::encode::bytes::{
    be_bytes, bytestring_bytes, bytestrings_bytes, float_bytes, header_bytes, initial_byte,
    item_bytes, items_bytes, minimal_width, pairs_bytes, resolved_width, textstring_bytes,
    textstrings_bytes,
};
use crate::encode::hex::{
    SpecLine, blanks, hex_layout, line_width, sublines_width, bytes_lines, bytestring_line, cap, chunk16, chunk16_count, count_width,
    empty_string_line, float_line, head_hex, hex_digits, hex_number, integer_line, leaf,
    length_hex, merged, merged_line, merged_lines, negative_line, own_line, pad, simple_line,
    text_chunk_line, text_chunks, textstring_line, value_width, FloatTexts, break_line, element,
    tag_extra, tag_hex, tagged_hex, typed_lines, typed_size, is_typed_array, hex_of, hex_items, hex_pairs,
    length_line, tag_sublines, with_sublines,
};
use crate::encode::annotate::note;
use crate::laws::{encodable, law_bytes_roundtrip, widths_given, lemma_items_bytes_front, lemma_pairs_bytes_front, normalized, normalized_bytes, normalized_text};
use crate::encode::Encoding;
use crate::laws::{bytes_encodable, fits, float_fits, length_fits, text_encodable};

use crate::error::Result;
use crate::parse::binary::{Parsed, parse_bytes_gives, parse_item};
use crate::parse::uncommented;
use crate::syntax::DataItem;
use crate::text::decimal;
use crate::syntax::{FloatWidth, IntegerWidth, SpecBytes, SpecItem, SpecText};

verus! {

/// Whether a character can stand in the hex column of annotated hex: a
/// lowercase hexadecimal digit or a space.
pub open spec fn is_column_char(c: char) -> bool {
    ('0' <= c && c <= '9') || ('a' <= c && c <= 'f') || c == ' '
}

/// Whether every character of some text can stand in the hex column.
pub open spec fn column_chars(s: Seq<char>) -> bool {
    forall|i: int| 0 <= i < s.len() ==> is_column_char(#[trigger] s[i])
}

/// Whether some text has no line feed.
pub open spec fn single_line(s: Seq<char>) -> bool {
    forall|i: int| 0 <= i < s.len() ==> #[trigger] s[i] != '\n'
}

/// The hex of a line and of the lines nested under it, in order.
pub open spec fn hex_column(l: SpecLine) -> Seq<char>
    decreases l, 1nat,
{
    l.hex + hex_columns(l.sublines)
}

/// The hex of a sequence of lines, in order.
pub open spec fn hex_columns(s: Seq<SpecLine>) -> Seq<char>
    decreases s, 0nat,
{
    if s.len() == 0 {
        Seq::empty()
    } else {
        hex_columns(s.drop_last()) + hex_column(s.last())
    }
}

/// Whether the hex of a line and of the lines nested under it is made of
/// hex digits and spaces.
pub open spec fn column_line(l: SpecLine) -> bool
    decreases l, 1nat,
{
    column_chars(l.hex) && column_lines(l.sublines)
}

/// Whether the hex of a sequence of lines is made of hex digits and spaces.
pub open spec fn column_lines(s: Seq<SpecLine>) -> bool
    decreases s, 0nat,
{
    s.len() == 0 || (column_lines(s.drop_last()) && column_line(s.last()))
}

/// Whether the comments of a line and of the lines nested under it are each
/// on one line.
pub open spec fn comments_single_line(l: SpecLine) -> bool
    decreases l, 1nat,
{
    single_line(l.comment) && comments_single_lines(l.sublines)
}

/// Whether the comments of a sequence of lines are each on one line.
pub open spec fn comments_single_lines(s: Seq<SpecLine>) -> bool
    decreases s, 0nat,
{
    s.len() == 0 || (comments_single_lines(s.drop_last()) && comments_single_line(s.last()))
}

/// Text without its spaces.
pub open spec fn strip(s: Seq<char>) -> Seq<char>
    decreases s.len(),
{
    if s.len() == 0 {
        Seq::empty()
    } else if s[0] == ' ' {
        strip(s.skip(1))
    } else {
        seq![s[0]] + strip(s.skip(1))
    }
}

/// Removing spaces from two texts one after the other.
pub proof fn lemma_strip_concat(a: Seq<char>, b: Seq<char>)
    ensures
        strip(a + b) == strip(a) + strip(b),
    decreases a.len(),
{
    if a.len() == 0 {
        assert(a + b =~= b);
        assert(Seq::<char>::empty() + strip(b) =~= strip(b));
    } else {
        assert((a + b)[0] == a[0]);
        assert((a + b).skip(1) =~= a.skip(1) + b);
        lemma_strip_concat(a.skip(1), b);
        if a[0] != ' ' {
            assert(seq![a[0]] + (strip(a.skip(1)) + strip(b)) =~= (seq![a[0]] + strip(a.skip(1))) + strip(b));
        }
    }
}

/// Spaces are removed altogether.
pub proof fn lemma_strip_blanks(n: nat)
    ensures
        strip(blanks(n)) == Seq::<char>::empty(),
    decreases n,
{
    if n > 0 {
        assert(blanks(n).skip(1) =~= blanks((n - 1) as nat));
        lemma_strip_blanks((n - 1) as nat);
    }
}

/// Removing comments from text made of hex digits and spaces removes the
/// spaces.
proof fn lemma_uncommented_column(a: Seq<char>, b: Seq<char>)
    requires
        column_chars(a),
    ensures
        uncommented(a + b, false) == strip(a) + uncommented(b, false),
    decreases a.len(),
{
    if a.len() == 0 {
        assert(a + b =~= b);
        assert(Seq::<char>::empty() + uncommented(b, false) =~= uncommented(b, false));
    } else {
        assert((a + b)[0] == a[0]);
        assert((a + b).skip(1) =~= a.skip(1) + b);
        assert(is_column_char(a[0]));
        lemma_uncommented_column(a.skip(1), b);
        if a[0] != ' ' {
            assert(seq![a[0]] + (strip(a.skip(1)) + uncommented(b, false)) =~= (seq![a[0]] + strip(a.skip(1))) + uncommented(b, false));
        }
    }
}

/// A comment without line feeds runs to the line feed after it.
proof fn lemma_uncommented_comment(c: Seq<char>, b: Seq<char>)
    requires
        single_line(c),
    ensures
        uncommented(c + seq!['\n'] + b, true) == uncommented(b, false),
    decreases c.len(),
{
    if c.len() == 0 {
        assert(c + seq!['\n'] + b =~= seq!['\n'] + b);
        assert((seq!['\n'] + b).skip(1) =~= b);
    } else {
        assert((c + seq!['\n'] + b)[0] == c[0]);
        assert((c + seq!['\n'] + b).skip(1) =~= c.skip(1) + seq!['\n'] + b);
        lemma_uncommented_comment(c.skip(1), b);
    }
}

/// Padding adds nothing but spaces.
proof fn lemma_pad(hex: Seq<char>, width: nat)
    requires
        column_chars(hex),
    ensures
        column_chars(pad(hex, width)),
        strip(pad(hex, width)) == strip(hex),
{
    if hex.len() < width {
        let n = (width - hex.len()) as nat;
        lemma_strip_concat(hex, blanks(n));
        lemma_strip_blanks(n);
        assert(strip(hex) + Seq::<char>::empty() =~= strip(hex));
        assert forall|i: int| 0 <= i < pad(hex, width).len() implies is_column_char(#[trigger] pad(hex, width)[i]) by {
            if i >= hex.len() {
                assert(pad(hex, width)[i] == blanks(n)[i - hex.len()]);
            } else {
                assert(pad(hex, width)[i] == hex[i]);
            }
        }
    }
}

/// What is left of the text of one line once comments are removed: its hex
/// without spaces.
proof fn lemma_uncommented_own_line(hex: Seq<char>, comment: Seq<char>, width: nat, level: nat, b: Seq<char>)
    requires
        column_chars(hex),
        single_line(comment),
    ensures
        uncommented(own_line(hex, comment, width, level) + b, false) == strip(hex) + uncommented(b, false),
{
    let (hi, hw) = crate::encode::hex::hex_layout(width, level);
    let a = blanks(hi) + pad(hex, hw);
    let c = seq![' '] + blanks(cap(2 * level as int)) + comment;
    lemma_pad(hex, hw);
    assert(column_chars(a)) by {
        assert forall|i: int| 0 <= i < a.len() implies is_column_char(#[trigger] a[i]) by {
            if i < hi {
                assert(a[i] == blanks(hi)[i]);
            } else {
                assert(a[i] == pad(hex, hw)[i - hi]);
            }
        }
    }
    let r = seq![' ', '#'] + c + seq!['\n'] + b;
    assert(own_line(hex, comment, width, level) + b =~= a + r);
    lemma_uncommented_column(a, r);
    lemma_strip_concat(blanks(hi), pad(hex, hw));
    lemma_strip_blanks(hi);
    assert(strip(a) =~= strip(hex));
    assert(single_line(c)) by {
        assert forall|i: int| 0 <= i < c.len() implies #[trigger] c[i] != '\n' by {
            if i == 0 {
            } else if i < 1 + cap(2 * level as int) {
                assert(c[i] == blanks(cap(2 * level as int))[i - 1]);
            } else {
                assert(c[i] == comment[i - 1 - cap(2 * level as int)]);
            }
        }
    }
    assert(r[0] == ' ');
    assert(r.skip(1)[0] == '#');
    assert(r.skip(1).skip(1) =~= c + seq!['\n'] + b);
    lemma_uncommented_comment(c, b);
    assert(uncommented(r.skip(1), false) == uncommented(r.skip(1).skip(1), true));
    assert(uncommented(r, false) == uncommented(r.skip(1), false));
    assert(uncommented(r, false) == uncommented(b, false));
}

/// What is left of the text of a line and its nested lines once comments
/// are removed: the hex column without spaces.
pub proof fn lemma_uncommented_line(l: SpecLine, width: nat, level: nat, b: Seq<char>)
    requires
        column_line(l),
        comments_single_line(l),
    ensures
        uncommented(merged_line(l, width, level) + b, false) == strip(hex_column(l)) + uncommented(b, false),
    decreases l, 1nat,
{
    let rest = merged_lines(l.sublines, width, cap(level + 1 as int)) + b;
    assert(merged_line(l, width, level) + b =~= own_line(l.hex, l.comment, width, level) + rest);
    lemma_uncommented_own_line(l.hex, l.comment, width, level, rest);
    lemma_uncommented_lines(l.sublines, width, cap(level + 1 as int), b);
    lemma_strip_concat(l.hex, hex_columns(l.sublines));
    assert(strip(l.hex) + (strip(hex_columns(l.sublines)) + uncommented(b, false))
        =~= (strip(l.hex) + strip(hex_columns(l.sublines))) + uncommented(b, false));
}

/// What is left of the text of a sequence of lines once comments are
/// removed: their hex columns without spaces.
pub proof fn lemma_uncommented_lines(s: Seq<SpecLine>, width: nat, level: nat, b: Seq<char>)
    requires
        column_lines(s),
        comments_single_lines(s),
    ensures
        uncommented(merged_lines(s, width, level) + b, false) == strip(hex_columns(s)) + uncommented(b, false),
    decreases s, 0nat,
{
    if s.len() == 0 {
        assert(merged_lines(s, width, level) + b =~= b);
        assert(Seq::<char>::empty() + uncommented(b, false) =~= uncommented(b, false));
    } else {
        let last = merged_line(s.last(), width, level) + b;
        assert(merged_lines(s, width, level) + b =~= merged_lines(s.drop_last(), width, level) + last);
        lemma_uncommented_lines(s.drop_last(), width, level, last);
        lemma_uncommented_line(s.last(), width, level, b);
        lemma_strip_concat(hex_columns(s.drop_last()), hex_column(s.last()));
        assert(strip(hex_columns(s.drop_last())) + (strip(hex_column(s.last())) + uncommented(b, false))
            =~= (strip(hex_columns(s.drop_last())) + strip(hex_column(s.last()))) + uncommented(b, false));
    }
}

/// Annotated hex with its comments and spaces removed is its hex column
/// without spaces.
pub proof fn lemma_uncommented_merged(l: SpecLine)
    requires
        column_line(l),
        comments_single_line(l),
    ensures
        uncommented(merged(l), false) == strip(hex_column(l)),
{
    lemma_uncommented_line(l, crate::encode::hex::line_width(l), 0, Seq::empty());
    assert(merged(l) + Seq::<char>::empty() =~= merged(l));
    assert(strip(hex_column(l)) + Seq::<char>::empty() =~= strip(hex_column(l)));
}

/// Sixteen to the power `d`.
pub open spec fn pow16(d: nat) -> nat
    decreases d,
{
    if d == 0 { 1 } else { 16 * pow16((d - 1) as nat) }
}

/// The last `d` hexadecimal digits of `n`, most significant first.
pub open spec fn hexd(n: nat, d: nat) -> Seq<char>
    decreases d,
{
    if d == 0 {
        Seq::empty()
    } else {
        hexd(n / 16, (d - 1) as nat) + seq![hex_digit((n % 16) as u8)]
    }
}

/// Whether some text has no space.
pub open spec fn no_space(s: Seq<char>) -> bool {
    forall|i: int| 0 <= i < s.len() ==> #[trigger] s[i] != ' '
}

/// Removing spaces from text without any leaves it as it is.
pub proof fn lemma_strip_no_space(s: Seq<char>)
    requires
        no_space(s),
    ensures
        strip(s) == s,
    decreases s.len(),
{
    if s.len() > 0 {
        assert(no_space(s.skip(1))) by {
            assert forall|i: int| 0 <= i < s.skip(1).len() implies #[trigger] s.skip(1)[i] != ' ' by {
                assert(s.skip(1)[i] == s[i + 1]);
            }
        }
        lemma_strip_no_space(s.skip(1));
        assert(seq![s[0]] + s.skip(1) =~= s);
    }
}

/// Hex digits are digits or lowercase letters.
pub proof fn lemma_hex_digit(n: u8)
    requires
        n < 16,
    ensures
        is_column_char(hex_digit(n)),
        hex_digit(n) != ' ',
{
}

/// Digits of a number are digits or lowercase letters.
pub proof fn lemma_hexd_chars(n: nat, d: nat)
    ensures
        hexd(n, d).len() == d,
        column_chars(hexd(n, d)),
        no_space(hexd(n, d)),
    decreases d,
{
    if d > 0 {
        lemma_hexd_chars(n / 16, (d - 1) as nat);
        lemma_hex_digit((n % 16) as u8);
        let h = hexd(n, d);
        assert forall|i: int| 0 <= i < h.len() implies is_column_char(#[trigger] h[i]) && h[i] != ' ' by {
            if i < d - 1 {
                assert(h[i] == hexd(n / 16, (d - 1) as nat)[i]);
            }
        }
    }
}

/// The digits of zero are zeros.
proof fn lemma_hexd_zero(d: nat)
    ensures
        hexd(0, d) == Seq::new(d, |i: int| '0'),
    decreases d,
{
    if d > 0 {
        lemma_hexd_zero((d - 1) as nat);
        assert(hexd(0, d) =~= Seq::new(d, |i: int| '0'));
    }
}

proof fn lemma_hex_number_digits(n: nat, d: nat)
    requires
        d >= 1,
        n < pow16(d),
    ensures
        hex_digits(n).len() <= d,
        Seq::new((d - hex_digits(n).len()) as nat, |i: int| '0') + hex_digits(n) == hexd(n, d),
    decreases d,
{
    if n < 16 {
        lemma_hexd_zero((d - 1) as nat);
        assert(n / 16 == 0);
        assert(n % 16 == n);
        assert(Seq::new((d - 1) as nat, |i: int| '0') + seq![hex_digit(n as u8)] =~= hexd(n, d));
    } else {
        assert(d >= 2) by {
            if d < 2 {
                assert(pow16(d) == 16) by {
                    assert(pow16(0) == 1);
                }
            }
        }
        assert(n / 16 < pow16((d - 1) as nat)) by (nonlinear_arith)
            requires
                n < pow16(d),
                pow16(d) == 16 * pow16((d - 1) as nat),
        ;
        lemma_hex_number_digits(n / 16, (d - 1) as nat);
        let z = Seq::new((d - hex_digits(n).len()) as nat, |i: int| '0');
        assert(z + hex_digits(n) =~= (Seq::new(((d - 1) as nat - hex_digits(n / 16).len()) as nat, |i: int| '0')
            + hex_digits(n / 16)) + seq![hex_digit((n % 16) as u8)]);
    }
}

/// A number with at most `d` hex digits is shown with exactly `d`.
pub proof fn lemma_hex_number(n: nat, d: nat)
    requires
        d >= 1,
        n < pow16(d),
    ensures
        hex_number(n, d) == hexd(n, d),
{
    lemma_hex_number_digits(n, d);
    if hex_digits(n).len() >= d {
        assert(Seq::new((d - hex_digits(n).len()) as nat, |i: int| '0') =~= Seq::<char>::empty());
        assert(Seq::<char>::empty() + hex_digits(n) =~= hex_digits(n));
    }
}

/// The hex of two byte sequences one after the other.
pub proof fn lemma_hex_lower_concat(a: Seq<u8>, b: Seq<u8>)
    ensures
        hex_lower(a + b) == hex_lower(a) + hex_lower(b),
    decreases b.len(),
{
    if b.len() == 0 {
        assert(a + b =~= a);
        assert(hex_lower(a) + Seq::<char>::empty() =~= hex_lower(a));
    } else {
        assert((a + b).drop_last() =~= a + b.drop_last());
        assert((a + b).last() == b.last());
        lemma_hex_lower_concat(a, b.drop_last());
    }
}

/// The hex of the `k` least significant bytes of `v` is its last `2k` hex
/// digits.
pub proof fn lemma_hex_lower_be(v: u64, k: nat)
    requires
        k <= 8,
    ensures
        hex_lower(be_bytes(v, k)) == hexd(v as nat, 2 * k),
    decreases k,
{
    if k == 0 {
        assert(be_bytes(v, k) =~= Seq::<u8>::empty());
    } else {
        let b = be_bytes(v, k);
        let w = (v / 256) as u64;
        assert(b.drop_last() =~= be_bytes(w, (k - 1) as nat)) by {
            assert forall|i: int| 0 <= i < k - 1 implies #[trigger] b.drop_last()[i] == be_bytes(w, (k - 1) as nat)[i] by {
                let sh = (8 * (k - 2 - i)) as u64;
                assert(sh < 56);
                assert(((v >> (sh + 8)) as u8) == (((v / 256) as u64 >> sh) as u8)) by (bit_vector)
                    requires
                        sh < 56,
                ;
                assert((8 * (k - 1 - i)) as u64 == sh + 8);
            }
        }
        assert(b.last() == (v % 256) as u8) by {
            assert(((v >> 0u64) as u8) == (v % 256) as u8) by (bit_vector);
        }
        lemma_hex_lower_be(w, (k - 1) as nat);
        let n = v as nat;
        assert((n / 16) / 16 == n / 256);
        assert(((v % 256) as u8) / 16 == (n / 16) % 16);
        assert(((v % 256) as u8) % 16 == n % 16);
        assert(hexd(n, 2 * k) == hexd(n / 16, (2 * k - 1) as nat) + seq![hex_digit((n % 16) as u8)]);
        assert(hexd(n / 16, (2 * k - 1) as nat) == hexd(n / 256, (2 * k - 2) as nat) + seq![hex_digit(((n / 16) % 16) as u8)]);
        assert(hexd(n, 2 * k) =~= hex_lower(b.drop_last()) + seq![hex_digit(b.last() / 16), hex_digit(b.last() % 16)]);
    }
}

/// The hex of a single byte is its two hex digits.
pub proof fn lemma_hex_lower_byte(x: u8)
    ensures
        hex_lower(seq![x]) == hexd(x as nat, 2),
{
    let n = x as nat;
    assert(seq![x].drop_last() =~= Seq::<u8>::empty());
    assert(n / 16 < 16 && (n / 16) / 16 == 0 && (n / 16) % 16 == n / 16) by (nonlinear_arith)
        requires
            n < 256,
    ;
    assert(((n / 16) % 16) as u8 == x / 16);
    assert((n % 16) as u8 == x % 16);
    assert(hexd((n / 16) / 16, 0) =~= Seq::<char>::empty());
    assert(hexd(n / 16, 1) =~= seq![hex_digit(((n / 16) % 16) as u8)]);
    assert(hexd(n, 2) =~= seq![hex_digit(x / 16), hex_digit(x % 16)]);
    assert(hex_lower(Seq::<u8>::empty()) == Seq::<char>::empty());
    assert(seq![x].last() == x);
    assert(hex_lower(seq![x]) =~= Seq::<char>::empty() + seq![hex_digit(x / 16), hex_digit(x % 16)]);
}

/// The first byte of a head, as a number.
pub proof fn lemma_initial_byte(m: u8, a: u8)
    requires
        m < 8,
        a < 32,
    ensures
        initial_byte(m, a) as nat == m * 32 + a,
{
    assert(((m << 5u8) | a) as u8 == m * 32 + a) by (bit_vector)
        requires
            m < 8,
            a < 32,
    ;
}

/// The hex of a head, without its space, is the hex of its bytes.
pub proof fn lemma_head_hex(m: u8, v: u64, w: IntegerWidth)
    requires
        m < 8,
        w != IntegerWidth::Unknown,
        fits(v, w),
    ensures
        column_chars(head_hex(m as nat, v as nat, w)),
        strip(head_hex(m as nat, v as nat, w)) == hex_lower(header_bytes(m, v, w)),
{
    assert(pow16(2) == 256) by {
        assert(pow16(0) == 1);
        assert(pow16(1) == 16);
    }
    assert(pow16(4) == 0x1_0000) by {
        assert(pow16(3) == 16 * pow16(2));
    }
    assert(pow16(8) == 0x1_0000_0000) by {
        assert(pow16(5) == 16 * pow16(4));
        assert(pow16(6) == 16 * pow16(5));
        assert(pow16(7) == 16 * pow16(6));
    }
    assert(pow16(16) == 0x1_0000_0000_0000_0000) by {
        assert(pow16(9) == 16 * pow16(8));
        assert(pow16(10) == 16 * pow16(9));
        assert(pow16(11) == 16 * pow16(10));
        assert(pow16(12) == 16 * pow16(11));
        assert(pow16(13) == 16 * pow16(12));
        assert(pow16(14) == 16 * pow16(13));
        assert(pow16(15) == 16 * pow16(14));
    }
    assert(resolved_width(v, w) == w);
    if w == IntegerWidth::Zero {
        lemma_initial_byte(m, v as u8);
        lemma_hex_number((m * 32 + v) as nat, 2);
        lemma_hex_lower_byte(initial_byte(m, v as u8));
        lemma_hexd_chars((m * 32 + v) as nat, 2);
        lemma_strip_no_space(hexd((m * 32 + v) as nat, 2));
    } else if w == IntegerWidth::Eight {
        lemma_wide_head(m, v, w, 24, 1);
    } else if w == IntegerWidth::Sixteen {
        lemma_wide_head(m, v, w, 25, 2);
    } else if w == IntegerWidth::ThirtyTwo {
        lemma_wide_head(m, v, w, 26, 4);
    } else {
        lemma_wide_head(m, v, w, 27, 8);
    }
}

proof fn lemma_wide_head(m: u8, v: u64, w: IntegerWidth, a: u8, k: nat)
    requires
        m < 8,
        24 <= a < 28,
        k == 1 || k == 2 || k == 4 || k == 8,
        v < pow16(2 * k),
        pow16(2) == 256,
        head_hex(m as nat, v as nat, w) == hex_number((m * 32 + a) as nat, 2) + seq![' '] + hex_number(v as nat, 2 * k),
        header_bytes(m, v, w) == seq![initial_byte(m, a)] + be_bytes(v, k),
    ensures
        column_chars(head_hex(m as nat, v as nat, w)),
        strip(head_hex(m as nat, v as nat, w)) == hex_lower(header_bytes(m, v, w)),
{
    lemma_initial_byte(m, a);
    lemma_hex_number((m * 32 + a) as nat, 2);
    lemma_hex_number(v as nat, 2 * k);
    lemma_hex_lower_byte(initial_byte(m, a));
    lemma_hex_lower_be(v, k);
    lemma_hex_lower_concat(seq![initial_byte(m, a)], be_bytes(v, k));
    lemma_hexd_chars((m * 32 + a) as nat, 2);
    lemma_hexd_chars(v as nat, 2 * k);
    let h = hexd((m * 32 + a) as nat, 2);
    let d = hexd(v as nat, 2 * k);
    assert(head_hex(m as nat, v as nat, w) == h + seq![' '] + d);
    lemma_strip_concat(h + seq![' '], d);
    lemma_strip_concat(h, seq![' ']);
    lemma_strip_no_space(h);
    lemma_strip_no_space(d);
    assert(strip(seq![' ']) =~= Seq::<char>::empty()) by {
        assert(seq![' '].skip(1) =~= Seq::<char>::empty());
        assert(strip(Seq::<char>::empty()) == Seq::<char>::empty());
    }
    assert(h + Seq::<char>::empty() =~= h);
    assert forall|i: int| 0 <= i < (h + seq![' '] + d).len() implies is_column_char(#[trigger] (h + seq![' '] + d)[i]) by {
        if i < 2 {
            assert((h + seq![' '] + d)[i] == h[i]);
        } else if i > 2 {
            assert((h + seq![' '] + d)[i] == d[i - 3]);
        }
    }
}

/// The width a length or tag number is shown with in annotated hex: the
/// one given, or the one annotated hex picks for it.
pub open spec fn shown_count(n: nat, w: IntegerWidth) -> IntegerWidth {
    if w == IntegerWidth::Unknown { count_width(n) } else { w }
}

/// The width an integer is shown with in annotated hex.
pub open spec fn shown_value(v: u64, w: IntegerWidth) -> IntegerWidth {
    if w == IntegerWidth::Unknown { value_width(v) } else { w }
}

/// The width a float is shown with in annotated hex.
pub open spec fn shown_float(w: FloatWidth) -> FloatWidth {
    if w == FloatWidth::Unknown { FloatWidth::SixtyFour } else { w }
}

/// A byte string with the width its length is shown with.
pub open spec fn annotated_bytes(b: SpecBytes) -> SpecBytes {
    SpecBytes { data: b.data, bitwidth: shown_count(b.data.len(), b.bitwidth) }
}

/// A text string with the width its length is shown with.
pub open spec fn annotated_text(t: SpecText) -> SpecText {
    SpecText { data: t.data, bitwidth: shown_count(encode_utf8(t.data).len(), t.bitwidth) }
}

/// A data item with every width replaced by the one annotated hex shows.
pub open spec fn annotated(x: SpecItem) -> SpecItem
    decreases x,
{
    match x {
        SpecItem::Integer { value, bitwidth } => SpecItem::Integer { value, bitwidth: shown_value(value, bitwidth) },
        SpecItem::Negative { value, bitwidth } => SpecItem::Negative { value, bitwidth: shown_value(value, bitwidth) },
        SpecItem::ByteString(b) => SpecItem::ByteString(annotated_bytes(b)),
        SpecItem::TextString(t) => SpecItem::TextString(annotated_text(t)),
        SpecItem::IndefiniteByteString(s) => SpecItem::IndefiniteByteString(s.map_values(|b: SpecBytes| annotated_bytes(b))),
        SpecItem::IndefiniteTextString(s) => SpecItem::IndefiniteTextString(s.map_values(|t: SpecText| annotated_text(t))),
        SpecItem::Array { data, bitwidth } => SpecItem::Array {
            data: Seq::new(data.len(), |i: int| if 0 <= i < data.len() { annotated(data[i]) } else { SpecItem::Simple(0) }),
            bitwidth: match bitwidth {
                Some(w) => Some(shown_count(data.len(), w)),
                None => None,
            },
        },
        SpecItem::Mapping { data, bitwidth } => SpecItem::Mapping {
            data: Seq::new(data.len(), |i: int| if 0 <= i < data.len() {
                (annotated(data[i].0), annotated(data[i].1))
            } else {
                (SpecItem::Simple(0), SpecItem::Simple(0))
            }),
            bitwidth: match bitwidth {
                Some(w) => Some(shown_count(data.len(), w)),
                None => None,
            },
        },
        SpecItem::Tag { tag, bitwidth, value } => SpecItem::Tag {
            tag,
            bitwidth: shown_count(tag as nat, bitwidth),
            value: Box::new(annotated(*value)),
        },
        SpecItem::Float { value, bitwidth } => SpecItem::Float { value, bitwidth: shown_float(bitwidth) },
        SpecItem::Simple(v) => SpecItem::Simple(v),
    }
}

/// Texts one after the other.
pub open spec fn concat_all(hs: Seq<Seq<char>>) -> Seq<char>
    decreases hs.len(),
{
    if hs.len() == 0 {
        Seq::empty()
    } else {
        concat_all(hs.drop_last()) + hs.last()
    }
}

/// Texts one after the other, the first taken off the front.
pub proof fn lemma_concat_all_front(h: Seq<char>, hs: Seq<Seq<char>>)
    ensures
        concat_all(seq![h] + hs) == h + concat_all(hs),
    decreases hs.len(),
{
    assert(concat_all(Seq::<Seq<char>>::empty()) == Seq::<char>::empty());
    if hs.len() == 0 {
        assert(seq![h] + hs =~= seq![h]);
        assert(seq![h].drop_last() =~= Seq::<Seq<char>>::empty());
        assert(seq![h].last() == h);
        assert(Seq::<char>::empty() + h =~= h + Seq::<char>::empty());
    } else {
        assert((seq![h] + hs).drop_last() =~= seq![h] + hs.drop_last());
        assert((seq![h] + hs).last() == hs.last());
        lemma_concat_all_front(h, hs.drop_last());
        assert(h + concat_all(hs.drop_last()) + hs.last() =~= h + (concat_all(hs.drop_last()) + hs.last()));
    }
}

/// The hex columns of two sequences of lines one after the other.
pub proof fn lemma_columns_concat(a: Seq<SpecLine>, b: Seq<SpecLine>)
    ensures
        hex_columns(a + b) == hex_columns(a) + hex_columns(b),
        column_lines(a + b) == (column_lines(a) && column_lines(b)),
    decreases b.len(),
{
    if b.len() == 0 {
        assert(a + b =~= a);
        assert(hex_columns(a) + Seq::<char>::empty() =~= hex_columns(a));
    } else {
        assert((a + b).drop_last() =~= a + b.drop_last());
        assert((a + b).last() == b.last());
        lemma_columns_concat(a, b.drop_last());
        assert(hex_columns(a) + hex_columns(b.drop_last()) + hex_column(b.last())
            =~= hex_columns(a) + (hex_columns(b.drop_last()) + hex_column(b.last())));
    }
}

/// Lines without nested lines, each with its hex.
pub proof fn lemma_leaf_columns(s: Seq<SpecLine>, hs: Seq<Seq<char>>)
    requires
        s.len() == hs.len(),
        forall|j: int| 0 <= j < s.len() ==> (#[trigger] s[j]).hex == hs[j] && s[j].sublines.len() == 0 && column_chars(hs[j]),
    ensures
        hex_columns(s) == concat_all(hs),
        column_lines(s),
    decreases s.len(),
{
    if s.len() > 0 {
        assert forall|j: int| 0 <= j < s.drop_last().len() implies (#[trigger] s.drop_last()[j]).hex == hs.drop_last()[j]
            && s.drop_last()[j].sublines.len() == 0 && column_chars(hs.drop_last()[j]) by {
            assert(s.drop_last()[j] == s[j]);
        }
        lemma_leaf_columns(s.drop_last(), hs.drop_last());
        let l = s.last();
        assert(s[s.len() - 1] == l);
        assert(column_chars(hs.last()));
        assert(l.sublines =~= Seq::<SpecLine>::empty());
        assert(hex_columns(l.sublines) == Seq::<char>::empty());
        assert(column_lines(l.sublines));
        assert(column_line(l));
        assert(hex_column(l) =~= hs.last());
    }
}

/// A line with no hex, whose nested lines have no hex and nothing nested.
pub open spec fn annotation_line(l: SpecLine) -> bool {
    l.hex.len() == 0 && forall|j: int| 0 <= j < l.sublines.len() ==> (#[trigger] l.sublines[j]).hex.len() == 0
        && l.sublines[j].sublines.len() == 0
}

/// Annotation lines add nothing to the hex column.
pub proof fn lemma_annotation_lines(s: Seq<SpecLine>)
    requires
        forall|j: int| 0 <= j < s.len() ==> annotation_line(#[trigger] s[j]),
    ensures
        hex_columns(s) == Seq::<char>::empty(),
        column_lines(s),
    decreases s.len(),
{
    if s.len() > 0 {
        assert forall|j: int| 0 <= j < s.drop_last().len() implies annotation_line(#[trigger] s.drop_last()[j]) by {
            assert(s.drop_last()[j] == s[j]);
        }
        lemma_annotation_lines(s.drop_last());
        let l = s.last();
        assert(s[s.len() - 1] == l);
        assert(annotation_line(l));
        let empties = Seq::new(l.sublines.len(), |j: int| Seq::<char>::empty());
        assert forall|j: int| 0 <= j < l.sublines.len() implies (#[trigger] l.sublines[j]).hex == empties[j]
            && l.sublines[j].sublines.len() == 0 && column_chars(empties[j]) by {
            assert(l.sublines[j].hex =~= Seq::<char>::empty());
        }
        lemma_leaf_columns(l.sublines, empties);
        lemma_concat_empties(l.sublines.len());
        assert(l.hex =~= Seq::<char>::empty());
        assert(column_chars(l.hex));
        assert(column_line(l));
        assert(hex_column(l) =~= Seq::<char>::empty());
        assert(Seq::<char>::empty() + Seq::<char>::empty() =~= Seq::<char>::empty());
    }
}

proof fn lemma_concat_empties(n: nat)
    ensures
        concat_all(Seq::new(n, |j: int| Seq::<char>::empty())) == Seq::<char>::empty(),
    decreases n,
{
    if n > 0 {
        assert(Seq::new(n, |j: int| Seq::<char>::empty()).drop_last() =~= Seq::new((n - 1) as nat, |j: int| Seq::<char>::empty()));
        lemma_concat_empties((n - 1) as nat);
        assert(Seq::<char>::empty() + Seq::<char>::empty() =~= Seq::<char>::empty());
    }
}

/// Hex text is made of hex digits.
pub proof fn lemma_hex_lower_chars(b: Seq<u8>)
    ensures
        column_chars(hex_lower(b)),
        no_space(hex_lower(b)),
        hex_lower(b).len() == 2 * b.len(),
    decreases b.len(),
{
    if b.len() > 0 {
        lemma_hex_lower_chars(b.drop_last());
        lemma_hex_digit(b.last() / 16);
        lemma_hex_digit(b.last() % 16);
        let h = hex_lower(b);
        let p = hex_lower(b.drop_last());
        assert forall|i: int| 0 <= i < h.len() implies is_column_char(#[trigger] h[i]) && h[i] != ' ' by {
            if i < p.len() {
                assert(h[i] == p[i]);
            }
        }
    }
}

/// The hex of the chunks of a byte string, one after the other, up to
/// chunk `k`.
proof fn lemma_chunks_hex(data: Seq<u8>, k: nat)
    requires
        k <= chunk16_count(data),
    ensures
        concat_all(Seq::new(chunk16_count(data), |i: int| hex_lower(chunk16(data, i))).take(k as int))
            == hex_lower(data.take(if 16 * k <= data.len() { 16 * k as int } else { data.len() as int })),
    decreases k,
{
    let hs = Seq::new(chunk16_count(data), |i: int| hex_lower(chunk16(data, i)));
    if k == 0 {
        assert(hs.take(0) =~= Seq::<Seq<char>>::empty());
        assert(data.take(0) =~= Seq::<u8>::empty());
    } else {
        let j = (k - 1) as nat;
        lemma_chunks_hex(data, j);
        assert(16 * j < data.len()) by (nonlinear_arith)
            requires
                j < chunk16_count(data),
                chunk16_count(data) == (data.len() + 15) / 16,
        ;
        assert(hs.take(k as int).drop_last() =~= hs.take(j as int));
        let end = if 16 * k <= data.len() { 16 * k as int } else { data.len() as int };
        assert(data.take(end) =~= data.take(16 * j as int) + chunk16(data, j as int));
        lemma_hex_lower_concat(data.take(16 * j as int), chunk16(data, j as int));
    }
}

/// The data lines of a byte string show its bytes.
proof fn lemma_bytes_lines(encoding: Option<crate::encode::Encoding>, data: Seq<u8>)
    ensures
        hex_columns(bytes_lines(encoding, data)) == hex_lower(data),
        column_lines(bytes_lines(encoding, data)),
{
    let s = bytes_lines(encoding, data);
    let hs = Seq::new(chunk16_count(data), |i: int| hex_lower(chunk16(data, i)));
    assert forall|j: int| 0 <= j < s.len() implies (#[trigger] s[j]).hex == hs[j] && s[j].sublines.len() == 0 && column_chars(hs[j]) by {
        lemma_hex_lower_chars(chunk16(data, j));
    }
    lemma_leaf_columns(s, hs);
    lemma_chunks_hex(data, chunk16_count(data));
    assert(hs.take(chunk16_count(data) as int) =~= hs);
    assert(16 * chunk16_count(data) >= data.len()) by (nonlinear_arith)
        requires
            chunk16_count(data) == (data.len() + 15) / 16,
    ;
    assert(data.take(data.len() as int) =~= data);
}

/// The hex of the head of a string, array or map, without its space, is
/// the hex of its bytes with the width annotated hex shows.
pub proof fn lemma_length_hex(len: nat, bitwidth: Option<IntegerWidth>, m: u8)
    requires
        m < 8,
        len <= u64::MAX,
        bitwidth matches Some(w) ==> fits(len as u64, w),
    ensures
        column_chars(length_hex(len, bitwidth, m)),
        strip(length_hex(len, bitwidth, m)) == hex_lower(match bitwidth {
            Some(w) => header_bytes(m, len as u64, shown_count(len, w)),
            None => seq![initial_byte(m, 31)],
        }),
{
    assert(pow16(2) == 256) by {
        assert(pow16(0) == 1);
        assert(pow16(1) == 16);
    }
    match bitwidth {
        None => {
            lemma_initial_byte(m, 31);
            lemma_hex_number((m * 32 + 31) as nat, 2);
            lemma_hex_lower_byte(initial_byte(m, 31));
            lemma_hexd_chars((m * 32 + 31) as nat, 2);
            lemma_strip_no_space(hexd((m * 32 + 31) as nat, 2));
        },
        Some(w) => {
            let w2 = shown_count(len, w);
            assert(fits(len as u64, w2));
            if w2 == IntegerWidth::Zero {
                assert(len < 24);
                assert(((len % 256) + m * 32) % 256 == m * 32 + len);
                lemma_head_hex(m, len as u64, IntegerWidth::Zero);
                assert(head_hex(m as nat, len, IntegerWidth::Zero) == hex_number(((len % 256) + m as nat * 32) % 256, 2));
            } else {
                lemma_head_hex(m, len as u64, w2);
            }
        },
    }
}

/// The line of a byte string and its data lines show its encoding.
pub proof fn lemma_bytestring_line(encoding: Option<crate::encode::Encoding>, b: SpecBytes)
    requires
        bytes_encodable(b),
    ensures
        column_line(bytestring_line(encoding, b)),
        strip(hex_column(bytestring_line(encoding, b))) == hex_lower(bytestring_bytes(annotated_bytes(b))),
{
    let l = bytestring_line(encoding, b);
    let len = b.data.len();
    lemma_length_hex(len, Some(b.bitwidth), 2);
    assert(l.hex == length_hex(len, Some(b.bitwidth), 2));
    let head = header_bytes(2, len as u64, shown_count(len, b.bitwidth));
    if len == 0 {
        assert(l.sublines == seq![empty_string_line()]);
        assert(seq![empty_string_line()].drop_last() =~= Seq::<SpecLine>::empty());
        assert(empty_string_line().sublines =~= Seq::<SpecLine>::empty());
        assert(hex_column(empty_string_line()) =~= Seq::<char>::empty());
        assert(column_line(empty_string_line()));
        assert(column_lines(l.sublines));
        assert(hex_columns(l.sublines) =~= Seq::<char>::empty());
        assert(b.data =~= Seq::<u8>::empty());
        lemma_hex_lower_concat(head, b.data);
        assert(hex_lower(b.data) =~= Seq::<char>::empty());
    } else {
        lemma_bytes_lines(encoding, b.data);
        lemma_hex_lower_chars(b.data);
        lemma_hex_lower_concat(head, b.data);
    }
    assert(hex_column(l) == length_hex(len, Some(b.bitwidth), 2) + hex_columns(l.sublines));
    lemma_strip_concat(length_hex(len, Some(b.bitwidth), 2), hex_columns(l.sublines));
    lemma_hex_lower_chars(b.data);
    lemma_strip_no_space(hex_columns(l.sublines));
}

/// The UTF-8 encoding of two texts one after the other.
pub proof fn lemma_encode_utf8_concat(a: Seq<char>, b: Seq<char>)
    ensures
        encode_utf8(a + b) == encode_utf8(a) + encode_utf8(b),
    decreases a.len(),
{
    if a.len() == 0 {
        assert(a + b =~= b);
        assert(encode_utf8(a) =~= Seq::<u8>::empty());
        assert(Seq::<u8>::empty() + encode_utf8(b) =~= encode_utf8(b));
    } else {
        assert((a + b)[0] == a[0]);
        assert((a + b).drop_first() =~= a.drop_first() + b);
        lemma_encode_utf8_concat(a.drop_first(), b);
        assert(vstd::utf8::encode_scalar(a[0] as u32) + (encode_utf8(a.drop_first()) + encode_utf8(b))
            =~= (vstd::utf8::encode_scalar(a[0] as u32) + encode_utf8(a.drop_first())) + encode_utf8(b));
    }
}

/// The hex of the UTF-8 encoding of a piece of text.
pub open spec fn chunk_hex(c: Seq<char>) -> Seq<char> {
    hex_lower(encode_utf8(c))
}

/// The hex of pieces of text one after the other.
pub open spec fn chunks_hex(cs: Seq<Seq<char>>) -> Seq<char>
    decreases cs.len(),
{
    if cs.len() == 0 {
        Seq::empty()
    } else {
        chunk_hex(cs[0]) + chunks_hex(cs.skip(1))
    }
}

proof fn lemma_concat_chunks(cs: Seq<Seq<char>>)
    ensures
        concat_all(Seq::new(cs.len(), |j: int| chunk_hex(cs[j]))) == chunks_hex(cs),
    decreases cs.len(),
{
    let hs = Seq::new(cs.len(), |j: int| chunk_hex(cs[j]));
    if cs.len() == 0 {
        assert(hs =~= Seq::<Seq<char>>::empty());
    } else {
        let rest = Seq::new(cs.skip(1).len(), |j: int| chunk_hex(cs.skip(1)[j]));
        assert(hs =~= seq![chunk_hex(cs[0])] + rest);
        lemma_concat_all_front(chunk_hex(cs[0]), rest);
        lemma_concat_chunks(cs.skip(1));
    }
}

/// The pieces a text string is cut into show its UTF-8 encoding.
proof fn lemma_text_chunks_hex(c: Seq<char>)
    ensures
        chunks_hex(text_chunks(c)) == chunk_hex(c),
    decreases c.len(),
{
    assert(chunks_hex(Seq::<Seq<char>>::empty()) == Seq::<char>::empty());
    if c.len() == 0 {
        assert(text_chunks(c) =~= Seq::<Seq<char>>::empty());
        assert(encode_utf8(c) =~= Seq::<u8>::empty());
        assert(hex_lower(Seq::<u8>::empty()) == Seq::<char>::empty());
    } else {
        let k = crate::encode::hex::fit(c, 16);
        let cs = text_chunks(c);
        if 0 < k <= c.len() {
            let a = c.take(k as int);
            let b = c.skip(k as int);
            assert(cs == seq![a] + text_chunks(b));
            assert(cs[0] == a);
            assert(cs.skip(1) =~= text_chunks(b));
            lemma_text_chunks_hex(b);
            assert(c =~= a + b);
            lemma_encode_utf8_concat(a, b);
            lemma_hex_lower_concat(encode_utf8(a), encode_utf8(b));
            assert(chunks_hex(cs) == chunk_hex(a) + chunks_hex(text_chunks(b)));
            assert(chunks_hex(cs) == chunk_hex(a) + chunk_hex(b));
            assert(chunk_hex(c) == hex_lower(encode_utf8(a) + encode_utf8(b)));
        } else {
            assert(cs == seq![c]);
            assert(cs.skip(1) =~= Seq::<Seq<char>>::empty());
            assert(chunks_hex(cs) == chunk_hex(c) + chunks_hex(cs.skip(1)));
            assert(chunk_hex(c) + Seq::<char>::empty() =~= chunk_hex(c));
        }
    }
}

/// The line of a text string and its data lines show its encoding.
pub proof fn lemma_textstring_line(t: SpecText)
    requires
        text_encodable(t),
    ensures
        column_line(textstring_line(t)),
        strip(hex_column(textstring_line(t))) == hex_lower(textstring_bytes(annotated_text(t))),
{
    let l = textstring_line(t);
    let n = encode_utf8(t.data).len();
    lemma_length_hex(n, Some(t.bitwidth), 3);
    assert(l.hex == length_hex(n, Some(t.bitwidth), 3));
    let head = header_bytes(3, n as u64, shown_count(n, t.bitwidth));
    let data = encode_utf8(t.data);
    if t.data.len() == 0 {
        assert(l.sublines == seq![empty_string_line()]);
        assert(seq![empty_string_line()].drop_last() =~= Seq::<SpecLine>::empty());
        assert(empty_string_line().sublines =~= Seq::<SpecLine>::empty());
        assert(hex_column(empty_string_line()) =~= Seq::<char>::empty());
        assert(column_line(empty_string_line()));
        assert(column_lines(l.sublines));
        assert(hex_columns(l.sublines) =~= Seq::<char>::empty());
        assert(data =~= Seq::<u8>::empty());
        assert(hex_lower(data) =~= Seq::<char>::empty());
    } else {
        let cs = if n <= 24 { seq![t.data] } else { text_chunks(t.data) };
        assert(l.sublines.len() == cs.len());
        assert forall|j: int| 0 <= j < l.sublines.len() implies (#[trigger] l.sublines[j]).hex == Seq::new(cs.len(), |i: int| chunk_hex(cs[i]))[j]
            && l.sublines[j].sublines.len() == 0 && column_chars(Seq::new(cs.len(), |i: int| chunk_hex(cs[i]))[j]) by {
            assert(l.sublines[j] == text_chunk_line(cs[j]));
            lemma_hex_lower_chars(encode_utf8(cs[j]));
        }
        lemma_leaf_columns(l.sublines, Seq::new(cs.len(), |i: int| chunk_hex(cs[i])));
        lemma_concat_chunks(cs);
        if n <= 24 {
            assert(cs.skip(1) =~= Seq::<Seq<char>>::empty());
            assert(chunks_hex(Seq::<Seq<char>>::empty()) == Seq::<char>::empty());
            assert(chunks_hex(cs) == chunk_hex(cs[0]) + chunks_hex(cs.skip(1)));
            assert(chunks_hex(cs) =~= chunk_hex(t.data));
        } else {
            lemma_text_chunks_hex(t.data);
        }
    }
    lemma_hex_lower_chars(data);
    lemma_hex_lower_concat(head, data);
    assert(hex_column(l) == length_hex(n, Some(t.bitwidth), 3) + hex_columns(l.sublines));
    lemma_strip_concat(length_hex(n, Some(t.bitwidth), 3), hex_columns(l.sublines));
    lemma_strip_no_space(hex_columns(l.sublines));
}

/// The two hex digits of a number below 256.
pub proof fn lemma_hexd_two(n: nat)
    requires
        n < 256,
    ensures
        hexd(n, 2) == seq![hex_digit((n / 16) as u8), hex_digit((n % 16) as u8)],
{
    assert(n / 16 < 16 && (n / 16) / 16 == 0 && (n / 16) % 16 == n / 16) by (nonlinear_arith)
        requires
            n < 256,
    ;
    assert(hexd((n / 16) / 16, 0) =~= Seq::<char>::empty());
    assert(hexd(n / 16, 1) =~= seq![hex_digit(((n / 16) % 16) as u8)]);
    assert(hexd(n, 2) =~= seq![hex_digit((n / 16) as u8), hex_digit((n % 16) as u8)]);
}

/// The line of a float shows its encoding.
pub proof fn lemma_float_line(value: u64, w: FloatWidth, ft: FloatTexts)
    requires
        float_fits(value, w),
    ensures
        column_line(float_line(value, w, ft)),
        strip(hex_column(float_line(value, w, ft))) == hex_lower(float_bytes(value, shown_float(w))),
{
    let l = float_line(value, w, ft);
    reveal_strlit("f9 ");
    reveal_strlit("fa ");
    reveal_strlit("fb ");
    assert(pow16(4) == 0x1_0000 && pow16(8) == 0x1_0000_0000 && pow16(16) == 0x1_0000_0000_0000_0000) by {
        assert(pow16(0) == 1);
        assert(pow16(1) == 16);
        assert(pow16(2) == 256);
        assert(pow16(3) == 16 * pow16(2));
        assert(pow16(4) == 16 * pow16(3));
        assert(pow16(5) == 16 * pow16(4));
        assert(pow16(6) == 16 * pow16(5));
        assert(pow16(7) == 16 * pow16(6));
        assert(pow16(8) == 16 * pow16(7));
        assert(pow16(9) == 16 * pow16(8));
        assert(pow16(10) == 16 * pow16(9));
        assert(pow16(11) == 16 * pow16(10));
        assert(pow16(12) == 16 * pow16(11));
        assert(pow16(13) == 16 * pow16(12));
        assert(pow16(14) == 16 * pow16(13));
        assert(pow16(15) == 16 * pow16(14));
    }
    let (first, k): (u8, nat) = match w {
        FloatWidth::Sixteen => (0xf9u8, 2nat),
        FloatWidth::ThirtyTwo => (0xfau8, 4nat),
        _ => (0xfbu8, 8nat),
    };
    assert(float_bytes(value, shown_float(w)) == seq![first] + be_bytes(value, k));
    let digits = hexd(value as nat, 2 * k);
    let pre = hexd(first as nat, 2);
    assert(l.hex == pre + seq![' '] + hex_number(value as nat, 2 * k)) by {
        lemma_hexd_two(first as nat);
        assert(hex_digit(15) == 'f' && hex_digit(9) == '9' && hex_digit(10) == 'a' && hex_digit(11) == 'b');
        if w == FloatWidth::Sixteen {
            assert(value % 0x1_0000 == value);
            assert("f9 "@ =~= pre + seq![' ']);
        } else if w == FloatWidth::ThirtyTwo {
            assert(value % 0x1_0000_0000 == value);
            assert("fa "@ =~= pre + seq![' ']);
        } else {
            assert("fb "@ =~= pre + seq![' ']);
        }
    }
    lemma_hex_number(value as nat, 2 * k);
    lemma_hexd_chars(value as nat, 2 * k);
    lemma_hexd_chars(first as nat, 2);
    lemma_hex_lower_byte(first);
    lemma_hex_lower_be(value, k);
    lemma_hex_lower_concat(seq![first], be_bytes(value, k));
    lemma_strip_concat(pre + seq![' '], digits);
    lemma_strip_concat(pre, seq![' ']);
    lemma_strip_no_space(pre);
    lemma_strip_no_space(digits);
    assert(strip(seq![' ']) =~= Seq::<char>::empty()) by {
        assert(seq![' '].skip(1) =~= Seq::<char>::empty());
        assert(strip(Seq::<char>::empty()) == Seq::<char>::empty());
    }
    assert(pre + Seq::<char>::empty() =~= pre);
    assert forall|i: int| 0 <= i < (pre + seq![' '] + digits).len() implies is_column_char(#[trigger] (pre + seq![' '] + digits)[i]) by {
        if i < 2 {
            assert((pre + seq![' '] + digits)[i] == pre[i]);
        } else if i > 2 {
            assert((pre + seq![' '] + digits)[i] == digits[i - 3]);
        }
    }
    assert(l.sublines =~= Seq::<SpecLine>::empty());
    assert(hex_column(l) =~= l.hex);
}


/// The line of a simple value shows its encoding.
pub proof fn lemma_simple_line(v: u8)
    ensures
        column_line(simple_line(v)),
        strip(hex_column(simple_line(v))) == hex_lower(header_bytes(7, v as u64, IntegerWidth::Unknown)),
{
    let l = simple_line(v);
    assert(l.sublines =~= Seq::<SpecLine>::empty());
    assert(hex_column(l) =~= l.hex);
    if v < 24 {
        lemma_head_hex(7, v as u64, IntegerWidth::Zero);
        assert(head_hex(7, v as nat, IntegerWidth::Zero) == l.hex);
    } else {
        reveal_strlit("f8 ");
        lemma_head_hex(7, v as u64, IntegerWidth::Eight);
        assert(pow16(2) == 256) by {
            assert(pow16(0) == 1);
            assert(pow16(1) == 16);
        }
        lemma_hex_number(248, 2);
        lemma_hexd_two(248);
        assert(hex_digit(15) == 'f' && hex_digit(8) == '8');
        assert(head_hex(7, v as nat, IntegerWidth::Eight) =~= l.hex);
    }
}

/// The line of an integer shows its encoding with the width it shows.
pub proof fn lemma_integer_line(m: u8, value: u64, w: IntegerWidth)
    requires
        m == 0 || m == 1,
        fits(value, w),
    ensures
        column_line(if m == 0 { integer_line(value, w) } else { negative_line(value, w) }),
        strip(hex_column(if m == 0 { integer_line(value, w) } else { negative_line(value, w) }))
            == hex_lower(header_bytes(m, value, shown_value(value, w))),
{
    let l = if m == 0 { integer_line(value, w) } else { negative_line(value, w) };
    assert(l.sublines =~= Seq::<SpecLine>::empty());
    assert(hex_column(l) =~= l.hex);
    lemma_head_hex(m, value, shown_value(value, w));
}

/// The line that ends an indefinite length item shows its byte.
pub proof fn lemma_break_line()
    ensures
        column_line(break_line()),
        hex_column(break_line()) == hex_lower(seq![0xffu8]),
        no_space(hex_column(break_line())),
{
    let l = break_line();
    assert(l.sublines =~= Seq::<SpecLine>::empty());
    assert(hex_column(l) =~= l.hex);
    lemma_hex_lower_byte(0xff);
    lemma_hexd_two(255);
    assert(hex_digit(15) == 'f');
    assert(l.hex =~= seq!['f', 'f']);
}

/// The head of a tagged item shows its encoding with the width it shows.
pub proof fn lemma_tag_hex(tag: u64, w: IntegerWidth)
    requires
        fits(tag, w),
    ensures
        column_chars(tag_hex(tag, w)),
        strip(tag_hex(tag, w)) == hex_lower(header_bytes(6, tag, shown_count(tag as nat, w))),
{
    let w2 = shown_count(tag as nat, w);
    assert(fits(tag, w2));
    if w2 == IntegerWidth::Zero {
        assert((0xc0u64 | tag) == 192 + tag) by (bit_vector)
            requires
                tag < 24,
        ;
        lemma_head_hex(6, tag, IntegerWidth::Zero);
    } else {
        lemma_head_hex(6, tag, w2);
    }
}

/// The lines of the chunks of an indefinite length byte string show them.
proof fn lemma_bytestring_chunks(encoding: Option<crate::encode::Encoding>, s: Seq<SpecBytes>, a: Seq<SpecBytes>, ls: Seq<SpecLine>)
    requires
        ls.len() == s.len(),
        a.len() == s.len(),
        forall|j: int| 0 <= j < s.len() ==> #[trigger] ls[j] == bytestring_line(encoding, s[j]),
        forall|j: int| 0 <= j < s.len() ==> #[trigger] a[j] == annotated_bytes(s[j]),
        forall|j: int| 0 <= j < s.len() ==> bytes_encodable(#[trigger] s[j]),
    ensures
        column_lines(ls),
        strip(hex_columns(ls)) == hex_lower(bytestrings_bytes(a)),
    decreases s.len(),
{
    if s.len() == 0 {
        assert(a =~= Seq::<SpecBytes>::empty());
        assert(hex_lower(Seq::<u8>::empty()) == Seq::<char>::empty());
    } else {
        let n = (s.len() - 1) as int;
        assert forall|j: int| 0 <= j < n implies #[trigger] ls.drop_last()[j] == bytestring_line(encoding, s.drop_last()[j])
            && a.drop_last()[j] == annotated_bytes(s.drop_last()[j]) && bytes_encodable(s.drop_last()[j]) by {
            assert(ls.drop_last()[j] == ls[j] && a.drop_last()[j] == a[j] && s.drop_last()[j] == s[j]);
        }
        lemma_bytestring_chunks(encoding, s.drop_last(), a.drop_last(), ls.drop_last());
        assert(ls.last() == bytestring_line(encoding, s[n]) && a.last() == annotated_bytes(s[n]));
        assert(bytes_encodable(s[n]));
        lemma_bytestring_line(encoding, s[n]);
        lemma_strip_concat(hex_columns(ls.drop_last()), hex_column(ls.last()));
        lemma_hex_lower_concat(bytestrings_bytes(a.drop_last()), bytestring_bytes(a.last()));
    }
}

/// The lines of the chunks of an indefinite length text string show them.
proof fn lemma_textstring_chunks(s: Seq<SpecText>, a: Seq<SpecText>, ls: Seq<SpecLine>)
    requires
        ls.len() == s.len(),
        a.len() == s.len(),
        forall|j: int| 0 <= j < s.len() ==> #[trigger] ls[j] == textstring_line(s[j]),
        forall|j: int| 0 <= j < s.len() ==> #[trigger] a[j] == annotated_text(s[j]),
        forall|j: int| 0 <= j < s.len() ==> text_encodable(#[trigger] s[j]),
    ensures
        column_lines(ls),
        strip(hex_columns(ls)) == hex_lower(textstrings_bytes(a)),
    decreases s.len(),
{
    if s.len() == 0 {
        assert(a =~= Seq::<SpecText>::empty());
        assert(hex_lower(Seq::<u8>::empty()) == Seq::<char>::empty());
    } else {
        let n = (s.len() - 1) as int;
        assert forall|j: int| 0 <= j < n implies #[trigger] ls.drop_last()[j] == textstring_line(s.drop_last()[j])
            && a.drop_last()[j] == annotated_text(s.drop_last()[j]) && text_encodable(s.drop_last()[j]) by {
            assert(ls.drop_last()[j] == ls[j] && a.drop_last()[j] == a[j] && s.drop_last()[j] == s[j]);
        }
        lemma_textstring_chunks(s.drop_last(), a.drop_last(), ls.drop_last());
        assert(ls.last() == textstring_line(s[n]) && a.last() == annotated_text(s[n]));
        assert(text_encodable(s[n]));
        lemma_textstring_line(s[n]);
        lemma_strip_concat(hex_columns(ls.drop_last()), hex_column(ls.last()));
        lemma_hex_lower_concat(textstrings_bytes(a.drop_last()), textstring_bytes(a.last()));
    }
}

/// The hex of each element of a typed array of `n`-byte elements.
pub open spec fn elements_hex(data: Seq<u8>, n: nat) -> Seq<Seq<char>> {
    Seq::new(data.len() / n, |i: int| hex_lower(element(data, n, i)))
}

/// The hex of the elements of a typed array, one after the other, up to
/// element `k`.
proof fn lemma_elements_hex(data: Seq<u8>, n: nat, k: nat)
    requires
        n > 0,
        data.len() % n == 0,
        k <= data.len() / n,
    ensures
        n * k <= data.len(),
        concat_all(elements_hex(data, n).take(k as int)) == hex_lower(data.take((n * k) as int)),
    decreases k,
{
    let hs = elements_hex(data, n);
    assert(n * k <= data.len()) by (nonlinear_arith)
        requires
            n > 0,
            k <= data.len() / n,
    ;
    if k == 0 {
        assert(n * k == 0) by (nonlinear_arith)
            requires
                k == 0,
        ;
        assert(hs.take(0) =~= Seq::<Seq<char>>::empty());
        assert(data.take(0) =~= Seq::<u8>::empty());
        assert(concat_all(Seq::<Seq<char>>::empty()) == Seq::<char>::empty());
        assert(hex_lower(Seq::<u8>::empty()) == Seq::<char>::empty());
    } else {
        let j = (k - 1) as nat;
        lemma_elements_hex(data, n, j);
        assert(hs.take(k as int).drop_last() =~= hs.take(j as int));
        assert(hs.take(k as int).last() == hex_lower(element(data, n, j as int)));
        assert(n * k == n * j + n) by (nonlinear_arith)
            requires
                k == j + 1,
        ;
        assert(data.take((n * k) as int) =~= data.take((n * j) as int) + element(data, n, j as int));
        lemma_hex_lower_concat(data.take((n * j) as int), element(data, n, j as int));
        assert(concat_all(hs.take(k as int)) == concat_all(hs.take(j as int)) + hex_lower(element(data, n, j as int)));
        assert(concat_all(hs.take(k as int)) == hex_lower(data.take((n * j) as int)) + hex_lower(element(data, n, j as int)));
    }
}

/// The annotations a tag calls for add nothing to the hex column.
pub proof fn lemma_tag_extra(tag: u64, v: SpecItem, refs: u64, bound: nat, ft: FloatTexts)
    ensures
        hex_columns(tag_extra(tag, v, refs, bound, ft).0) == Seq::<char>::empty(),
        column_lines(tag_extra(tag, v, refs, bound, ft).0),
{
    let e = tag_extra(tag, v, refs, bound, ft).0;
    assert forall|j: int| 0 <= j < e.len() implies annotation_line(#[trigger] e[j]) by {
    }
    lemma_annotation_lines(e);
}

/// A line with a sequence of lines after it.
proof fn lemma_columns_push(s: Seq<SpecLine>, l: SpecLine)
    ensures
        hex_columns(s.push(l)) == hex_columns(s) + hex_column(l),
        column_lines(s.push(l)) == (column_lines(s) && column_line(l)),
{
    assert(s.push(l).drop_last() =~= s);
}

/// One line on its own.
proof fn lemma_columns_one(l: SpecLine)
    ensures
        hex_columns(seq![l]) == hex_column(l),
        column_lines(seq![l]) == column_line(l),
{
    assert(seq![l].drop_last() =~= Seq::<SpecLine>::empty());
    assert(seq![l].last() == l);
    assert(hex_columns(Seq::<SpecLine>::empty()) == Seq::<char>::empty());
    assert(column_lines(Seq::<SpecLine>::empty()));
    assert(Seq::<char>::empty() + hex_column(l) =~= hex_column(l));
}

/// The elements of a typed array show the byte string they are cut from.
proof fn lemma_typed_elements(tag: u64, b: SpecBytes, ft: FloatTexts)
    requires
        typed_size(tag) > 0,
        b.data.len() % typed_size(tag) == 0,
        bytes_encodable(b),
    ensures
        ({
            let n = typed_size(tag);
            let data = b.data;
            let l = with_sublines(length_line(data.len(), Some(b.bitwidth), 2, "bytes"@), Seq::new(data.len() / n, |i: int| leaf(
                hex_lower(element(data, n, i)),
                crate::encode::hex::typed_kind(tag) + seq!['('] + crate::encode::hex::element_text(tag, element(data, n, i), ft) + seq![')'],
            )));
            column_lines(seq![l]) && strip(hex_columns(seq![l])) == hex_lower(bytestring_bytes(annotated_bytes(b)))
        }),
{
    let n = typed_size(tag);
    let data = b.data;
    let subs = Seq::new(data.len() / n, |i: int| leaf(
        hex_lower(element(data, n, i)),
        crate::encode::hex::typed_kind(tag) + seq!['('] + crate::encode::hex::element_text(tag, element(data, n, i), ft) + seq![')'],
    ));
    let l = with_sublines(length_line(data.len(), Some(b.bitwidth), 2, "bytes"@), subs);
    assert forall|j: int| 0 <= j < subs.len() implies (#[trigger] subs[j]).hex == elements_hex(data, n)[j]
        && subs[j].sublines.len() == 0 && column_chars(elements_hex(data, n)[j]) by {
        lemma_hex_lower_chars(element(data, n, j));
    }
    lemma_leaf_columns(subs, elements_hex(data, n));
    lemma_elements_hex(data, n, data.len() / n);
    assert(n * (data.len() / n) == data.len()) by (nonlinear_arith)
        requires
            n > 0,
            data.len() % n == 0,
    ;
    assert(elements_hex(data, n).take((data.len() / n) as int) =~= elements_hex(data, n));
    assert(data.take(data.len() as int) =~= data);
    lemma_length_hex(data.len(), Some(b.bitwidth), 2);
    lemma_hex_lower_chars(data);
    lemma_strip_no_space(hex_lower(data));
    lemma_strip_concat(length_hex(data.len(), Some(b.bitwidth), 2), hex_lower(data));
    lemma_hex_lower_concat(header_bytes(2, data.len() as u64, shown_count(data.len(), b.bitwidth)), data);
    assert(l.hex == length_hex(data.len(), Some(b.bitwidth), 2));
    assert(hex_column(l) == length_hex(data.len(), Some(b.bitwidth), 2) + hex_columns(subs));
    lemma_columns_one(l);
}

/// The lines under a typed array tag show the item under it.
proof fn lemma_typed_lines(tag: u64, v: SpecItem, enc: Option<Encoding>, refs: u64, bound: nat, ft: FloatTexts)
    requires
        is_typed_array(tag),
        encodable(v),
        column_line(hex_of(v, enc, refs, bound, ft).0),
        strip(hex_column(hex_of(v, enc, refs, bound, ft).0)) == hex_lower(item_bytes(annotated(v))),
    ensures
        column_lines(typed_lines(tag, v, enc, refs, bound, ft).0),
        strip(hex_columns(typed_lines(tag, v, enc, refs, bound, ft).0)) == hex_lower(item_bytes(annotated(v))),
{
    let n = typed_size(tag);
    let ls = typed_lines(tag, v, enc, refs, bound, ft).0;
    let l0 = hex_of(v, enc, refs, bound, ft).0;
    match v {
        SpecItem::ByteString(b) => {
            if b.data.len() % n == 0 {
                lemma_typed_elements(tag, b, ft);
            } else {
                let extra = note("invalid data length for typed array"@);
                assert(ls == seq![l0, extra]);
                assert(seq![l0, extra] == seq![l0].push(extra));
                lemma_columns_one(l0);
                lemma_columns_push(seq![l0], extra);
                assert(hex_column(extra) =~= Seq::<char>::empty()) by {
                    assert(extra.sublines =~= Seq::<SpecLine>::empty());
                }
                assert(column_line(extra)) by {
                    assert(extra.sublines =~= Seq::<SpecLine>::empty());
                }
                assert(hex_column(l0) + Seq::<char>::empty() =~= hex_column(l0));
            }
        },
        _ => {
            let extra = note("invalid type for typed array"@);
            assert(ls == seq![l0, extra]);
            assert(seq![l0, extra] == seq![l0].push(extra));
            lemma_columns_one(l0);
            lemma_columns_push(seq![l0], extra);
            assert(hex_column(extra) =~= Seq::<char>::empty()) by {
                assert(extra.sublines =~= Seq::<SpecLine>::empty());
            }
            assert(column_line(extra)) by {
                assert(extra.sublines =~= Seq::<SpecLine>::empty());
            }
            assert(hex_column(l0) + Seq::<char>::empty() =~= hex_column(l0));
        },
    }
}

/// Items with the widths annotated hex shows.
pub open spec fn annotated_items(s: Seq<SpecItem>) -> Seq<SpecItem> {
    Seq::new(s.len(), |i: int| annotated(s[i]))
}

/// Pairs with the widths annotated hex shows.
pub open spec fn annotated_pairs(s: Seq<(SpecItem, SpecItem)>) -> Seq<(SpecItem, SpecItem)> {
    Seq::new(s.len(), |i: int| (annotated(s[i].0), annotated(s[i].1)))
}

/// The hex column of an item's annotated hex, without spaces, is the hex of
/// its binary encoding with the widths annotated hex shows.
pub proof fn lemma_item_hex(x: SpecItem, enc: Option<Encoding>, refs: u64, bound: nat, ft: FloatTexts)
    requires
        encodable(x),
    ensures
        column_line(hex_of(x, enc, refs, bound, ft).0),
        strip(hex_column(hex_of(x, enc, refs, bound, ft).0)) == hex_lower(item_bytes(annotated(x))),
    decreases x, 1nat,
{
    match x {
        SpecItem::Integer { value, bitwidth } => lemma_integer_line(0, value, bitwidth),
        SpecItem::Negative { value, bitwidth } => lemma_integer_line(1, value, bitwidth),
        SpecItem::ByteString(b) => lemma_bytestring_line(enc, b),
        SpecItem::TextString(t) => lemma_textstring_line(t),
        SpecItem::IndefiniteByteString(s) => lemma_indefinite_bytes_hex(s, enc, refs, bound, ft),
        SpecItem::IndefiniteTextString(s) => lemma_indefinite_text_hex(s, enc, refs, bound, ft),
        SpecItem::Array { data, bitwidth } => lemma_array_hex(data, bitwidth, enc, refs, bound, ft),
        SpecItem::Mapping { data, bitwidth } => lemma_map_hex(data, bitwidth, enc, refs, bound, ft),
        SpecItem::Tag { tag, bitwidth, value } => lemma_tagged_hex(tag, bitwidth, *value, enc, refs, bound, ft),
        SpecItem::Float { value, bitwidth } => lemma_float_line(value, bitwidth, ft),
        SpecItem::Simple(v) => lemma_simple_line(v),
    }
}

/// An indefinite length byte string's annotated hex shows its encoding.
proof fn lemma_indefinite_bytes_hex(s: Seq<SpecBytes>, enc: Option<Encoding>, refs: u64, bound: nat, ft: FloatTexts)
    requires
        encodable(SpecItem::IndefiniteByteString(s)),
    ensures
        column_line(hex_of(SpecItem::IndefiniteByteString(s), enc, refs, bound, ft).0),
        strip(hex_column(hex_of(SpecItem::IndefiniteByteString(s), enc, refs, bound, ft).0))
            == hex_lower(item_bytes(annotated(SpecItem::IndefiniteByteString(s)))),
{
    let x = SpecItem::IndefiniteByteString(s);
    let l = hex_of(x, enc, refs, bound, ft).0;
    let subs = l.sublines;
    let ls = subs.drop_last();
    assert(subs == ls.push(break_line()));
    let a = annotated(x)->IndefiniteByteString_0;
    lemma_bytestring_chunks(enc, s, a, ls);
    lemma_break_line();
    lemma_columns_push(ls, break_line());
    lemma_length_hex(0, None, 2);
    crate::encode::bytes::lemma_indefinite_initial_bytes();
    assert(l.hex == length_hex(0, None, 2));
    let body = bytestrings_bytes(a);
    assert(item_bytes(annotated(x)) == seq![0x5fu8] + body + seq![0xffu8]);
    lemma_hex_lower_concat(seq![0x5fu8] + body, seq![0xffu8]);
    lemma_hex_lower_concat(seq![0x5fu8], body);
    lemma_strip_concat(l.hex + hex_columns(ls), hex_column(break_line()));
    lemma_strip_concat(l.hex, hex_columns(ls));
    lemma_strip_no_space(hex_column(break_line()));
    assert(hex_column(l) =~= l.hex + hex_columns(ls) + hex_column(break_line()));
}

/// An indefinite length text string's annotated hex shows its encoding.
proof fn lemma_indefinite_text_hex(s: Seq<SpecText>, enc: Option<Encoding>, refs: u64, bound: nat, ft: FloatTexts)
    requires
        encodable(SpecItem::IndefiniteTextString(s)),
    ensures
        column_line(hex_of(SpecItem::IndefiniteTextString(s), enc, refs, bound, ft).0),
        strip(hex_column(hex_of(SpecItem::IndefiniteTextString(s), enc, refs, bound, ft).0))
            == hex_lower(item_bytes(annotated(SpecItem::IndefiniteTextString(s)))),
{
    let x = SpecItem::IndefiniteTextString(s);
    let l = hex_of(x, enc, refs, bound, ft).0;
    let subs = l.sublines;
    let ls = subs.drop_last();
    assert(subs == ls.push(break_line()));
    let a = annotated(x)->IndefiniteTextString_0;
    lemma_textstring_chunks(s, a, ls);
    lemma_break_line();
    lemma_columns_push(ls, break_line());
    lemma_length_hex(0, None, 3);
    crate::encode::bytes::lemma_indefinite_initial_bytes();
    assert(l.hex == length_hex(0, None, 3));
    let body = textstrings_bytes(a);
    assert(item_bytes(annotated(x)) == seq![0x7fu8] + body + seq![0xffu8]);
    lemma_hex_lower_concat(seq![0x7fu8] + body, seq![0xffu8]);
    lemma_hex_lower_concat(seq![0x7fu8], body);
    lemma_strip_concat(l.hex + hex_columns(ls), hex_column(break_line()));
    lemma_strip_concat(l.hex, hex_columns(ls));
    lemma_strip_no_space(hex_column(break_line()));
    assert(hex_column(l) =~= l.hex + hex_columns(ls) + hex_column(break_line()));
}

/// The lines of a sequence of items show their encodings.
proof fn lemma_items_hex(s: Seq<SpecItem>, enc: Option<Encoding>, refs: u64, bound: nat, ft: FloatTexts)
    requires
        forall|i: int| 0 <= i < s.len() ==> encodable(#[trigger] s[i]),
    ensures
        column_lines(hex_items(s, enc, refs, bound, ft).0),
        strip(hex_columns(hex_items(s, enc, refs, bound, ft).0)) == hex_lower(items_bytes(annotated_items(s))),
    decreases s, 3nat,
{
    if s.len() == 0 {
        assert(annotated_items(s) =~= Seq::<SpecItem>::empty());
        assert(hex_items(s, enc, refs, bound, ft).0 =~= Seq::<SpecLine>::empty());
        assert(items_bytes(Seq::<SpecItem>::empty()) == Seq::<u8>::empty());
        assert(hex_lower(Seq::<u8>::empty()) == Seq::<char>::empty());
        assert(strip(Seq::<char>::empty()) == Seq::<char>::empty());
    } else {
        let (l, r1) = hex_of(s[0], enc, refs, bound, ft);
        let (ls, r2) = hex_items(s.skip(1), enc, r1, bound, ft);
        assert(hex_items(s, enc, refs, bound, ft).0 == seq![l] + ls);
        lemma_item_hex(s[0], enc, refs, bound, ft);
        lemma_items_hex(s.skip(1), enc, r1, bound, ft);
        lemma_columns_one(l);
        lemma_columns_concat(seq![l], ls);
        lemma_strip_concat(hex_column(l), hex_columns(ls));
        let a = annotated_items(s);
        lemma_items_bytes_front(a);
        assert(a.skip(1) =~= annotated_items(s.skip(1)));
        lemma_hex_lower_concat(item_bytes(a[0]), items_bytes(a.skip(1)));
    }
}

/// The lines of a sequence of pairs show their encodings.
proof fn lemma_pairs_hex(s: Seq<(SpecItem, SpecItem)>, enc: Option<Encoding>, refs: u64, bound: nat, ft: FloatTexts)
    requires
        forall|i: int| 0 <= i < s.len() ==> encodable(#[trigger] s[i].0) && encodable(s[i].1),
    ensures
        column_lines(hex_pairs(s, enc, refs, bound, ft).0),
        strip(hex_columns(hex_pairs(s, enc, refs, bound, ft).0)) == hex_lower(pairs_bytes(annotated_pairs(s))),
    decreases s, 3nat,
{
    if s.len() == 0 {
        assert(annotated_pairs(s) =~= Seq::<(SpecItem, SpecItem)>::empty());
        assert(hex_pairs(s, enc, refs, bound, ft).0 =~= Seq::<SpecLine>::empty());
        assert(pairs_bytes(Seq::<(SpecItem, SpecItem)>::empty()) == Seq::<u8>::empty());
        assert(hex_lower(Seq::<u8>::empty()) == Seq::<char>::empty());
        assert(strip(Seq::<char>::empty()) == Seq::<char>::empty());
    } else {
        let (k, r1) = hex_of(s[0].0, enc, refs, bound, ft);
        let (v, r2) = hex_of(s[0].1, enc, r1, bound, ft);
        let (ls, r3) = hex_pairs(s.skip(1), enc, r2, bound, ft);
        assert(hex_pairs(s, enc, refs, bound, ft).0 == seq![k, v] + ls);
        lemma_item_hex(s[0].0, enc, refs, bound, ft);
        lemma_item_hex(s[0].1, enc, r1, bound, ft);
        lemma_pairs_hex(s.skip(1), enc, r2, bound, ft);
        assert(seq![k, v] == seq![k].push(v));
        lemma_columns_one(k);
        lemma_columns_push(seq![k], v);
        lemma_columns_concat(seq![k, v], ls);
        lemma_strip_concat(hex_column(k) + hex_column(v), hex_columns(ls));
        lemma_strip_concat(hex_column(k), hex_column(v));
        let a = annotated_pairs(s);
        lemma_pairs_bytes_front(a);
        assert(a.skip(1) =~= annotated_pairs(s.skip(1)));
        lemma_hex_lower_concat(item_bytes(a[0].0) + item_bytes(a[0].1), pairs_bytes(a.skip(1)));
        lemma_hex_lower_concat(item_bytes(a[0].0), item_bytes(a[0].1));
    }
}

/// An array's annotated hex shows its encoding.
proof fn lemma_array_hex(data: Seq<SpecItem>, bitwidth: Option<IntegerWidth>, enc: Option<Encoding>, refs: u64, bound: nat, ft: FloatTexts)
    requires
        encodable(SpecItem::Array { data, bitwidth }),
    ensures
        column_line(hex_of(SpecItem::Array { data, bitwidth }, enc, refs, bound, ft).0),
        strip(hex_column(hex_of(SpecItem::Array { data, bitwidth }, enc, refs, bound, ft).0))
            == hex_lower(item_bytes(annotated(SpecItem::Array { data, bitwidth }))),
    decreases data, 4nat,
{
    let x = SpecItem::Array { data, bitwidth };
    let l = hex_of(x, enc, refs, bound, ft).0;
    let ls = hex_items(data, enc, refs, bound, ft).0;
    lemma_items_hex(data, enc, refs, bound, ft);
    let a = annotated_items(data);
    assert(annotated(x)->Array_data =~= a);
    let len = data.len();
    lemma_strip_concat(l.hex, hex_columns(l.sublines));
    match bitwidth {
        Some(w) => {
            lemma_length_hex(len, bitwidth, 4);
            assert(l.hex == length_hex(len, bitwidth, 4));
            assert(l.sublines == ls);
            lemma_hex_lower_concat(header_bytes(4, len as u64, shown_count(len, w)), items_bytes(a));
        },
        None => {
            lemma_length_hex(0, None, 4);
            assert(l.hex == length_hex(0, None, 4));
            assert(l.sublines == ls.push(break_line()));
            lemma_break_line();
            lemma_columns_push(ls, break_line());
            lemma_strip_concat(hex_columns(ls), hex_column(break_line()));
            lemma_strip_no_space(hex_column(break_line()));
            crate::encode::bytes::lemma_indefinite_initial_bytes();
            lemma_hex_lower_concat(seq![0x9fu8] + items_bytes(a), seq![0xffu8]);
            lemma_hex_lower_concat(seq![0x9fu8], items_bytes(a));
        },
    }
}

/// A map's annotated hex shows its encoding.
proof fn lemma_map_hex(data: Seq<(SpecItem, SpecItem)>, bitwidth: Option<IntegerWidth>, enc: Option<Encoding>, refs: u64, bound: nat, ft: FloatTexts)
    requires
        encodable(SpecItem::Mapping { data, bitwidth }),
    ensures
        column_line(hex_of(SpecItem::Mapping { data, bitwidth }, enc, refs, bound, ft).0),
        strip(hex_column(hex_of(SpecItem::Mapping { data, bitwidth }, enc, refs, bound, ft).0))
            == hex_lower(item_bytes(annotated(SpecItem::Mapping { data, bitwidth }))),
    decreases data, 4nat,
{
    let x = SpecItem::Mapping { data, bitwidth };
    let l = hex_of(x, enc, refs, bound, ft).0;
    let ls = hex_pairs(data, enc, refs, bound, ft).0;
    lemma_pairs_hex(data, enc, refs, bound, ft);
    let a = annotated_pairs(data);
    assert(annotated(x)->Mapping_data =~= a);
    let len = data.len();
    lemma_strip_concat(l.hex, hex_columns(l.sublines));
    match bitwidth {
        Some(w) => {
            lemma_length_hex(len, bitwidth, 5);
            assert(l.hex == length_hex(len, bitwidth, 5));
            assert(l.sublines == ls);
            lemma_hex_lower_concat(header_bytes(5, len as u64, shown_count(len, w)), pairs_bytes(a));
        },
        None => {
            lemma_length_hex(0, None, 5);
            assert(l.hex == length_hex(0, None, 5));
            assert(l.sublines == ls.push(break_line()));
            lemma_break_line();
            lemma_columns_push(ls, break_line());
            lemma_strip_concat(hex_columns(ls), hex_column(break_line()));
            lemma_strip_no_space(hex_column(break_line()));
            crate::encode::bytes::lemma_indefinite_initial_bytes();
            lemma_hex_lower_concat(seq![0xbfu8] + pairs_bytes(a), seq![0xffu8]);
            lemma_hex_lower_concat(seq![0xbfu8], pairs_bytes(a));
        },
    }
}

/// A tagged item's annotated hex shows its encoding.
proof fn lemma_tagged_hex(tag: u64, bitwidth: IntegerWidth, v: SpecItem, enc: Option<Encoding>, refs: u64, bound: nat, ft: FloatTexts)
    requires
        fits(tag, bitwidth),
        encodable(v),
    ensures
        column_line(hex_of(SpecItem::Tag { tag, bitwidth, value: Box::new(v) }, enc, refs, bound, ft).0),
        strip(hex_column(hex_of(SpecItem::Tag { tag, bitwidth, value: Box::new(v) }, enc, refs, bound, ft).0))
            == hex_lower(item_bytes(annotated(SpecItem::Tag { tag, bitwidth, value: Box::new(v) }))),
    decreases v, 5nat,
{
    let x = SpecItem::Tag { tag, bitwidth, value: Box::new(v) };
    let l = hex_of(x, enc, refs, bound, ft).0;
    let (extra, r1) = tag_extra(tag, v, refs, bound, ft);
    let (sub, r2) = tag_sublines(tag, v, enc, r1, bound, ft);
    assert(l.hex == tag_hex(tag, bitwidth));
    assert(l.sublines == sub + extra);
    lemma_tag_extra(tag, v, refs, bound, ft);
    lemma_columns_concat(sub, extra);
    assert(hex_columns(sub) + Seq::<char>::empty() =~= hex_columns(sub));
    if is_typed_array(tag) {
        lemma_item_hex(v, enc, r1, bound, ft);
        lemma_typed_lines(tag, v, enc, r1, bound, ft);
    } else {
        let enc2 = if tag == 21 {
            Some(Encoding::Base64Url)
        } else if tag == 22 {
            Some(Encoding::Base64)
        } else if tag == 23 || tag == 260 || tag == 37 || tag == 52 || tag == 54 {
            Some(Encoding::Base16)
        } else {
            enc
        };
        let l0 = hex_of(v, enc2, r1, bound, ft).0;
        assert(sub == seq![l0]);
        lemma_item_hex(v, enc2, r1, bound, ft);
        lemma_columns_one(l0);
    }
    lemma_tag_hex(tag, bitwidth);
    lemma_strip_concat(tag_hex(tag, bitwidth), hex_columns(sub));
    lemma_hex_lower_concat(header_bytes(6, tag, shown_count(tag as nat, bitwidth)), item_bytes(annotated(v)));
    assert(hex_column(l) == tag_hex(tag, bitwidth) + hex_columns(sub));
}

/// A hex digit's character is ASCII and reads back as the digit.
proof fn lemma_hex_digit_value(n: u8)
    requires
        n < 16,
    ensures
        '\0' <= hex_digit(n) <= '\u{7f}',
        hex_value(hex_digit(n) as u8) == Some(n),
{
}

/// Each byte of a sequence shows as two digits at its place in its hex.
proof fn lemma_hex_lower_at(b: Seq<u8>)
    ensures
        hex_lower(b).len() == 2 * b.len(),
        forall|i: int| 0 <= i < b.len() ==> hex_lower(b)[2 * i] == hex_digit(#[trigger] b[i] / 16)
            && hex_lower(b)[2 * i + 1] == hex_digit(b[i] % 16),
    decreases b.len(),
{
    if b.len() > 0 {
        let p = b.drop_last();
        lemma_hex_lower_at(p);
        assert forall|i: int| 0 <= i < b.len() implies hex_lower(b)[2 * i] == hex_digit(#[trigger] b[i] / 16)
            && hex_lower(b)[2 * i + 1] == hex_digit(b[i] % 16) by {
            if i < p.len() {
                assert(b[i] == p[i]);
            }
        }
    }
}

/// Lowercase hex text, read as bytes, is hexadecimal text that stands for
/// the bytes it was made from.
pub proof fn lemma_hex_text_decodes(b: Seq<u8>)
    ensures
        is_hex_text(encode_utf8(hex_lower(b))),
        hex_bytes(encode_utf8(hex_lower(b))) == b,
{
    let h = hex_lower(b);
    lemma_hex_lower_at(b);
    assert forall|j: int| 0 <= j < h.len() implies '\0' <= #[trigger] h[j] <= '\u{7f}'
        && hex_value(h[j] as u8) is Some by {
        let i = j / 2;
        assert(b[i] == b[i]);
        lemma_hex_digit_value(b[i] / 16);
        lemma_hex_digit_value(b[i] % 16);
        if j % 2 == 0 {
            assert(j == 2 * i);
        } else {
            assert(j == 2 * i + 1);
        }
    }
    assert(is_ascii_chars(h));
    is_ascii_chars_encode_utf8(h);
    let t = encode_utf8(h);
    assert forall|j: int| 0 <= j < t.len() implies #[trigger] hex_value(t[j]) is Some by {
        assert(t[j] == h[j] as u8);
    }
    assert forall|i: int| 0 <= i < b.len() implies #[trigger] hex_bytes(t)[i] == b[i] by {
        assert(t[2 * i] == h[2 * i] as u8);
        assert(t[2 * i + 1] == h[2 * i + 1] as u8);
        lemma_hex_digit_value(b[i] / 16);
        lemma_hex_digit_value(b[i] % 16);
        assert(b[i] / 16 * 16 + b[i] % 16 == b[i]);
    }
    assert(hex_bytes(t) =~= b);
}

/// Showing every width keeps an item encodable.
pub proof fn lemma_annotated_encodable(x: SpecItem)
    requires
        encodable(x),
    ensures
        encodable(annotated(x)),
    decreases x,
{
    match x {
        SpecItem::IndefiniteByteString(s) => {
            let a = annotated(x)->IndefiniteByteString_0;
            assert forall|i: int| 0 <= i < a.len() implies bytes_encodable(#[trigger] a[i]) by {
                assert(bytes_encodable(s[i]));
                assert(a[i] == annotated_bytes(s[i]));
            }
        },
        SpecItem::IndefiniteTextString(s) => {
            let a = annotated(x)->IndefiniteTextString_0;
            assert forall|i: int| 0 <= i < a.len() implies text_encodable(#[trigger] a[i]) by {
                assert(text_encodable(s[i]));
                assert(a[i] == annotated_text(s[i]));
            }
        },
        SpecItem::Array { data, bitwidth } => {
            let a = annotated(x)->Array_data;
            assert forall|i: int| 0 <= i < a.len() implies encodable(#[trigger] a[i]) by {
                lemma_annotated_encodable(data[i]);
            }
        },
        SpecItem::Mapping { data, bitwidth } => {
            let a = annotated(x)->Mapping_data;
            assert forall|i: int| 0 <= i < a.len() implies encodable(#[trigger] a[i].0) && encodable(a[i].1) by {
                lemma_annotated_encodable(data[i].0);
                lemma_annotated_encodable(data[i].1);
            }
        },
        SpecItem::Tag { tag, bitwidth, value } => {
            lemma_annotated_encodable(*value);
        },
        _ => {},
    }
}

/// An item whose widths are all shown is its own normal form.
pub proof fn lemma_normalized_annotated(x: SpecItem)
    ensures
        normalized(annotated(x)) == annotated(x),
    decreases x,
{
    match x {
        SpecItem::IndefiniteByteString(s) => {
            let a = annotated(x)->IndefiniteByteString_0;
            assert(a.map_values(|b: SpecBytes| normalized_bytes(b)) =~= a);
        },
        SpecItem::IndefiniteTextString(s) => {
            let a = annotated(x)->IndefiniteTextString_0;
            assert(a.map_values(|t: SpecText| normalized_text(t)) =~= a);
        },
        SpecItem::Array { data, bitwidth } => {
            let a = annotated(x)->Array_data;
            assert forall|i: int| 0 <= i < a.len() implies normalized(#[trigger] a[i]) == a[i] by {
                lemma_normalized_annotated(data[i]);
            }
            assert(normalized(annotated(x))->Array_data =~= a);
        },
        SpecItem::Mapping { data, bitwidth } => {
            let a = annotated(x)->Mapping_data;
            assert forall|i: int| 0 <= i < a.len() implies normalized(#[trigger] a[i].0) == a[i].0
                && normalized(a[i].1) == a[i].1 by {
                lemma_normalized_annotated(data[i].0);
                lemma_normalized_annotated(data[i].1);
            }
            assert(normalized(annotated(x))->Mapping_data =~= a);
        },
        SpecItem::Tag { tag, bitwidth, value } => {
            lemma_normalized_annotated(*value);
        },
        _ => {},
    }
}

/// Annotated hex shows an item whose widths are all given as it is.
pub proof fn lemma_annotated_given(x: SpecItem)
    requires
        widths_given(x),
    ensures
        annotated(x) == x,
    decreases x,
{
    match x {
        SpecItem::IndefiniteByteString(s) => {
            assert(s.map_values(|b: SpecBytes| annotated_bytes(b)) =~= s);
        },
        SpecItem::IndefiniteTextString(s) => {
            assert(s.map_values(|t: SpecText| annotated_text(t)) =~= s);
        },
        SpecItem::Array { data, bitwidth } => {
            assert forall|i: int| 0 <= i < data.len() implies annotated(#[trigger] data[i]) == data[i] by {
                lemma_annotated_given(data[i]);
            }
            assert(annotated(x)->Array_data =~= data);
        },
        SpecItem::Mapping { data, bitwidth } => {
            assert forall|i: int| 0 <= i < data.len() implies annotated(#[trigger] data[i].0) == data[i].0
                && annotated(data[i].1) == data[i].1 by {
                lemma_annotated_given(data[i].0);
                lemma_annotated_given(data[i].1);
            }
            assert(annotated(x)->Mapping_data =~= data);
        },
        SpecItem::Tag { tag, bitwidth, value } => {
            lemma_annotated_given(*value);
        },
        _ => {},
    }
}

/// Annotated hex reads back. Once its comments and spaces are removed, the
/// annotated hex of an encodable item is hexadecimal text; the bytes it
/// stands for are the encoding of the item with each width as the annotation
/// shows it, and they parse as that item, so `parse_hex` gives it back: the
/// item itself where all its widths were given. This holds wherever no
/// comment runs over a line break, since a comment ends with its line and
/// what follows a line feed inside one would be read as hex. Comments show
/// text strings escaped; a line feed comes into one through a float text the
/// caller supplies, or through text shown as it is, such as the zone of an
/// IPv4 or IPv6 address (tags 52 and 54), e.g.
/// `52([h'c0000201', null, "a\nb"])`.
pub proof fn law_hex_roundtrip(x: SpecItem, ft: FloatTexts)
    requires
        encodable(x),
        comments_single_line(hex_of(x, None, 0, usize::MAX as nat + 1, ft).0),
    ensures
        ({
            let text = encode_utf8(uncommented(merged(hex_of(x, None, 0, usize::MAX as nat + 1, ft).0), false));
            &&& is_hex_text(text)
            &&& hex_bytes(text) == item_bytes(annotated(x))
            &&& parse_item(hex_bytes(text)) == Parsed::Done(annotated(x), hex_bytes(text).len())
            &&& forall|r: Result<DataItem>| #[trigger] parse_bytes_gives(hex_bytes(text), r)
                ==> (r matches Ok(y) && y@ == annotated(x))
            &&& widths_given(x) ==> annotated(x) == x
        }),
{
    let l = hex_of(x, None, 0, usize::MAX as nat + 1, ft).0;
    lemma_item_hex(x, None, 0, usize::MAX as nat + 1, ft);
    lemma_uncommented_merged(l);
    let b = item_bytes(annotated(x));
    lemma_hex_text_decodes(b);
    lemma_annotated_encodable(x);
    lemma_normalized_annotated(x);
    law_bytes_roundtrip(annotated(x), Seq::empty());
    assert(b + Seq::<u8>::empty() =~= b);
    if widths_given(x) {
        lemma_annotated_given(x);
    }
}

/// The hex of the line `integer_to_hex` (or `negative_to_hex`) makes,
/// without its space, is the hex of the bytes `integer_to_bytes` writes for
/// the same value and width, for every value that fits its width.
pub proof fn law_integer_hex(value: u64, bitwidth: IntegerWidth)
    requires
        fits(value, bitwidth),
    ensures
        strip(integer_line(value, bitwidth).hex) == hex_lower(header_bytes(0, value, bitwidth)),
        strip(negative_line(value, bitwidth).hex) == hex_lower(header_bytes(1, value, bitwidth)),
{
    lemma_integer_line(0, value, bitwidth);
    lemma_integer_line(1, value, bitwidth);
    assert(integer_line(value, bitwidth).sublines =~= Seq::<SpecLine>::empty());
    assert(negative_line(value, bitwidth).sublines =~= Seq::<SpecLine>::empty());
    assert(hex_column(integer_line(value, bitwidth)) =~= integer_line(value, bitwidth).hex);
    assert(hex_column(negative_line(value, bitwidth)) =~= negative_line(value, bitwidth).hex);
    assert(header_bytes(0, value, shown_value(value, bitwidth)) == header_bytes(0, value, bitwidth));
    assert(header_bytes(1, value, shown_value(value, bitwidth)) == header_bytes(1, value, bitwidth));
}

/// Whether the hex of a line and of the lines nested under it is ASCII text
/// without `#`.
pub open spec fn plain_hex(l: SpecLine) -> bool
    decreases l,
{
    &&& is_ascii_chars(l.hex)
    &&& forall|i: int| 0 <= i < l.hex.len() ==> #[trigger] l.hex[i] != '#'
    &&& forall|i: int| 0 <= i < l.sublines.len() ==> plain_hex(#[trigger] l.sublines[i])
}

/// Whether every line of a tree at nesting `level` whose hex is not empty
/// has three columns per level of nesting and its hex within `width`.
pub open spec fn widths_within(l: SpecLine, width: nat, level: nat) -> bool
    decreases l,
{
    &&& (encode_utf8(l.hex).len() == 0 || 3 * level + encode_utf8(l.hex).len() <= width)
    &&& forall|i: int| 0 <= i < l.sublines.len() ==> widths_within(#[trigger] l.sublines[i], width, cap(level + 1 as int))
}

/// Whether some line of a tree at nesting `level` fills `width` exactly with
/// three columns per level of nesting and its hex.
pub open spec fn reaches(l: SpecLine, width: nat, level: nat) -> bool
    decreases l,
{
    ||| 3 * level + encode_utf8(l.hex).len() == width
    ||| exists|i: int| 0 <= i < l.sublines.len() && reaches(#[trigger] l.sublines[i], width, level + 1)
}

/// The indentation and padded hex that start the text of a line at nesting
/// `level`, before its ` # `.
pub open spec fn hex_part(hex: Seq<char>, width: nat, level: nat) -> Seq<char> {
    blanks(hex_layout(width, level).0) + pad(hex, hex_layout(width, level).1)
}

/// Whether every line of a tree at nesting `level` starts with exactly
/// `width` characters without `#` before its ` # `.
pub open spec fn column_ok(l: SpecLine, width: nat, level: nat) -> bool
    decreases l,
{
    &&& hex_part(l.hex, width, level).len() == width
    &&& forall|j: int| 0 <= j < width ==> #[trigger] hex_part(l.hex, width, level)[j] != '#'
    &&& forall|i: int| 0 <= i < l.sublines.len() ==> column_ok(#[trigger] l.sublines[i], width, cap(level + 1 as int))
}

/// The width of nested lines is at least that of each one that is not
/// empty, with three columns added.
proof fn lemma_sublines_width(s: Seq<SpecLine>, i: int)
    requires
        0 <= i < s.len(),
        line_width(s[i]) > 0,
    ensures
        cap(line_width(s[i]) + 3 as int) <= sublines_width(s),
    decreases s.len(),
{
    if i < s.len() - 1 {
        lemma_sublines_width(s.drop_last(), i);
        assert(s.drop_last()[i] == s[i]);
    }
}

/// A tree of zero width has no hex at all.
proof fn lemma_zero_width(l: SpecLine, width: nat, level: nat)
    requires
        line_width(l) == 0,
    ensures
        widths_within(l, width, level),
    decreases l,
{
    assert forall|i: int| 0 <= i < l.sublines.len() implies widths_within(#[trigger] l.sublines[i], width, cap(level + 1 as int)) by {
        if line_width(l.sublines[i]) > 0 {
            lemma_sublines_width(l.sublines, i);
        }
        lemma_zero_width(l.sublines[i], width, cap(level + 1 as int));
    }
}

/// The lines of a tree fit the width it needs, from its nesting level on.
proof fn lemma_widths_within(l: SpecLine, width: nat, level: nat)
    requires
        line_width(l) < usize::MAX,
        width <= usize::MAX,
        3 * level + line_width(l) <= width,
    ensures
        widths_within(l, width, level),
    decreases l,
{
    assert forall|i: int| 0 <= i < l.sublines.len() implies widths_within(#[trigger] l.sublines[i], width, cap(level + 1 as int)) by {
        let sub = l.sublines[i];
        if line_width(sub) > 0 {
            lemma_sublines_width(l.sublines, i);
            assert(cap(level + 1 as int) == level + 1);
            lemma_widths_within(sub, width, cap(level + 1 as int));
        } else {
            lemma_zero_width(sub, width, cap(level + 1 as int));
        }
    }
}

/// Some line of a tree fills the width it needs.
proof fn lemma_reaches(l: SpecLine, level: nat)
    requires
        line_width(l) < usize::MAX,
    ensures
        line_width(l) == 0 || reaches(l, 3 * level + line_width(l), level),
    decreases l,
{
    let own = encode_utf8(l.hex).len();
    let sub = sublines_width(l.sublines);
    if own < sub {
        lemma_sublines_reach(l.sublines, level);
        let i = choose|i: int| 0 <= i < l.sublines.len() && line_width(l.sublines[i]) > 0
            && cap(line_width(l.sublines[i]) + 3 as int) == sub;
        lemma_sublines_width(l.sublines, i);
        lemma_reaches(l.sublines[i], level + 1);
        assert(reaches(l.sublines[i], 3 * level + line_width(l), level + 1));
    }
}

/// The width of nested lines, where not zero, is that of one of them with
/// three columns added.
proof fn lemma_sublines_reach(s: Seq<SpecLine>, level: nat)
    requires
        sublines_width(s) > 0,
    ensures
        exists|i: int| 0 <= i < s.len() && line_width(#[trigger] s[i]) > 0 && cap(line_width(s[i]) + 3 as int) == sublines_width(s),
    decreases s.len(),
{
    let rest = sublines_width(s.drop_last());
    let w = line_width(s.last());
    let this = if w == 0 { 0 } else { cap(w + 3 as int) };
    if rest >= this {
        lemma_sublines_reach(s.drop_last(), level);
        let i = choose|i: int| 0 <= i < s.drop_last().len() && line_width(#[trigger] s.drop_last()[i]) > 0
            && cap(line_width(s.drop_last()[i]) + 3 as int) == sublines_width(s.drop_last());
        assert(s.drop_last()[i] == s[i]);
    } else {
        assert(line_width(s[s.len() - 1]) > 0);
    }
}

/// Every line of a tree whose hex fits starts with the full hex column.
proof fn lemma_column_ok(l: SpecLine, width: nat, level: nat)
    requires
        plain_hex(l),
        widths_within(l, width, level),
    ensures
        column_ok(l, width, level),
    decreases l,
{
    is_ascii_chars_encode_utf8(l.hex);
    let (indent, w) = hex_layout(width, level);
    let part = hex_part(l.hex, width, level);
    assert(blanks(indent).len() == indent);
    if l.hex.len() < w {
        assert(blanks((w - l.hex.len()) as nat).len() == w - l.hex.len());
    }
    assert(part.len() == width);
    assert forall|j: int| 0 <= j < width implies #[trigger] part[j] != '#' by {
        if j >= indent && j - indent < l.hex.len() {
            assert(part[j] == l.hex[j - indent]);
        }
    }
    assert forall|i: int| 0 <= i < l.sublines.len() implies column_ok(#[trigger] l.sublines[i], width, cap(level + 1 as int)) by {
        lemma_column_ok(l.sublines[i], width, cap(level + 1 as int));
    }
}

/// The hex column of annotated hex. `Line::hex_width` gives `line_width`:
/// every line of the tree whose hex is not empty has three columns per
/// level of nesting and its hex within it, and one of them fills it exactly
/// (unless no line has hex). `Line::merge` gives `merged`, in which each
/// line starts with indentation and padded hex exactly that wide, without
/// `#`, and then ` # ` (see `own_line`): the comments all start in one
/// column. This holds where the hex is ASCII without `#`, as annotated hex
/// always is, and its width fits in memory.
pub proof fn law_hex_column(l: SpecLine)
    requires
        plain_hex(l),
        line_width(l) < usize::MAX,
    ensures
        widths_within(l, line_width(l), 0),
        line_width(l) == 0 || reaches(l, line_width(l), 0),
        column_ok(l, line_width(l), 0),
        merged(l) == own_line(l.hex, l.comment, line_width(l), 0)
            + merged_lines(l.sublines, line_width(l), 1),
{
    lemma_widths_within(l, line_width(l), 0);
    lemma_reaches(l, 0);
    lemma_column_ok(l, line_width(l), 0);
}

/// The number of shareable values (tag 28) in an item, the item itself
/// included.
pub open spec fn shareable_count(x: SpecItem) -> nat
    decreases x, 0nat,
{
    match x {
        SpecItem::Array { data, .. } => items_shareable(data),
        SpecItem::Mapping { data, .. } => pairs_shareable(data),
        SpecItem::Tag { tag, value, .. } => (if tag == 28 { 1nat } else { 0nat }) + shareable_count(*value),
        _ => 0,
    }
}

/// The number of shareable values in a sequence of items.
pub open spec fn items_shareable(s: Seq<SpecItem>) -> nat
    decreases s, 1nat,
{
    if s.len() == 0 { 0 } else { shareable_count(s[0]) + items_shareable(s.skip(1)) }
}

/// The number of shareable values in a sequence of key/value pairs.
pub open spec fn pairs_shareable(s: Seq<(SpecItem, SpecItem)>) -> nat
    decreases s, 1nat,
{
    if s.len() == 0 { 0 } else { shareable_count(s[0].0) + shareable_count(s[0].1) + pairs_shareable(s.skip(1)) }
}

/// Rendering an item counts each shareable value in it once.
proof fn lemma_refs_of(x: SpecItem, enc: Option<Encoding>, refs: u64, bound: nat, ft: FloatTexts)
    requires
        refs + shareable_count(x) <= u64::MAX,
    ensures
        hex_of(x, enc, refs, bound, ft).1 == refs + shareable_count(x),
    decreases bound, x, 0nat,
{
    match x {
        SpecItem::Array { data, .. } => lemma_refs_items(data, enc, refs, bound, ft),
        SpecItem::Mapping { data, .. } => lemma_refs_pairs(data, enc, refs, bound, ft),
        SpecItem::Tag { tag, bitwidth, value } => lemma_refs_tagged(tag, bitwidth, *value, enc, refs, bound, ft),
        _ => {},
    }
}

/// Rendering items counts each shareable value in them once.
proof fn lemma_refs_items(s: Seq<SpecItem>, enc: Option<Encoding>, refs: u64, bound: nat, ft: FloatTexts)
    requires
        refs + items_shareable(s) <= u64::MAX,
    ensures
        hex_items(s, enc, refs, bound, ft).1 == refs + items_shareable(s),
    decreases bound, s, 1nat,
{
    if s.len() > 0 {
        lemma_refs_of(s[0], enc, refs, bound, ft);
        let r1 = hex_of(s[0], enc, refs, bound, ft).1;
        lemma_refs_items(s.skip(1), enc, r1, bound, ft);
    }
}

/// Rendering key/value pairs counts each shareable value in them once.
proof fn lemma_refs_pairs(s: Seq<(SpecItem, SpecItem)>, enc: Option<Encoding>, refs: u64, bound: nat, ft: FloatTexts)
    requires
        refs + pairs_shareable(s) <= u64::MAX,
    ensures
        hex_pairs(s, enc, refs, bound, ft).1 == refs + pairs_shareable(s),
    decreases bound, s, 1nat,
{
    if s.len() > 0 {
        lemma_refs_of(s[0].0, enc, refs, bound, ft);
        let r1 = hex_of(s[0].0, enc, refs, bound, ft).1;
        lemma_refs_of(s[0].1, enc, r1, bound, ft);
        let r2 = hex_of(s[0].1, enc, r1, bound, ft).1;
        lemma_refs_pairs(s.skip(1), enc, r2, bound, ft);
    }
}

/// Rendering a tagged item counts each shareable value in it once.
proof fn lemma_refs_tagged(tag: u64, bitwidth: IntegerWidth, v: SpecItem, enc: Option<Encoding>, refs: u64, bound: nat, ft: FloatTexts)
    requires
        refs + (if tag == 28 { 1nat } else { 0nat }) + shareable_count(v) <= u64::MAX,
    ensures
        tagged_hex(tag, bitwidth, v, enc, refs, bound, ft).1 == refs + (if tag == 28 { 1nat } else { 0nat }) + shareable_count(v),
    decreases bound, v, 3nat,
{
    let r1 = tag_extra(tag, v, refs, bound, ft).1;
    assert(r1 == refs + (if tag == 28 { 1nat } else { 0nat }));
    if is_typed_array(tag) {
        match v {
            SpecItem::ByteString(b) => {
                if b.data.len() % typed_size(tag) != 0 {
                    lemma_refs_of(v, enc, r1, bound, ft);
                }
            },
            _ => lemma_refs_of(v, enc, r1, bound, ft),
        }
    } else {
        let enc2 = if tag == 21 {
            Some(Encoding::Base64Url)
        } else if tag == 22 {
            Some(Encoding::Base64)
        } else if tag == 23 || tag == 260 || tag == 37 || tag == 52 || tag == 54 {
            Some(Encoding::Base16)
        } else {
            enc
        };
        lemma_refs_of(v, enc2, r1, bound, ft);
    }
}

/// The shareable-value counter. Rendering an item as annotated hex raises the
/// count of shareable values (which `Context::reference_count` holds, and
/// which numbers the values a shared reference can point to) by exactly the
/// number of values tagged 28 in it, itself included, wherever the count
/// stays within a `u64`. The line of a tagged item ends its comment with
/// `tag(N)`.
pub proof fn law_shareable_count(x: SpecItem, enc: Option<Encoding>, refs: u64, bound: nat, ft: FloatTexts)
    requires
        refs + shareable_count(x) <= u64::MAX,
    ensures
        hex_of(x, enc, refs, bound, ft).1 == refs + shareable_count(x),
        x matches SpecItem::Tag { tag, .. } ==> exists|p: Seq<char>|
            hex_of(x, enc, refs, bound, ft).0.comment == p + "tag("@ + decimal(tag as nat) + ")"@,
{
    lemma_refs_of(x, enc, refs, bound, ft);
    if let SpecItem::Tag { tag, bitwidth, value } = x {
        lemma_tagged_comment(tag, bitwidth, *value, enc, refs, bound, ft);
        lemma_tag_comment(tag);
    }
}

/// The comment of a tagged item's line is that of its tag.
proof fn lemma_tagged_comment(tag: u64, bitwidth: IntegerWidth, v: SpecItem, enc: Option<Encoding>, refs: u64, bound: nat, ft: FloatTexts)
    ensures
        hex_of(SpecItem::Tag { tag, bitwidth, value: Box::new(v) }, enc, refs, bound, ft).0.comment
            == crate::encode::hex::tag_comment(tag),
{
    reveal_with_fuel(hex_of, 1);
}

/// The comment of a tag ends with its number.
proof fn lemma_tag_comment(tag: u64)
    ensures
        exists|p: Seq<char>| crate::encode::hex::tag_comment(tag) == p + "tag("@ + decimal(tag as nat) + ")"@,
{
    let c = crate::encode::hex::tag_comment(tag);
    reveal_strlit(", tag(");
    reveal_strlit("tag(");
    reveal_strlit(", ");
    reveal_strlit(")");
    match crate::encode::hex::tag_description(tag) {
        Some(d) => {
            assert(c =~= (d + ", "@) + "tag("@ + decimal(tag as nat) + ")"@);
        },
        None => {
            assert(c =~= Seq::<char>::empty() + "tag("@ + decimal(tag as nat) + ")"@);
        },
    }
}

} // verus!
