//! Rendering data items as annotated hex: the encoded bytes in hexadecimal,
//! each head on a line of its own with a comment saying what it encodes.
use vstd::prelude::*;
use vstd::utf8::encode_utf8;

use super::annotate::{
    address_line, base64_line, big_value, date_epoch_line, datetime_epoch_line, epoch_date_line,
    epoch_datetime_line, fraction_line, negative_bignum_line, network_address_line, note,
    positive_bignum_line, separated, separated_i128, separated_u64, shareable_line,
    shared_ref_line, uri_line, uuid_line,
};
use crate::parse::binary::{Parsed, incomplete_message, invalid_message, parse_item, remaining_message};
use super::Encoding;
use crate::codecs::{base64_encode, base64_text, base64url_nopad_encode, hex_digit, hex_lower, hexlower_encode};
use crate::syntax::{ByteString, SpecBytes, SpecItem, SpecText, TextString};
use crate::float::{classify, is_infinite, is_nan, is_sign_negative, FloatText};
use crate::syntax::{FloatWidth, IntegerWidth, Simple};
use crate::text::{decimal, owned, push_chars, push_decimal, push_str, string_from_chars};

verus! {

broadcast use vstd::string::group_string_axioms;

/// The model of a line of annotated hex: its hex text, its comment and the
/// lines nested under it.
#[verifier::ext_equal]
pub struct SpecLine {
    pub hex: Seq<char>,
    pub comment: Seq<char>,
    pub sublines: Seq<SpecLine>,
}

/// A line of annotated hex with the lines nested under it.
pub struct Line {
    pub hex: String,
    pub comment: String,
    pub sublines: Vec<Line>,
}

/// The models of a sequence of lines.
pub open spec fn lines_view(s: Seq<Line>) -> Seq<SpecLine>
    decreases s,
{
    if s.len() == 0 {
        Seq::empty()
    } else {
        lines_view(s.drop_last()).push(s.last().view_line())
    }
}

impl Line {
    /// The model of this line.
    pub open spec fn view_line(&self) -> SpecLine
        decreases self,
    {
        SpecLine { hex: self.hex@, comment: self.comment@, sublines: lines_view(self.sublines@) }
    }
}

impl View for Line {
    type V = SpecLine;

    open spec fn view(&self) -> SpecLine {
        self.view_line()
    }
}

/// `lines_view` has one model per line, in order.
pub proof fn lemma_lines_view(s: Seq<Line>)
    ensures
        lines_view(s).len() == s.len(),
        forall|i: int| 0 <= i < s.len() ==> #[trigger] lines_view(s)[i] == s[i].view_line(),
    decreases s.len(),
{
    if s.len() > 0 {
        lemma_lines_view(s.drop_last());
    }
}

/// The models of a sequence of lines after one more line.
pub proof fn lemma_lines_view_push(s: Seq<Line>, l: Line)
    ensures
        lines_view(s.push(l)) == lines_view(s).push(l@),
{
    assert(s.push(l).drop_last() =~= s);
}

/// A line without nested lines.
pub open spec fn leaf(hex: Seq<char>, comment: Seq<char>) -> SpecLine {
    SpecLine { hex, comment, sublines: Seq::empty() }
}

/// `n` spaces.
pub open spec fn blanks(n: nat) -> Seq<char> {
    Seq::new(n, |i: int| ' ')
}

/// `n` capped at `usize::MAX`.
pub open spec fn cap(n: int) -> nat {
    if n > usize::MAX {
        usize::MAX as nat
    } else if n < 0 {
        0
    } else {
        n as nat
    }
}

/// The width of the hex column a line and its nested lines need: the byte
/// length of its own hex, or the width of a nested line and the three
/// columns that nesting indents it by.
pub open spec fn line_width(l: SpecLine) -> nat
    decreases l, 1nat,
{
    let own = encode_utf8(l.hex).len();
    let sub = sublines_width(l.sublines);
    if own >= sub { own } else { sub }
}

/// The widest of a sequence of nested lines, three columns added to each
/// that is not empty.
pub open spec fn sublines_width(s: Seq<SpecLine>) -> nat
    decreases s, 0nat,
{
    if s.len() == 0 {
        0
    } else {
        let rest = sublines_width(s.drop_last());
        let w = line_width(s.last());
        let this = if w == 0 { 0 } else { cap(w + 3 as int) };
        if rest >= this { rest } else { this }
    }
}

/// `s` padded with spaces on the right to `width` characters.
pub open spec fn pad(s: Seq<char>, width: nat) -> Seq<char> {
    if s.len() < width { s + blanks((width - s.len()) as nat) } else { s }
}

/// The indentation of the hex and its padded width on a line at nesting
/// `level`, when the hex column of the outermost line is `width` wide.
pub open spec fn hex_layout(width: nat, level: nat) -> (nat, nat) {
    let shift = cap(3 * level as int);
    if shift <= width { (shift, (width - shift) as nat) } else { (width, 0) }
}

/// A line and its nested lines as text, at nesting `level`, when the hex
/// column of the outermost line is `width` wide.
pub open spec fn merged_line(l: SpecLine, width: nat, level: nat) -> Seq<char>
    decreases l, 1nat,
{
    own_line(l.hex, l.comment, width, level) + merged_lines(l.sublines, width, cap(level + 1 as int))
}

/// The text of a line itself, without its nested lines.
pub open spec fn own_line(hex: Seq<char>, comment: Seq<char>, width: nat, level: nat) -> Seq<char> {
    let (hex_indent, hex_width) = hex_layout(width, level);
    blanks(hex_indent) + pad(hex, hex_width) + seq![' ', '#', ' '] + blanks(cap(2 * level as int)) + comment + seq!['\n']
}

/// A sequence of lines as text.
pub open spec fn merged_lines(s: Seq<SpecLine>, width: nat, level: nat) -> Seq<char>
    decreases s, 0nat,
{
    if s.len() == 0 {
        Seq::empty()
    } else {
        merged_lines(s.drop_last(), width, level) + merged_line(s.last(), width, level)
    }
}

/// A line and its nested lines as text, with the hex column as wide as
/// they need.
pub open spec fn merged(l: SpecLine) -> Seq<char> {
    merged_line(l, line_width(l), 0)
}

/// Appends `n` spaces.
pub fn push_blanks(out: &mut Vec<char>, n: usize)
    ensures
        final(out)@ == old(out)@ + blanks(n as nat),
{
    let ghost start = out@;
    let mut i: usize = 0;
    assert(start + blanks(0) =~= start);
    while i < n
        invariant
            i <= n,
            start == old(out)@,
            out@ == start + blanks(i as nat),
        decreases n - i,
    {
        out.push(' ');
        i = i + 1;
        assert(start + blanks(i as nat) =~= (start + blanks((i - 1) as nat)).push(' '));
    }
}

/// `a * k` capped at `usize::MAX`.
fn saturating_times(a: usize, k: usize) -> (r: usize)
    ensures
        r == cap(a * k),
{
    match a.checked_mul(k) {
        Some(r) => r,
        None => usize::MAX,
    }
}

/// The widest of a sequence of lines, three columns added to each that is
/// not empty.
pub(crate) fn sublines_hex_width(lines: &[Line]) -> (w: usize)
    ensures
        w == sublines_width(lines_view(lines@)),
    decreases lines@, 0nat,
{
    proof { lemma_lines_view(lines@); }
    let mut w: usize = 0;
    let mut i: usize = 0;
    while i < lines.len()
        invariant
            i <= lines@.len(),
            lines_view(lines@).len() == lines@.len(),
            forall|j: int| 0 <= j < lines@.len() ==> #[trigger] lines_view(lines@)[j] == lines@[j]@,
            w == sublines_width(lines_view(lines@).take(i as int)),
        decreases lines@.len() - i,
    {
        let sub = lines[i].hex_width();
        let this = if sub == 0 { 0 } else { sub.saturating_add(3) };
        if this > w {
            w = this;
        }
        i = i + 1;
        assert(lines_view(lines@).take(i as int).drop_last() =~= lines_view(lines@).take(i - 1));
    }
    assert(lines_view(lines@).take(lines@.len() as int) =~= lines_view(lines@));
    w
}

impl Line {
    /// A line without nested lines.
    pub fn new(hex: String, comment: String) -> (l: Line)
        ensures
            l@ == leaf(hex@, comment@),
    {
        let l = Line { hex, comment, sublines: Vec::new() };
        assert(l@.sublines =~= Seq::<SpecLine>::empty());
        l
    }

    /// Appends a nested line.
    pub fn push(&mut self, line: Line)
        ensures
            final(self)@ == (SpecLine { sublines: old(self)@.sublines.push(line@), ..old(self)@ }),
    {
        proof { lemma_lines_view_push(self.sublines@, line); }
        self.sublines.push(line);
    }

    /// The width of the hex column this line and its nested lines need.
    pub fn hex_width(&self) -> (w: usize)
        ensures
            w == line_width(self@),
        decreases self, 1nat,
    {
        let own = self.hex.as_str().as_bytes().len();
        let sub = sublines_hex_width(self.sublines.as_slice());
        if own >= sub { own } else { sub }
    }

    /// Appends this line and its nested lines as text at nesting
    /// `indent_level`, when the hex column of the outermost line is
    /// `hex_width` wide.
    pub fn do_merge(&self, hex_width: usize, indent_level: usize, output: &mut Vec<char>)
        ensures
            final(output)@ == old(output)@ + merged_line(self@, hex_width as nat, indent_level as nat),
        decreases self, 1nat,
    {
        push_own_line(&self.hex, &self.comment, hex_width, indent_level, output);
        merge_sublines(self.sublines.as_slice(), hex_width, indent_level.saturating_add(1), output);
    }

    /// This line and its nested lines as text, with the hex column as wide
    /// as they need.
    pub fn merge(&self) -> (s: String)
        ensures
            s@ == merged(self@),
    {
        let width = self.hex_width();
        let mut output: Vec<char> = Vec::new();
        self.do_merge(width, 0, &mut output);
        string_from_chars(output.as_slice())
    }
}

/// Appends the text of a line itself.
pub(crate) fn push_own_line(hex: &String, comment: &String, hex_width: usize, indent_level: usize, output: &mut Vec<char>)
    ensures
        final(output)@ == old(output)@ + own_line(hex@, comment@, hex_width as nat, indent_level as nat),
{
    let shift = saturating_times(indent_level, 3);
    let (hex_indent, width) = if shift <= hex_width {
        (shift, hex_width - shift)
    } else {
        (hex_width, 0)
    };
    let ghost start = output@;
    push_blanks(output, hex_indent);
    let ghost a = output@;
    let chars = crate::text::chars_of(hex.as_str());
    push_chars(output, chars.as_slice());
    if chars.len() < width {
        push_blanks(output, width - chars.len());
    }
    let ghost b = output@;
    assert(b =~= a + pad(hex@, width as nat));
    push_str(output, " # ");
    proof {
        reveal_strlit(" # ");
    }
    push_blanks(output, saturating_times(indent_level, 2));
    push_str(output, comment.as_str());
    output.push('\n');
    assert(output@ =~= start + blanks(hex_indent as nat) + pad(hex@, width as nat) + seq![' ', '#', ' ']
        + blanks(cap(2 * indent_level as int)) + comment@ + seq!['\n']);
}

/// Appends a sequence of lines as text.
fn merge_sublines(lines: &[Line], hex_width: usize, indent_level: usize, output: &mut Vec<char>)
    ensures
        final(output)@ == old(output)@ + merged_lines(lines_view(lines@), hex_width as nat, indent_level as nat),
    decreases lines@, 0nat,
{
    proof { lemma_lines_view(lines@); }
    let ghost start = output@;
    let mut i: usize = 0;
    assert(start + Seq::<char>::empty() =~= start);
    while i < lines.len()
        invariant
            i <= lines@.len(),
            lines_view(lines@).len() == lines@.len(),
            forall|j: int| 0 <= j < lines@.len() ==> #[trigger] lines_view(lines@)[j] == lines@[j]@,
            output@ == start + merged_lines(lines_view(lines@).take(i as int), hex_width as nat, indent_level as nat),
        decreases lines@.len() - i,
    {
        lines[i].do_merge(hex_width, indent_level, output);
        i = i + 1;
        assert(lines_view(lines@).take(i as int).drop_last() =~= lines_view(lines@).take(i - 1));
        assert(output@ =~= start + merged_lines(lines_view(lines@).take(i as int), hex_width as nat, indent_level as nat));
    }
    assert(lines_view(lines@).take(lines@.len() as int) =~= lines_view(lines@));
}


/// Lowercase hexadecimal digits of a number, without leading zeros.
pub open spec fn hex_digits(n: nat) -> Seq<char>
    decreases n,
{
    if n < 16 {
        seq![hex_digit(n as u8)]
    } else {
        hex_digits(n / 16) + seq![hex_digit((n % 16) as u8)]
    }
}

/// Lowercase hexadecimal digits of a number, padded with zeros on the left
/// to at least `width` digits.
pub open spec fn hex_number(n: nat, width: nat) -> Seq<char> {
    let d = hex_digits(n);
    if d.len() < width { Seq::new((width - d.len()) as nat, |i: int| '0') + d } else { d }
}

fn hex_digit_char(d: u128) -> (c: char)
    requires
        d < 16,
    ensures
        c == hex_digit(d as u8),
{
    if d < 10 {
        ((48 + d) as u8) as char
    } else {
        ((97 + d - 10) as u8) as char
    }
}

pub(crate) fn hex_digit_chars(n: u128) -> (v: Vec<char>)
    ensures
        v@ == hex_digits(n as nat),
    decreases n,
{
    if n < 16 {
        let mut v: Vec<char> = Vec::new();
        v.push(hex_digit_char(n));
        assert(v@ =~= hex_digits(n as nat));
        v
    } else {
        let mut v = hex_digit_chars(n / 16);
        v.push(hex_digit_char(n % 16));
        v
    }
}

/// Appends `n` in lowercase hexadecimal, padded with zeros to at least
/// `width` digits.
pub fn push_hex(out: &mut Vec<char>, n: u128, width: usize)
    ensures
        final(out)@ == old(out)@ + hex_number(n as nat, width as nat),
{
    let digits = hex_digit_chars(n);
    let ghost start = out@;
    if digits.len() < width {
        let zeros = width - digits.len();
        let mut i: usize = 0;
        while i < zeros
            invariant
                i <= zeros,
                out@ == start + Seq::new(i as nat, |k: int| '0'),
            decreases zeros - i,
        {
            out.push('0');
            i = i + 1;
            assert(start + Seq::new(i as nat, |k: int| '0') =~= (start + Seq::new((i - 1) as nat, |k: int| '0')).push('0'));
        }
    } else {
        assert(start + Seq::<char>::empty() =~= start);
    }
    push_chars(out, digits.as_slice());
    assert(out@ =~= start + hex_number(n as nat, width as nat));
}

/// The width an integer without one is shown with: the shortest that holds it.
pub open spec fn value_width(value: u64) -> IntegerWidth {
    if value < 24 {
        IntegerWidth::Zero
    } else if value <= 0xff {
        IntegerWidth::Eight
    } else if value <= 0xffff {
        IntegerWidth::Sixteen
    } else if value <= 0xffff_ffff {
        IntegerWidth::ThirtyTwo
    } else {
        IntegerWidth::SixtyFour
    }
}

/// The width a length or tag number without one is shown with; a number
/// equal to the largest of a width's range is shown with the next width.
pub open spec fn count_width(n: nat) -> IntegerWidth {
    if n < 24 {
        IntegerWidth::Zero
    } else if n < 0xff {
        IntegerWidth::Eight
    } else if n < 0xffff {
        IntegerWidth::Sixteen
    } else if n < 0xffff_ffff {
        IntegerWidth::ThirtyTwo
    } else {
        IntegerWidth::SixtyFour
    }
}

/// The hex of a head: the initial byte of major type `major` and the
/// argument `value` in the bytes of width `w` (not `Unknown`).
pub open spec fn head_hex(major: nat, value: nat, w: IntegerWidth) -> Seq<char> {
    match w {
        IntegerWidth::Eight => hex_number(major * 32 + 24, 2) + seq![' '] + hex_number(value, 2),
        IntegerWidth::Sixteen => hex_number(major * 32 + 25, 2) + seq![' '] + hex_number(value, 4),
        IntegerWidth::ThirtyTwo => hex_number(major * 32 + 26, 2) + seq![' '] + hex_number(value, 8),
        IntegerWidth::SixtyFour => hex_number(major * 32 + 27, 2) + seq![' '] + hex_number(value, 16),
        _ => hex_number(major * 32 + value, 2),
    }
}

/// The line of an unsigned integer.
pub open spec fn integer_line(value: u64, w: IntegerWidth) -> SpecLine {
    let w = if w == IntegerWidth::Unknown { value_width(value) } else { w };
    leaf(head_hex(0, value as nat, w), "unsigned("@ + separated(value as int) + seq![')'])
}

/// The line of the negative integer `-1 - value`.
pub open spec fn negative_line(value: u64, w: IntegerWidth) -> SpecLine {
    let w = if w == IntegerWidth::Unknown { value_width(value) } else { w };
    leaf(head_hex(1, value as nat, w), "negative("@ + separated(-1 - value) + seq![')'])
}

/// The hex of the head of a string, array or map of length `len`, or of
/// indefinite length when `bitwidth` is `None`.
pub open spec fn length_hex(len: nat, bitwidth: Option<IntegerWidth>, major: u8) -> Seq<char> {
    match bitwidth {
        None => hex_number(major as nat * 32 + 31, 2),
        Some(w) => {
            let w = if w == IntegerWidth::Unknown { count_width(len) } else { w };
            if w == IntegerWidth::Zero {
                hex_number(((len % 256) + major as nat * 32) % 256, 2)
            } else {
                head_hex(major as nat, len, w)
            }
        },
    }
}

/// The line of the head of a string, array or map.
pub open spec fn length_line(len: nat, bitwidth: Option<IntegerWidth>, major: u8, kind: Seq<char>) -> SpecLine {
    leaf(
        length_hex(len, bitwidth, major),
        kind + seq!['('] + (if bitwidth is Some { decimal(len) } else { seq!['*'] }) + seq![')'],
    )
}

/// The line of a floating point value given by its bit pattern.
pub open spec fn float_line(value: u64, w: FloatWidth, ft: spec_fn(u64, FloatWidth, FloatText) -> Seq<char>) -> SpecLine {
    leaf(
        match w {
            FloatWidth::Sixteen => "f9 "@ + hex_number((value % 0x1_0000) as nat, 4),
            FloatWidth::ThirtyTwo => "fa "@ + hex_number((value % 0x1_0000_0000) as nat, 8),
            _ => "fb "@ + hex_number(value as nat, 16),
        },
        "float("@ + (if is_nan(value, w) {
            "NaN"@
        } else if is_infinite(value, w) {
            if is_sign_negative(value, w) { "-Infinity"@ } else { "Infinity"@ }
        } else {
            ft(value, w, FloatText::Annotation)
        }) + seq![')'],
    )
}

/// What a simple value is, followed by a comma and a space.
pub open spec fn simple_kind(value: u8) -> Seq<char> {
    if value == 20 {
        "false, "@
    } else if value == 21 {
        "true, "@
    } else if value == 22 {
        "null, "@
    } else if value == 23 {
        "undefined, "@
    } else if 24 <= value <= 32 {
        "reserved, "@
    } else {
        "unassigned, "@
    }
}

/// The line of a simple value.
pub open spec fn simple_line(value: u8) -> SpecLine {
    leaf(
        if value < 24 { hex_number(0xe0 + value as nat, 2) } else { "f8 "@ + hex_number(value as nat, 2) },
        simple_kind(value) + "simple("@ + decimal(value as nat) + seq![')'],
    )
}

/// Appends the hex of a head (see `head_hex`).
pub(crate) fn push_head_hex(out: &mut Vec<char>, major: u8, value: u128, w: IntegerWidth)
    requires
        major < 8,
        w != IntegerWidth::Zero,
        w != IntegerWidth::Unknown,
    ensures
        final(out)@ == old(out)@ + head_hex(major as nat, value as nat, w),
{
    let ghost start = out@;
    let m = major as u128 * 32;
    match w {
        IntegerWidth::Eight => {
            push_hex(out, m + 24, 2);
            out.push(' ');
            push_hex(out, value, 2);
        },
        IntegerWidth::Sixteen => {
            push_hex(out, m + 25, 2);
            out.push(' ');
            push_hex(out, value, 4);
        },
        IntegerWidth::ThirtyTwo => {
            push_hex(out, m + 26, 2);
            out.push(' ');
            push_hex(out, value, 8);
        },
        _ => {
            push_hex(out, m + 27, 2);
            out.push(' ');
            push_hex(out, value, 16);
        },
    }
    assert(out@ =~= start + head_hex(major as nat, value as nat, w));
}

/// The width an integer without one is shown with.
fn value_width_of(value: u64) -> (w: IntegerWidth)
    ensures
        w == value_width(value),
{
    if value < 24 {
        IntegerWidth::Zero
    } else if value <= 0xff {
        IntegerWidth::Eight
    } else if value <= 0xffff {
        IntegerWidth::Sixteen
    } else if value <= 0xffff_ffff {
        IntegerWidth::ThirtyTwo
    } else {
        IntegerWidth::SixtyFour
    }
}

/// The width a length or tag number without one is shown with.
pub(crate) fn count_width_of(n: u64) -> (w: IntegerWidth)
    ensures
        w == count_width(n as nat),
{
    if n < 24 {
        IntegerWidth::Zero
    } else if n < 0xff {
        IntegerWidth::Eight
    } else if n < 0xffff {
        IntegerWidth::Sixteen
    } else if n < 0xffff_ffff {
        IntegerWidth::ThirtyTwo
    } else {
        IntegerWidth::SixtyFour
    }
}

pub(crate) fn is_unknown(w: IntegerWidth) -> (b: bool)
    ensures
        b == (w == IntegerWidth::Unknown),
{
    match w {
        IntegerWidth::Unknown => true,
        _ => false,
    }
}

/// A line from its text.
fn leaf_line(hex: Vec<char>, comment: Vec<char>) -> (l: Line)
    ensures
        l@ == leaf(hex@, comment@),
{
    Line::new(string_from_chars(hex.as_slice()), string_from_chars(comment.as_slice()))
}

/// The line of an unsigned integer.
pub fn integer_to_hex(value: u64, bitwidth: IntegerWidth) -> (l: Line)
    ensures
        l@ == integer_line(value, bitwidth),
{
    let w = if is_unknown(bitwidth) { value_width_of(value) } else { bitwidth };
    let mut hex: Vec<char> = Vec::new();
    if let IntegerWidth::Zero = w {
        push_hex(&mut hex, value as u128, 2);
        assert(hex@ =~= head_hex(0, value as nat, w));
    } else {
        push_head_hex(&mut hex, 0, value as u128, w);
    }
    let mut comment: Vec<char> = Vec::new();
    push_str(&mut comment, "unsigned(");
    push_str(&mut comment, separated_u64(value).as_str());
    comment.push(')');
    assert(comment@ =~= "unsigned("@ + separated(value as int) + seq![')']);
    leaf_line(hex, comment)
}

/// The line of the negative integer `-1 - value`.
pub fn negative_to_hex(value: u64, bitwidth: IntegerWidth) -> (l: Line)
    ensures
        l@ == negative_line(value, bitwidth),
{
    let w = if is_unknown(bitwidth) { value_width_of(value) } else { bitwidth };
    let mut hex: Vec<char> = Vec::new();
    if let IntegerWidth::Zero = w {
        push_hex(&mut hex, value as u128 + 0x20, 2);
        assert(hex@ =~= head_hex(1, value as nat, w));
    } else {
        push_head_hex(&mut hex, 1, value as u128, w);
    }
    let mut comment: Vec<char> = Vec::new();
    push_str(&mut comment, "negative(");
    push_str(&mut comment, separated_i128(-1 - value as i128).as_str());
    comment.push(')');
    assert(comment@ =~= "negative("@ + separated(-1 - value) + seq![')']);
    leaf_line(hex, comment)
}

/// The line of the head of a string, array or map: its length, or `None`
/// with a `None` width for the indefinite length form.
pub fn length_to_hex(length: Option<usize>, bitwidth: Option<IntegerWidth>, major: u8, kind: &str) -> (l: Line)
    requires
        major < 8,
        bitwidth is Some ==> length is Some,
    ensures
        l@ == length_line(
            match length { Some(n) => n as nat, None => 0 },
            bitwidth,
            major,
            kind@,
        ),
{
    let len: usize = match length {
        Some(n) => n,
        None => 0,
    };
    let mut hex: Vec<char> = Vec::new();
    match bitwidth {
        None => push_hex(&mut hex, major as u128 * 32 + 31, 2),
        Some(w) => {
            let w = if is_unknown(w) { count_width_of(len as u64) } else { w };
            if let IntegerWidth::Zero = w {
                push_hex(&mut hex, (((len % 256) as u128) + major as u128 * 32) % 256, 2);
            } else {
                push_head_hex(&mut hex, major, len as u128, w);
            }
        },
    }
    let mut comment: Vec<char> = Vec::new();
    push_str(&mut comment, kind);
    comment.push('(');
    if bitwidth.is_some() {
        push_decimal(&mut comment, len as u128);
    } else {
        comment.push('*');
    }
    comment.push(')');
    assert(comment@ =~= kind@ + seq!['('] + (if bitwidth is Some { decimal(len as nat) } else { seq!['*'] }) + seq![')']);
    leaf_line(hex, comment)
}

/// The line of a floating point value given by its bit pattern; `f` gives
/// the text of finite values.
pub fn float_to_hex<F: Fn(u64, FloatWidth, FloatText) -> String>(value: u64, bitwidth: FloatWidth, f: &F) -> (l: Line)
    requires
        crate::float::callable(f),
    ensures
        forall|ft: spec_fn(u64, FloatWidth, FloatText) -> Seq<char>| #[trigger] crate::float::renders(f, ft)
            ==> l@ == float_line(value, bitwidth, ft),
{
    let mut hex: Vec<char> = Vec::new();
    match bitwidth {
        FloatWidth::Sixteen => {
            push_str(&mut hex, "f9 ");
            push_hex(&mut hex, (value % 0x1_0000) as u128, 4);
        },
        FloatWidth::ThirtyTwo => {
            push_str(&mut hex, "fa ");
            push_hex(&mut hex, (value % 0x1_0000_0000) as u128, 8);
        },
        _ => {
            push_str(&mut hex, "fb ");
            push_hex(&mut hex, value as u128, 16);
        },
    }
    let (nan, infinite, negative) = classify(value, bitwidth);
    let text = if nan {
        owned("NaN")
    } else if infinite {
        if negative { owned("-Infinity") } else { owned("Infinity") }
    } else {
        f(value, bitwidth, FloatText::Annotation)
    };
    let mut comment: Vec<char> = Vec::new();
    push_str(&mut comment, "float(");
    push_str(&mut comment, text.as_str());
    comment.push(')');
    let l = leaf_line(hex, comment);
    assert forall|ft: spec_fn(u64, FloatWidth, FloatText) -> Seq<char>| #[trigger] crate::float::renders(f, ft)
        implies l@ == float_line(value, bitwidth, ft) by {
        assert(l@.comment =~= float_line(value, bitwidth, ft).comment);
        assert(l@.hex =~= float_line(value, bitwidth, ft).hex);
    }
    l
}

/// The line of a simple value.
pub fn simple_to_hex(simple: Simple) -> (l: Line)
    ensures
        l@ == simple_line(simple.0),
{
    let value = simple.0;
    let mut hex: Vec<char> = Vec::new();
    if value < 24 {
        push_hex(&mut hex, 0xe0 + value as u128, 2);
    } else {
        push_str(&mut hex, "f8 ");
        push_hex(&mut hex, value as u128, 2);
    }
    let mut comment: Vec<char> = Vec::new();
    if value == Simple::FALSE {
        push_str(&mut comment, "false, ");
    } else if value == Simple::TRUE {
        push_str(&mut comment, "true, ");
    } else if value == Simple::NULL {
        push_str(&mut comment, "null, ");
    } else if value == Simple::UNDEFINED {
        push_str(&mut comment, "undefined, ");
    } else if 24 <= value && value <= 32 {
        push_str(&mut comment, "reserved, ");
    } else {
        push_str(&mut comment, "unassigned, ");
    }
    let ghost kind = comment@;
    assert(kind == simple_kind(value));
    push_str(&mut comment, "simple(");
    push_decimal(&mut comment, value as u128);
    comment.push(')');
    assert(comment@ =~= simple_kind(value) + "simple("@ + decimal(value as nat) + seq![')']);
    leaf_line(hex, comment)
}


/// How `std::ascii::escape_default` writes a byte.
pub open spec fn ascii_escape(b: u8) -> Seq<char> {
    if b == 9 {
        seq!['\\', 't']
    } else if b == 13 {
        seq!['\\', 'r']
    } else if b == 10 {
        seq!['\\', 'n']
    } else if b == 92 || b == 39 || b == 34 {
        seq!['\\', b as char]
    } else if 0x20 <= b <= 0x7e {
        seq![b as char]
    } else {
        seq!['\\', 'x', hex_digit(b / 16), hex_digit(b % 16)]
    }
}

/// Bytes with each one escaped as by `std::ascii::escape_default`.
pub open spec fn ascii_escaped(s: Seq<u8>) -> Seq<char>
    decreases s.len(),
{
    if s.len() == 0 {
        Seq::empty()
    } else {
        ascii_escaped(s.drop_last()) + ascii_escape(s.last())
    }
}

/// The comment on a line of at most sixteen bytes of a byte string: the
/// whole byte string in base64 for those encodings, the chunk in base16,
/// and without an encoding the chunk as an escaped string.
pub open spec fn bytes_comment(encoding: Option<Encoding>, data: Seq<u8>, chunk: Seq<u8>) -> Seq<char> {
    match encoding {
        Some(Encoding::Base64Url) => "b64'"@ + base64_text(data, true, false) + seq!['\''],
        Some(Encoding::Base64) => "b64'"@ + base64_text(data, false, true) + seq!['\''],
        Some(Encoding::Base16) => "h'"@ + hex_lower(chunk) + seq!['\''],
        None => seq!['"'] + ascii_escaped(chunk) + seq!['"'],
    }
}

/// Chunk `i` of sixteen bytes (the last may be shorter).
pub open spec fn chunk16(data: Seq<u8>, i: int) -> Seq<u8> {
    data.subrange(16 * i, if 16 * i + 16 <= data.len() { 16 * i + 16 } else { data.len() as int })
}

/// The number of chunks of sixteen bytes.
pub open spec fn chunk16_count(data: Seq<u8>) -> nat {
    ((data.len() + 15) / 16) as nat
}

/// The lines of the data of a byte string, sixteen bytes to a line.
pub open spec fn bytes_lines(encoding: Option<Encoding>, data: Seq<u8>) -> Seq<SpecLine> {
    Seq::new(chunk16_count(data), |i: int| leaf(hex_lower(chunk16(data, i)), bytes_comment(encoding, data, chunk16(data, i))))
}

/// A line with the given nested lines.
pub open spec fn with_sublines(l: SpecLine, sublines: Seq<SpecLine>) -> SpecLine {
    SpecLine { sublines, ..l }
}

/// The line of an empty string's data.
pub open spec fn empty_string_line() -> SpecLine {
    leaf(Seq::empty(), seq!['"', '"'])
}

/// The line of a byte string and the lines of its data.
pub open spec fn bytestring_line(encoding: Option<Encoding>, b: SpecBytes) -> SpecLine {
    with_sublines(
        length_line(b.data.len(), Some(b.bitwidth), 2, "bytes"@),
        if b.data.len() == 0 { seq![empty_string_line()] } else { bytes_lines(encoding, b.data) },
    )
}

/// Appends the escaped text of a byte (see `ascii_escape`).
fn push_ascii_escape(out: &mut Vec<char>, b: u8)
    ensures
        final(out)@ == old(out)@ + ascii_escape(b),
{
    let ghost start = out@;
    if b == 9 {
        out.push('\\');
        out.push('t');
    } else if b == 13 {
        out.push('\\');
        out.push('r');
    } else if b == 10 {
        out.push('\\');
        out.push('n');
    } else if b == 92 || b == 39 || b == 34 {
        out.push('\\');
        out.push(b as char);
    } else if 0x20 <= b && b <= 0x7e {
        out.push(b as char);
    } else {
        out.push('\\');
        out.push('x');
        out.push(hex_digit_char((b / 16) as u128));
        out.push(hex_digit_char((b % 16) as u128));
    }
    assert(out@ =~= start + ascii_escape(b));
}

/// The comment on a line of a chunk of a byte string.
fn bytes_comment_of(encoding: Option<Encoding>, data: &[u8], chunk: &[u8]) -> (s: String)
    ensures
        s@ == bytes_comment(encoding, data@, chunk@),
{
    let mut out: Vec<char> = Vec::new();
    match encoding {
        Some(Encoding::Base64Url) => {
            push_str(&mut out, "b64'");
            push_str(&mut out, base64url_nopad_encode(data).as_str());
            out.push('\'');
        },
        Some(Encoding::Base64) => {
            push_str(&mut out, "b64'");
            push_str(&mut out, base64_encode(data).as_str());
            out.push('\'');
        },
        Some(Encoding::Base16) => {
            push_str(&mut out, "h'");
            push_str(&mut out, hexlower_encode(chunk).as_str());
            out.push('\'');
        },
        None => {
            out.push('"');
            let ghost start = out@;
            let mut i: usize = 0;
            while i < chunk.len()
                invariant
                    i <= chunk@.len(),
                    out@ == start + ascii_escaped(chunk@.take(i as int)),
                decreases chunk@.len() - i,
            {
                push_ascii_escape(&mut out, chunk[i]);
                i = i + 1;
                assert(chunk@.take(i as int).drop_last() =~= chunk@.take(i - 1));
                assert(out@ =~= start + ascii_escaped(chunk@.take(i as int)));
            }
            assert(chunk@.take(chunk@.len() as int) =~= chunk@);
            out.push('"');
        },
    }
    assert(out@ =~= bytes_comment(encoding, data@, chunk@));
    string_from_chars(out.as_slice())
}

/// The bytes from `start` up to (not including) `end`.
pub(crate) fn slice_range(data: &[u8], start: usize, end: usize) -> (r: Vec<u8>)
    requires
        start <= end <= data@.len(),
    ensures
        r@ == data@.subrange(start as int, end as int),
{
    let mut r: Vec<u8> = Vec::new();
    let mut i: usize = start;
    while i < end
        invariant
            start <= i <= end,
            end <= data@.len(),
            r@ == data@.subrange(start as int, i as int),
        decreases end - i,
    {
        r.push(data[i]);
        i = i + 1;
        assert(r@ =~= data@.subrange(start as int, i as int));
    }
    r
}

/// The lines of the data of a byte string, sixteen bytes to a line.
pub fn bytes_to_hex(encoding: Option<Encoding>, data: &[u8]) -> (lines: Vec<Line>)
    ensures
        lines_view(lines@) == bytes_lines(encoding, data@),
{
    let mut lines: Vec<Line> = Vec::new();
    let mut start: usize = 0;
    let mut i: usize = 0;
    assert(lines_view(lines@) =~= Seq::<SpecLine>::empty());
    while start < data.len()
        invariant
            start <= data@.len(),
            start < data@.len() ==> start == 16 * i && i < chunk16_count(data@),
            start == data@.len() ==> i == chunk16_count(data@),
            lines_view(lines@) == bytes_lines(encoding, data@).take(i as int),
        decreases data@.len() - start,
    {
        let end = if data.len() - start >= 16 { start + 16 } else { data.len() };
        let chunk = slice_range(data, start, end);
        assert(chunk@ == chunk16(data@, i as int));
        let line = Line::new(hexlower_encode(chunk.as_slice()), bytes_comment_of(encoding, data, chunk.as_slice()));
        proof { lemma_lines_view_push(lines@, line); }
        lines.push(line);
        start = end;
        i = i + 1;
        assert(lines_view(lines@) =~= bytes_lines(encoding, data@).take(i as int));
    }
    assert(bytes_lines(encoding, data@).take(i as int) =~= bytes_lines(encoding, data@));
    lines
}

/// The line of a byte string and the lines of its data.
pub fn definite_bytestring_to_hex(encoding: Option<Encoding>, bytestring: &ByteString) -> (l: Line)
    ensures
        l@ == bytestring_line(encoding, bytestring@),
{
    let mut line = length_to_hex(Some(bytestring.data.len()), Some(bytestring.bitwidth), 2, "bytes");
    if bytestring.data.len() == 0 {
        let empty = Line::new(owned(""), owned("\"\""));
        proof {
            reveal_strlit("");
            reveal_strlit("\"\"");
        }
        assert(empty@ =~= empty_string_line());
        let ghost before = line@;
        line.push(empty);
        assert(before.sublines =~= Seq::<SpecLine>::empty());
        assert(line@.sublines =~= seq![empty_string_line()]);
    } else {
        let lines = bytes_to_hex(encoding, bytestring.data.as_slice());
        line.sublines = lines;
    }
    assert(line@ =~= bytestring_line(encoding, bytestring@));
    line
}


/// Whether a character is a control character (general category Cc).
pub open spec fn is_control(c: char) -> bool {
    (c as u32) <= 0x1f || (0x7f <= (c as u32) && (c as u32) <= 0x9f)
}

/// How a character of a text string is written in a comment: `"`, `\` and
/// control characters escaped as by `char::escape_default`.
pub open spec fn char_escape(c: char) -> Seq<char> {
    if c == '"' || c == '\\' {
        seq!['\\', c]
    } else if is_control(c) {
        if c == '\t' {
            seq!['\\', 't']
        } else if c == '\r' {
            seq!['\\', 'r']
        } else if c == '\n' {
            seq!['\\', 'n']
        } else {
            seq!['\\', 'u', '{'] + hex_digits(c as nat) + seq!['}']
        }
    } else {
        seq![c]
    }
}

/// Text with each character escaped by `char_escape`.
pub open spec fn text_escaped(s: Seq<char>) -> Seq<char>
    decreases s.len(),
{
    if s.len() == 0 {
        Seq::empty()
    } else {
        text_escaped(s.drop_last()) + char_escape(s.last())
    }
}

/// The number of leading characters whose UTF-8 encoding fits in `budget` bytes.
pub open spec fn fit(chars: Seq<char>, budget: nat) -> nat
    decreases chars.len(),
{
    if chars.len() == 0 {
        0
    } else {
        let w = encode_utf8(seq![chars[0]]).len();
        if w > budget { 0 } else { 1 + fit(chars.skip(1), (budget - w) as nat) }
    }
}

/// Text cut into pieces of at most sixteen bytes of UTF-8, at character
/// boundaries, each as long as it can be.
pub open spec fn text_chunks(chars: Seq<char>) -> Seq<Seq<char>>
    decreases chars.len(),
{
    if chars.len() == 0 {
        Seq::empty()
    } else {
        let k = fit(chars, 16);
        if 0 < k <= chars.len() {
            seq![chars.take(k as int)] + text_chunks(chars.skip(k as int))
        } else {
            seq![chars]
        }
    }
}

/// The line of a piece of a text string: its UTF-8 bytes and the escaped text.
pub open spec fn text_chunk_line(chunk: Seq<char>) -> SpecLine {
    leaf(hex_lower(encode_utf8(chunk)), seq!['"'] + text_escaped(chunk) + seq!['"'])
}

/// The line of a text string and the lines of its data: one line when it
/// has at most 24 bytes, else pieces of at most sixteen bytes.
pub open spec fn textstring_line(t: SpecText) -> SpecLine {
    let n = encode_utf8(t.data).len();
    with_sublines(
        length_line(n, Some(t.bitwidth), 3, "text"@),
        if t.data.len() == 0 {
            seq![empty_string_line()]
        } else if n <= 24 {
            seq![text_chunk_line(t.data)]
        } else {
            text_chunks(t.data).map_values(|c: Seq<char>| text_chunk_line(c))
        },
    )
}

/// The length of the UTF-8 encoding of a character.
fn char_utf8_len(c: char) -> (n: usize)
    ensures
        n == encode_utf8(seq![c]).len(),
        1 <= n <= 4,
{
    proof {
        vstd::utf8::char_is_scalar(c);
        assert(seq![c].drop_first() =~= Seq::<char>::empty());
        assert(seq![c][0] == c);
        reveal_with_fuel(encode_utf8, 2);
        assert(encode_utf8(seq![c]) == vstd::utf8::encode_scalar(c as u32) + encode_utf8(Seq::<char>::empty()));
    }
    let v = c as u32;
    if v <= 0x7f {
        1
    } else if v <= 0x7ff {
        2
    } else if v <= 0xffff {
        3
    } else {
        4
    }
}

/// The number of characters from `pos` on whose encoding fits in 16 bytes.
fn fit_count(chars: &[char], pos: usize) -> (k: usize)
    requires
        pos < chars@.len(),
    ensures
        k == fit(chars@.skip(pos as int), 16),
        1 <= k <= chars@.len() - pos,
{
    let mut j: usize = 0;
    let mut budget: usize = 16;
    while j < chars.len() - pos
        invariant
            pos < chars@.len(),
            pos + j <= chars@.len(),
            budget <= 16,
            j == 0 ==> budget == 16,
            fit(chars@.skip(pos as int), 16) == j + fit(chars@.skip(pos + j), budget as nat),
        decreases chars@.len() - pos - j,
    {
        let w = char_utf8_len(chars[pos + j]);
        assert(chars@.skip(pos + j)[0] == chars@[pos + j]);
        assert(chars@.skip(pos + j).skip(1) =~= chars@.skip(pos + j + 1));
        if w > budget {
            return j;
        }
        budget = budget - w;
        j = j + 1;
    }
    assert(chars@.skip(pos + j).len() == 0);
    j
}

/// Appends the escaped text of a character (see `char_escape`).
fn push_char_escape(out: &mut Vec<char>, c: char)
    ensures
        final(out)@ == old(out)@ + char_escape(c),
{
    let ghost start = out@;
    let v = c as u32;
    if c == '"' || c == '\\' {
        out.push('\\');
        out.push(c);
    } else if v <= 0x1f || (0x7f <= v && v <= 0x9f) {
        if c == '\t' {
            out.push('\\');
            out.push('t');
        } else if c == '\r' {
            out.push('\\');
            out.push('r');
        } else if c == '\n' {
            out.push('\\');
            out.push('n');
        } else {
            out.push('\\');
            out.push('u');
            out.push('{');
            let digits = hex_digit_chars(v as u128);
            push_chars(out, digits.as_slice());
            out.push('}');
        }
    } else {
        out.push(c);
    }
    assert(out@ =~= start + char_escape(c));
}

/// The line of a piece of a text string.
fn text_chunk_to_hex(chunk: &[char]) -> (l: Line)
    ensures
        l@ == text_chunk_line(chunk@),
{
    let text = string_from_chars(chunk);
    let hex = hexlower_encode(text.as_str().as_bytes());
    let mut comment: Vec<char> = Vec::new();
    comment.push('"');
    let ghost start = comment@;
    let mut i: usize = 0;
    while i < chunk.len()
        invariant
            i <= chunk@.len(),
            comment@ == start + text_escaped(chunk@.take(i as int)),
        decreases chunk@.len() - i,
    {
        push_char_escape(&mut comment, chunk[i]);
        i = i + 1;
        assert(chunk@.take(i as int).drop_last() =~= chunk@.take(i - 1));
        assert(comment@ =~= start + text_escaped(chunk@.take(i as int)));
    }
    assert(chunk@.take(chunk@.len() as int) =~= chunk@);
    comment.push('"');
    Line::new(hex, string_from_chars(comment.as_slice()))
}

/// The characters from `start` up to (not including) `end`.
pub(crate) fn char_range(chars: &[char], start: usize, end: usize) -> (r: Vec<char>)
    requires
        start <= end <= chars@.len(),
    ensures
        r@ == chars@.subrange(start as int, end as int),
{
    let mut r: Vec<char> = Vec::new();
    let mut i: usize = start;
    while i < end
        invariant
            start <= i <= end,
            end <= chars@.len(),
            r@ == chars@.subrange(start as int, i as int),
        decreases end - i,
    {
        r.push(chars[i]);
        i = i + 1;
        assert(r@ =~= chars@.subrange(start as int, i as int));
    }
    r
}

/// The lines of the pieces of a text (see `text_chunks`).
fn text_chunks_to_hex(chars: &[char]) -> (lines: Vec<Line>)
    ensures
        lines_view(lines@) == text_chunks(chars@).map_values(|c: Seq<char>| text_chunk_line(c)),
{
    let mut lines: Vec<Line> = Vec::new();
    let mut pos: usize = 0;
    assert(chars@.skip(0) =~= chars@);
    assert(lines_view(lines@) + text_chunks(chars@.skip(0)).map_values(|c: Seq<char>| text_chunk_line(c))
        =~= text_chunks(chars@).map_values(|c: Seq<char>| text_chunk_line(c)));
    while pos < chars.len()
        invariant
            pos <= chars@.len(),
            lines_view(lines@) + text_chunks(chars@.skip(pos as int)).map_values(|c: Seq<char>| text_chunk_line(c))
                == text_chunks(chars@).map_values(|c: Seq<char>| text_chunk_line(c)),
        decreases chars@.len() - pos,
    {
        let k = fit_count(chars, pos);
        let chunk = char_range(chars, pos, pos + k);
        let line = text_chunk_to_hex(chunk.as_slice());
        let ghost rest = chars@.skip(pos as int);
        assert(rest.take(k as int) =~= chunk@);
        assert(rest.skip(k as int) =~= chars@.skip(pos + k));
        assert(text_chunks(rest) == seq![chunk@] + text_chunks(chars@.skip(pos + k)));
        assert(text_chunks(rest).map_values(|c: Seq<char>| text_chunk_line(c))
            =~= seq![line@] + text_chunks(chars@.skip(pos + k)).map_values(|c: Seq<char>| text_chunk_line(c)));
        proof { lemma_lines_view_push(lines@, line); }
        lines.push(line);
        pos = pos + k;
    }
    assert(chars@.skip(pos as int) =~= Seq::<char>::empty());
    assert(lines_view(lines@) + text_chunks(chars@.skip(pos as int)).map_values(|c: Seq<char>| text_chunk_line(c))
        =~= lines_view(lines@));
    lines
}

/// The line of a text string and the lines of its data.
pub fn definite_textstring_to_hex(textstring: &TextString) -> (l: Line)
    ensures
        l@ == textstring_line(textstring@),
{
    let n = textstring.data.as_str().as_bytes().len();
    let mut line = length_to_hex(Some(n), Some(textstring.bitwidth), 3, "text");
    let chars = crate::text::chars_of(textstring.data.as_str());
    let ghost before = line@;
    assert(before.sublines =~= Seq::<SpecLine>::empty());
    if chars.len() == 0 {
        let empty = Line::new(owned(""), owned("\"\""));
        proof {
            reveal_strlit("");
            reveal_strlit("\"\"");
        }
        assert(empty@ =~= empty_string_line());
        line.push(empty);
        assert(line@.sublines =~= seq![empty_string_line()]);
    } else if n <= 24 {
        let piece = text_chunk_to_hex(chars.as_slice());
        line.push(piece);
        assert(line@.sublines =~= seq![text_chunk_line(textstring@.data)]);
    } else {
        line.sublines = text_chunks_to_hex(chars.as_slice());
    }
    assert(line@ =~= textstring_line(textstring@));
    line
}


// ---------------------------------------------------------------------------
// The lines of whole data items.

/// The float text functions that the specifications are given.
pub type FloatTexts = spec_fn(u64, FloatWidth, FloatText) -> Seq<char>;

/// The line that ends an indefinite length item.
pub open spec fn break_line() -> SpecLine {
    leaf(seq!['f', 'f'], "break"@)
}

/// What a tag number stands for, where this library knows it.
pub open spec fn tag_description(tag: u64) -> Option<Seq<char>> {
    if tag == 0 { Some("standard datetime string"@) }
    else if tag == 1 { Some("epoch datetime value"@) }
    else if tag == 2 { Some("positive bignum"@) }
    else if tag == 3 { Some("negative bignum"@) }
    else if tag == 4 { Some("decimal fraction"@) }
    else if tag == 5 { Some("bigfloat"@) }
    else if tag == 21 { Some("suggested base64url encoding"@) }
    else if tag == 22 { Some("suggested base64 encoding"@) }
    else if tag == 23 { Some("suggested base16 encoding"@) }
    else if tag == 24 { Some("encoded cbor data item"@) }
    else if tag == 63 { Some("encoded cbor sequence"@) }
    else if tag == 32 { Some("uri"@) }
    else if tag == 33 { Some("base64url encoded text"@) }
    else if tag == 34 { Some("base64 encoded text"@) }
    else if tag == 35 { Some("regex"@) }
    else if tag == 36 { Some("mime message"@) }
    else if tag == 37 { Some("uuid"@) }
    else if tag == 260 { Some("network address"@) }
    else if tag == 55799 { Some("self describe cbor"@) }
    else if tag == 100 { Some("epoch date value"@) }
    else if tag == 1004 { Some("standard date string"@) }
    else if tag == 28 { Some("shareable value"@) }
    else if tag == 29 { Some("reference to shared value"@) }
    else if tag == 52 { Some("ipv4 address and/or prefix"@) }
    else if tag == 54 { Some("ipv6 address and/or prefix"@) }
    else if tag == 64 { Some("typed array of u8"@) }
    else if tag == 69 { Some("typed array of u16, little endian"@) }
    else if tag == 70 { Some("typed array of u32, little endian"@) }
    else if tag == 71 { Some("typed array of u64, little endian"@) }
    else if tag == 68 { Some("typed array of u8, clamped"@) }
    else if tag == 65 { Some("typed array of u16, big endian"@) }
    else if tag == 66 { Some("typed array of u32, big endian"@) }
    else if tag == 67 { Some("typed array of u64, big endian"@) }
    else if tag == 72 { Some("typed array of u8"@) }
    else if tag == 77 { Some("typed array of i16, little endian, twos-complement"@) }
    else if tag == 78 { Some("typed array of i32, little endian, twos-complement"@) }
    else if tag == 79 { Some("typed array of i64, little endian, twos-complement"@) }
    else if tag == 73 { Some("typed array of i16, big endian, twos-complement"@) }
    else if tag == 74 { Some("typed array of i32, big endian, twos-complement"@) }
    else if tag == 75 { Some("typed array of i64, big endian, twos-complement"@) }
    else if tag == 84 { Some("typed array of f16, little endian"@) }
    else if tag == 85 { Some("typed array of f32, little endian"@) }
    else if tag == 86 { Some("typed array of f64, little endian"@) }
    else if tag == 87 { Some("typed array of f128, little endian"@) }
    else if tag == 80 { Some("typed array of f16, big endian"@) }
    else if tag == 81 { Some("typed array of f32, big endian"@) }
    else if tag == 82 { Some("typed array of f64, big endian"@) }
    else if tag == 83 { Some("typed array of f128, big endian"@) }
    else { None }
}

/// Whether a tag marks a typed array.
pub open spec fn is_typed_array(tag: u64) -> bool {
    64 <= tag <= 87 && tag != 76
}

/// The size in bytes of the elements of a typed array.
pub open spec fn typed_size(tag: u64) -> nat {
    if tag == 64 || tag == 68 || tag == 72 {
        1
    } else if tag == 65 || tag == 69 || tag == 73 || tag == 77 || tag == 80 || tag == 84 {
        2
    } else if tag == 66 || tag == 70 || tag == 74 || tag == 78 || tag == 81 || tag == 85 {
        4
    } else if tag == 67 || tag == 71 || tag == 75 || tag == 79 || tag == 82 || tag == 86 {
        8
    } else {
        16
    }
}

/// Whether the elements of a typed array are little endian.
pub open spec fn typed_little_endian(tag: u64) -> bool {
    (68 <= tag <= 71) || (76 <= tag <= 79) || (84 <= tag <= 87)
}

/// What the elements of a typed array are called in their comments.
pub open spec fn typed_kind(tag: u64) -> Seq<char> {
    if tag <= 71 { "unsigned"@ } else if tag <= 79 { "signed"@ } else { "float"@ }
}

/// The value of the bytes of an element of a typed array, by its byte order.
pub open spec fn element_value(tag: u64, c: Seq<u8>) -> nat {
    if typed_little_endian(tag) { big_value(c.reverse()) } else { big_value(c) }
}

/// The text of an element of a typed array.
pub open spec fn element_text(tag: u64, c: Seq<u8>, ft: FloatTexts) -> Seq<char> {
    let v = element_value(tag, c);
    if tag <= 71 {
        separated(v as int)
    } else if tag <= 79 {
        let half = signed_half(typed_size(tag));
        separated(if v >= half { v - 2 * half } else { v as int })
    } else if tag == 80 || tag == 84 {
        ft(v as u64, FloatWidth::Sixteen, FloatText::Annotation)
    } else if tag == 81 || tag == 85 {
        ft(v as u64, FloatWidth::ThirtyTwo, FloatText::NativeAnnotation)
    } else if tag == 82 || tag == 86 {
        ft(v as u64, FloatWidth::SixtyFour, FloatText::Annotation)
    } else {
        "TODO: f128 unsupported"@
    }
}

/// The smallest value of `n` bytes whose sign bit is set.
pub open spec fn signed_half(n: nat) -> nat {
    if n == 1 {
        0x80
    } else if n == 2 {
        0x8000
    } else if n == 4 {
        0x8000_0000
    } else {
        0x8000_0000_0000_0000
    }
}

/// What parsing bytes as exactly one data item gives: the item, or the
/// message of the error.
pub open spec fn parse_result(bytes: Seq<u8>) -> Result<SpecItem, Seq<char>> {
    match parse_item(bytes) {
        Parsed::Done(x, k) => if k == bytes.len() {
            Ok(x)
        } else {
            Err(remaining_message(bytes.skip(k as int)))
        },
        Parsed::Incomplete => Err(incomplete_message()),
        Parsed::Invalid => Err(invalid_message()),
    }
}

/// The data items at the start of some bytes, one after the other, and the
/// bytes after the last of them.
pub open spec fn cbor_sequence(rest: Seq<u8>) -> (Seq<SpecItem>, Seq<u8>)
    decreases rest.len(),
{
    match parse_item(rest) {
        Parsed::Done(x, k) => if 0 < k <= rest.len() {
            let (xs, left) = cbor_sequence(rest.skip(k as int));
            (seq![x] + xs, left)
        } else {
            (Seq::empty(), rest)
        },
        _ => (Seq::empty(), rest),
    }
}

/// The `Debug` text of an error with the given message.
pub open spec fn error_debug(message: Seq<char>) -> Seq<char> {
    "Todo(\""@ + message + "\")"@
}

/// The position of the first line feed, or the length when there is none.
pub open spec fn newline_index(t: Seq<char>) -> nat
    decreases t.len(),
{
    if t.len() == 0 {
        0
    } else if t[0] == '\n' {
        0
    } else {
        1 + newline_index(t.skip(1))
    }
}

/// The lines of a text, as `str::lines` gives them: split at line feeds,
/// with a carriage return before a line feed dropped, and no empty line
/// after a final line feed.
pub open spec fn lines_of(t: Seq<char>) -> Seq<Seq<char>>
    decreases t.len(),
{
    if t.len() == 0 {
        Seq::empty()
    } else {
        let i = newline_index(t);
        if i < t.len() {
            let l = t.take(i as int);
            seq![if l.len() > 0 && l.last() == '\r' { l.drop_last() } else { l }] + lines_of(t.skip(i + 1 as int))
        } else {
            seq![t]
        }
    }
}

/// The annotation of an encoded data item: its own annotated hex, a line of
/// it to each nested line.
pub open spec fn encoded_item_line(l: SpecLine) -> SpecLine {
    with_sublines(note("encoded cbor data item"@), lines_of(merged(l)).map_values(|t: Seq<char>| note(t)))
}

/// The annotation of a failure to parse encoded data.
pub open spec fn parse_failure_line(what: Seq<char>, message: Seq<char>) -> SpecLine {
    with_sublines(note(what), seq![note(error_debug(message))])
}

/// The line of a data item and the lines nested under it, with the encoding
/// suggested for byte strings and the number of shareable items before it;
/// also the number of shareable items after it. `bound` is larger than the
/// length of any byte string in the item.
pub open spec fn hex_of(x: SpecItem, enc: Option<Encoding>, refs: u64, bound: nat, ft: FloatTexts) -> (SpecLine, u64)
    decreases bound, x, 0nat,
{
    match x {
        SpecItem::Integer { value, bitwidth } => (integer_line(value, bitwidth), refs),
        SpecItem::Negative { value, bitwidth } => (negative_line(value, bitwidth), refs),
        SpecItem::ByteString(b) => (bytestring_line(enc, b), refs),
        SpecItem::TextString(t) => (textstring_line(t), refs),
        SpecItem::IndefiniteByteString(s) => (
            with_sublines(length_line(0, None, 2, "bytes"@), s.map_values(|b: SpecBytes| bytestring_line(enc, b)).push(break_line())),
            refs,
        ),
        SpecItem::IndefiniteTextString(s) => (
            with_sublines(length_line(0, None, 3, "text"@), s.map_values(|t: SpecText| textstring_line(t)).push(break_line())),
            refs,
        ),
        SpecItem::Array { data, bitwidth } => {
            let (ls, r) = hex_items(data, enc, refs, bound, ft);
            (
                with_sublines(
                    length_line(data.len(), bitwidth, 4, "array"@),
                    if bitwidth is None { ls.push(break_line()) } else { ls },
                ),
                r,
            )
        },
        SpecItem::Mapping { data, bitwidth } => {
            let (ls, r) = hex_pairs(data, enc, refs, bound, ft);
            (
                with_sublines(
                    length_line(data.len(), bitwidth, 5, "map"@),
                    if bitwidth is None { ls.push(break_line()) } else { ls },
                ),
                r,
            )
        },
        SpecItem::Tag { tag, bitwidth, value } => tagged_hex(tag, bitwidth, *value, enc, refs, bound, ft),
        SpecItem::Float { value, bitwidth } => (float_line(value, bitwidth, ft), refs),
        SpecItem::Simple(v) => (simple_line(v), refs),
    }
}

/// The lines of a sequence of data items.
pub open spec fn hex_items(s: Seq<SpecItem>, enc: Option<Encoding>, refs: u64, bound: nat, ft: FloatTexts) -> (Seq<SpecLine>, u64)
    decreases bound, s, 1nat,
{
    if s.len() == 0 {
        (Seq::empty(), refs)
    } else {
        let (l, r1) = hex_of(s[0], enc, refs, bound, ft);
        let (ls, r2) = hex_items(s.skip(1), enc, r1, bound, ft);
        (seq![l] + ls, r2)
    }
}

/// The lines of a sequence of key/value pairs, the key's line before the value's.
pub open spec fn hex_pairs(s: Seq<(SpecItem, SpecItem)>, enc: Option<Encoding>, refs: u64, bound: nat, ft: FloatTexts) -> (Seq<SpecLine>, u64)
    decreases bound, s, 1nat,
{
    if s.len() == 0 {
        (Seq::empty(), refs)
    } else {
        let (k, r1) = hex_of(s[0].0, enc, refs, bound, ft);
        let (v, r2) = hex_of(s[0].1, enc, r1, bound, ft);
        let (ls, r3) = hex_pairs(s.skip(1), enc, r2, bound, ft);
        (seq![k, v] + ls, r3)
    }
}

/// The hex of a tag's head.
pub open spec fn tag_hex(tag: u64, bitwidth: IntegerWidth) -> Seq<char> {
    let w = if bitwidth == IntegerWidth::Unknown { count_width(tag as nat) } else { bitwidth };
    if w == IntegerWidth::Zero { hex_number((0xc0u64 | tag) as nat, 2) } else { head_hex(6, tag as nat, w) }
}

/// The comment on a tag's head.
pub open spec fn tag_comment(tag: u64) -> Seq<char> {
    match tag_description(tag) {
        Some(d) => d + ", tag("@ + decimal(tag as nat) + seq![')'],
        None => "tag("@ + decimal(tag as nat) + seq![')'],
    }
}

/// The line of a tagged item: its head, the lines of the item and the
/// annotations that the tag calls for.
pub open spec fn tagged_hex(tag: u64, bitwidth: IntegerWidth, v: SpecItem, enc: Option<Encoding>, refs: u64, bound: nat, ft: FloatTexts) -> (SpecLine, u64)
    decreases bound, v, 3nat,
{
    let (extra, r1) = tag_extra(tag, v, refs, bound, ft);
    let (sub, r2) = tag_sublines(tag, v, enc, r1, bound, ft);
    (SpecLine { hex: tag_hex(tag, bitwidth), comment: tag_comment(tag), sublines: sub + extra }, r2)
}

/// The annotations of a tagged item, and the number of shareable items
/// after them.
pub open spec fn tag_extra(tag: u64, v: SpecItem, refs: u64, bound: nat, ft: FloatTexts) -> (Seq<SpecLine>, u64)
    decreases bound, v, 2nat,
{
    if tag == 0 { (seq![datetime_epoch_line(v)], refs) }
    else if tag == 1 { (seq![epoch_datetime_line(v, ft)], refs) }
    else if tag == 2 { (seq![positive_bignum_line(v)], refs) }
    else if tag == 3 { (seq![negative_bignum_line(v)], refs) }
    else if tag == 4 { (seq![fraction_line(v, 10, "decimal fraction"@)], refs) }
    else if tag == 5 { (seq![fraction_line(v, 2, "bigfloat"@)], refs) }
    else if tag == 32 { (seq![uri_line(v)], refs) }
    else if tag == 33 { (seq![base64_line(v, true)], refs) }
    else if tag == 34 { (seq![base64_line(v, false)], refs) }
    else if tag == 24 { (seq![encoded_cbor_line(v, bound, ft)], refs) }
    else if tag == 63 { (encoded_cbor_seq_lines(v, bound, ft), refs) }
    else if tag == 260 { (seq![network_address_line(v)], refs) }
    else if tag == 37 { (seq![uuid_line(v)], refs) }
    else if tag == 100 { (seq![epoch_date_line(v)], refs) }
    else if tag == 1004 { (seq![date_epoch_line(v)], refs) }
    else if tag == 28 { (seq![shareable_line(refs)], (if refs == u64::MAX { 0 } else { refs + 1 }) as u64) }
    else if tag == 29 { (seq![shared_ref_line(v, refs)], refs) }
    else if tag == 52 { (seq![address_line(v, 4)], refs) }
    else if tag == 54 { (seq![address_line(v, 16)], refs) }
    else { (Seq::empty(), refs) }
}

/// The lines of the item under a tag: with the encoding the tag suggests,
/// or as a typed array.
pub open spec fn tag_sublines(tag: u64, v: SpecItem, enc: Option<Encoding>, refs: u64, bound: nat, ft: FloatTexts) -> (Seq<SpecLine>, u64)
    decreases bound, v, 2nat,
{
    if is_typed_array(tag) {
        typed_lines(tag, v, enc, refs, bound, ft)
    } else {
        let enc = if tag == 21 {
            Some(Encoding::Base64Url)
        } else if tag == 22 {
            Some(Encoding::Base64)
        } else if tag == 23 || tag == 260 || tag == 37 || tag == 52 || tag == 54 {
            Some(Encoding::Base16)
        } else {
            enc
        };
        let (l, r) = hex_of(v, enc, refs, bound, ft);
        (seq![l], r)
    }
}

/// Element `i` of a typed array of elements of `n` bytes.
pub open spec fn element(data: Seq<u8>, n: nat, i: int) -> Seq<u8> {
    data.subrange(n * i, n * i + n)
}

/// The lines of the item under a typed array tag: a byte string cut into
/// elements, or the item and what is wrong with it.
pub open spec fn typed_lines(tag: u64, v: SpecItem, enc: Option<Encoding>, refs: u64, bound: nat, ft: FloatTexts) -> (Seq<SpecLine>, u64)
    decreases bound, v, 1nat,
{
    let n = typed_size(tag);
    match v {
        SpecItem::ByteString(b) => if b.data.len() % n == 0 {
            (
                seq![with_sublines(
                    length_line(b.data.len(), Some(b.bitwidth), 2, "bytes"@),
                    Seq::new(b.data.len() / n, |i: int| leaf(
                        hex_lower(element(b.data, n, i)),
                        typed_kind(tag) + seq!['('] + element_text(tag, element(b.data, n, i), ft) + seq![')'],
                    )),
                )],
                refs,
            )
        } else {
            let (l, r) = hex_of(v, enc, refs, bound, ft);
            (seq![l, note("invalid data length for typed array"@)], r)
        },
        _ => {
            let (l, r) = hex_of(v, enc, refs, bound, ft);
            (seq![l, note("invalid type for typed array"@)], r)
        },
    }
}

/// The annotation of an encoded data item (tag 24). Every byte string is
/// shorter than `bound`, so the last branch is never taken.
pub open spec fn encoded_cbor_line(v: SpecItem, bound: nat, ft: FloatTexts) -> SpecLine
    decreases bound, v, 1nat,
{
    match v {
        SpecItem::ByteString(b) => if b.data.len() < bound {
            match parse_result(b.data) {
                Ok(x) => encoded_item_line(hex_of(x, None, 0, b.data.len(), ft).0),
                Err(m) => parse_failure_line("failed to parse encoded cbor data item"@, m),
            }
        } else {
            note(Seq::empty())
        },
        _ => note("invalid type for encoded cbor data item"@),
    }
}

/// The annotations of an encoded sequence of data items (tag 63). Every
/// byte string is shorter than `bound`, so the last branch is never taken.
pub open spec fn encoded_cbor_seq_lines(v: SpecItem, bound: nat, ft: FloatTexts) -> Seq<SpecLine>
    decreases bound, v, 1nat,
{
    match v {
        SpecItem::ByteString(b) => if b.data.len() < bound {
            let (xs, left) = cbor_sequence(b.data);
            let items = Seq::new(xs.len(), |i: int| encoded_item_line(hex_of(xs[i], None, 0, b.data.len(), ft).0));
            if left.len() > 0 {
                items.push(parse_failure_line(
                    "failed to parse remaining encoded cbor sequence"@,
                    match parse_result(left) { Err(m) => m, Ok(_) => Seq::empty() },
                ))
            } else {
                items
            }
        } else {
            Seq::empty()
        },
        _ => seq![note("invalid type for encoded cbor sequence"@)],
    }
}

} // verus!
