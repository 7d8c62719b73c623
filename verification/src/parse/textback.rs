//! Text strings read back from diagnostic notation.
use vstd::prelude::*;
use vstd::utf8::{decode_utf8, valid_utf8};

use crate::encode::diag::text_diag;
use crate::error::Result;
use crate::laws::law_text_diag_reads_back;
use crate::syntax::{DataItem, IntegerWidth, SpecItem, SpecText};
use super::lexical::{has_at, quoted, run_end, skip, unsigned_number, Class};
use super::diag::{
    FloatBits, bytestring_item, decimal_float_end, definite_bytes, float_item, float_value, hex_float,
    integer_item, item, negative_item, parse_diag_gives, string_bytes, tagged_item, text_piece, text_rest, text_run,
    textstring_item, unknown_text,
};

verus! {

/// Text does not hold `t` where its character differs from `t`'s first.
proof fn lemma_not_at(s: Seq<char>, i: nat, t: Seq<char>)
    requires
        i < s.len(),
        t.len() > 0,
        s[i as int] != t[0],
    ensures
        !has_at(s, i, t),
{
    if has_at(s, i, t) {
        assert(s.subrange(i as int, i + t.len() as int)[0] == s[i as int]);
    }
}

/// No byte string starts at the end of the text.
proof fn lemma_no_bytes_at_end(s: Seq<char>, fb: FloatBits)
    ensures
        definite_bytes(s, s.len(), fb) is None,
{
    reveal_strlit("<<");
    assert(skip(s, s.len()) == s.len());
}

/// Nothing but a text string starts with a double quote.
proof fn lemma_quote_start(s: Seq<char>, fb: FloatBits)
    requires
        s.len() > 0,
        s[0] == '"',
    ensures
        skip(s, 0) == 0,
        float_item(s, 0, fb) is None,
        tagged_item(s, 0, fb) is None,
        integer_item(s, 0) is None,
        negative_item(s, 0) is None,
        bytestring_item(s, 0, fb) is None,
{
    reveal_strlit("0x");
    reveal_strlit("0o");
    reveal_strlit("0b");
    reveal_strlit("Infinity");
    reveal_strlit("-Infinity");
    reveal_strlit("NaN");
    reveal_strlit("h");
    reveal_strlit("b32");
    reveal_strlit("h32");
    reveal_strlit("b64");
    reveal_strlit("<<");
    reveal_strlit("(_");
    lemma_not_at(s, 0, "0x"@);
    lemma_not_at(s, 0, "0o"@);
    lemma_not_at(s, 0, "0b"@);
    lemma_not_at(s, 0, "Infinity"@);
    lemma_not_at(s, 0, "-Infinity"@);
    lemma_not_at(s, 0, "NaN"@);
    lemma_not_at(s, 0, "h"@);
    lemma_not_at(s, 0, "b32"@);
    lemma_not_at(s, 0, "h32"@);
    lemma_not_at(s, 0, "b64"@);
    lemma_not_at(s, 0, "<<"@);
    lemma_not_at(s, 0, "(_"@);
    lemma_not_at(s, 0, seq!['-']);
    assert(run_end(s, 0, Class::Decimal) == 0);
    assert(has_at(s, 0, Seq::<char>::empty())) by {
        assert(s.subrange(0, 0) =~= Seq::<char>::empty());
    }
    assert(unsigned_number(s, 0) is None);
    assert(hex_float(s, 0) is None);
    assert(decimal_float_end(s, 0) is None);
    assert(float_value(s, 0) is None);
    assert(definite_bytes(s, 0, fb) is None);
}

/// Nothing follows at the end of the text, so the text after a first text
/// string there is empty.
proof fn lemma_rest_at_end(s: Seq<char>, fb: FloatBits)
    ensures
        text_rest(s, s.len(), fb) == Some((Seq::<u8>::empty(), s.len())),
{
    let l = s.len();
    assert(skip(s, l) == l);
    lemma_no_bytes_at_end(s, fb);
    assert(quoted(s, l, '"') is None);
    assert(text_piece(s, l) is None);
    assert(string_bytes(s, l, fb) is None);
}

/// The diagnostic text of a text string, read as a run of strings, gives the
/// text back and ends at the end.
proof fn lemma_text_run_whole(t: Seq<char>, fb: FloatBits)
    ensures
        text_run(text_diag(t), 0, fb) == Some((t, text_diag(t).len())),
{
    let s = text_diag(t);
    let l = s.len();
    law_text_diag_reads_back(t, Seq::empty());
    assert(s + Seq::<char>::empty() =~= s);
    assert(s[0] == '"');
    lemma_quote_start(s, fb);
    assert(skip(s, l) == l);
    assert(text_piece(s, 0) == Some((t, l)));
    lemma_rest_at_end(s, fb);
    assert(valid_utf8(Seq::<u8>::empty()));
    assert(decode_utf8(Seq::<u8>::empty()) =~= Seq::<char>::empty());
    assert(t + Seq::<char>::empty() =~= t);
}

/// Text strings read back from diagnostic notation as a whole: parsing the
/// diagnostic text of any text string gives that text string, every
/// character kept, backslashes and double quotes included.
pub proof fn law_text_diag_parses_back(t: Seq<char>, fb: FloatBits, r: Result<DataItem>)
    requires
        parse_diag_gives(text_diag(t), fb, r),
    ensures
        r matches Ok(y) && y@ == SpecItem::TextString(SpecText { data: t, bitwidth: IntegerWidth::Unknown }),
{
    let s = text_diag(t);
    let l = s.len();
    lemma_text_run_whole(t, fb);
    assert(s[0] == '"') by {
        law_text_diag_reads_back(t, Seq::empty());
        assert(s + Seq::<char>::empty() =~= s);
    }
    lemma_quote_start(s, fb);
    assert(skip(s, l) == l);
    assert(textstring_item(s, 0, fb) == Some((SpecItem::TextString(unknown_text(t)), l)));
    assert(item(s, 0, fb) == Some((SpecItem::TextString(unknown_text(t)), l)));
}

} // verus!
