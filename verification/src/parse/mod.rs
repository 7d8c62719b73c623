pub mod binary;
pub mod diag;
pub mod lexical;
pub mod textback;

use vstd::prelude::*;
use vstd::utf8::encode_utf8;

use crate::codecs::{hex_bytes, hex_decode_error, hex_permissive_decode, is_hex_text};
use crate::error::{Error, Result};
use crate::syntax::DataItem;
use crate::text::{chars_of, string_from_chars};
use self::binary::{parse_bytes, parse_bytes_gives};

verus! {

/// Text with comments and spaces removed: a comment starts with `#` and runs
/// to the end of its line; line breaks, and a carriage return ending a line,
/// are dropped too.
pub open spec fn uncommented(s: Seq<char>, in_comment: bool) -> Seq<char>
    decreases s.len(),
{
    if s.len() == 0 {
        Seq::empty()
    } else if s[0] == '\n' {
        uncommented(s.skip(1), false)
    } else if in_comment || s[0] == '#' {
        uncommented(s.skip(1), true)
    } else if s[0] == ' ' || (s[0] == '\r' && s.len() > 1 && s[1] == '\n') {
        uncommented(s.skip(1), false)
    } else {
        seq![s[0]] + uncommented(s.skip(1), false)
    }
}

proof fn lemma_uncommented_step(s: Seq<char>, i: int, in_comment: bool)
    requires
        0 <= i < s.len(),
    ensures
        s.skip(i).skip(1) =~= s.skip(i + 1),
        s.skip(i)[0] == s[i],
        s.skip(i).len() > 1 ==> s.skip(i)[1] == s[i + 1],
{
}

/// Removes the comments and spaces from hex text (see [`uncommented`]).
pub fn remove_comments(hex: &str) -> (r: String)
    ensures
        r@ == uncommented(hex@, false),
{
    let chars = chars_of(hex);
    let mut out: Vec<char> = Vec::new();
    let mut in_comment = false;
    let mut i: usize = 0;
    assert(hex@.skip(0) =~= hex@);
    while i < chars.len()
        invariant
            chars@ == hex@,
            i <= chars@.len(),
            uncommented(hex@, false) == out@ + uncommented(hex@.skip(i as int), in_comment),
        decreases chars@.len() - i,
    {
        let c = chars[i];
        proof {
            lemma_uncommented_step(hex@, i as int, in_comment);
        }
        if c == '\n' {
            in_comment = false;
        } else if in_comment || c == '#' {
            in_comment = true;
        } else if c == ' ' || (c == '\r' && i + 1 < chars.len() && chars[i + 1] == '\n') {
        } else {
            out.push(c);
            assert(out@ + uncommented(hex@.skip(i + 1), false) =~= out@.drop_last() + (seq![c] + uncommented(hex@.skip(i + 1), false)));
        }
        i = i + 1;
    }
    assert(out@ + uncommented(hex@.skip(i as int), in_comment) =~= out@);
    string_from_chars(out.as_slice())
}

/// Parse a string containing a hex encoded CBOR data item.
///
/// The string may contain comments, started with a `#` character and running
/// to the end of the line. Any spaces are ignored, but any other non-hex
/// characters cause an error.
pub fn parse_hex(hex: &str) -> (r: Result<DataItem>)
    ensures
        ({
            let text = encode_utf8(uncommented(hex@, false));
            if is_hex_text(text) {
                parse_bytes_gives(hex_bytes(text), r)
            } else {
                r matches Err(e) && e.message() == hex_decode_error(text)
            }
        }),
{
    let text = remove_comments(hex);
    match hex_permissive_decode(text.as_str().as_bytes()) {
        Ok(bytes) => parse_bytes(bytes.as_slice()),
        Err(e) => Err(Error::Todo(e)),
    }
}

} // verus!
