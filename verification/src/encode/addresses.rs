//! How IPv6 addresses are written: `::` stands for a run of at least two
//! zero segments, and for nothing else.
use vstd::prelude::*;

use crate::codecs::hex_digit;
use super::annotate::{ipv4_text, ipv6_text, segment, segments_text, zero_run};
use super::hex::hex_digits;

verus! {

/// Whether some text holds two colons in a row.
pub open spec fn has_double_colon(s: Seq<char>) -> bool {
    exists|j: int| 0 <= j && j + 1 < s.len() && #[trigger] s[j] == ':' && s[j + 1] == ':'
}

/// Whether segments `i` and `i + 1` of an address are both zero.
pub open spec fn zero_pair(b: Seq<u8>, i: int) -> bool {
    0 <= i < 7 && segment(b, i) == 0 && segment(b, i + 1) == 0
}

/// Whether segments `from` up to (not including) `from + len` are zero.
pub open spec fn zero_segments(b: Seq<u8>, from: nat, len: nat) -> bool {
    forall|t: int| from <= t < from + len ==> #[trigger] segment(b, t) == 0
}

proof fn lemma_hex_digits(n: nat)
    ensures
        hex_digits(n).len() > 0,
        forall|i: int| 0 <= i < hex_digits(n).len() ==> #[trigger] hex_digits(n)[i] != ':',
    decreases n,
{
    if n >= 16 {
        lemma_hex_digits(n / 16);
        let h = hex_digits(n);
        let p = hex_digits(n / 16);
        assert(hex_digit((n % 16) as u8) != ':');
        assert forall|i: int| 0 <= i < h.len() implies #[trigger] h[i] != ':' by {
            if i < p.len() {
                assert(h[i] == p[i]);
            }
        }
    } else {
        assert(hex_digit(n as u8) != ':');
    }
}

/// Segments written one after the other, with single colons between them,
/// hold no two colons in a row and do not start with a colon.
proof fn lemma_segments_text(b: Seq<u8>, from: nat, to: nat)
    ensures
        !has_double_colon(segments_text(b, from, to)),
        segments_text(b, from, to).len() > 0 ==> segments_text(b, from, to)[0] != ':',
    decreases to - from,
{
    let s = segments_text(b, from, to);
    if from < to {
        let h = hex_digits(segment(b, from as int));
        lemma_hex_digits(segment(b, from as int));
        if from + 1 == to {
            assert(s == h);
        } else {
            lemma_segments_text(b, from + 1, to);
            let t = segments_text(b, from + 1, to);
            assert(s == h + seq![':'] + t);
            assert forall|j: int| 0 <= j && j + 1 < s.len() implies !(#[trigger] s[j] == ':' && s[j + 1] == ':') by {
                if j < h.len() {
                    assert(s[j] == h[j]);
                } else if j == h.len() {
                    if t.len() > 0 {
                        assert(s[j + 1] == t[0]);
                    }
                } else {
                    assert(s[j] == t[j - h.len() - 1]);
                    assert(s[j + 1] == t[j + 1 - h.len() - 1]);
                }
            }
            assert(s[0] == h[0]);
        }
    }
}

/// The run `zero_run` finds is a run of zero segments within the address,
/// and is at least two long wherever two zero segments stand together.
proof fn lemma_zero_run(b: Seq<u8>, i: nat, cur: (nat, nat), best: (nat, nat))
    requires
        i <= 8,
        cur.0 + cur.1 == i || cur.1 == 0,
        zero_segments(b, cur.0, cur.1),
        best.0 + best.1 <= i,
        zero_segments(b, best.0, best.1),
        best.1 >= cur.1,
        i > 0 && segment(b, i - 1) == 0 ==> cur.1 >= 1,
        (exists|p: int| zero_pair(b, p) && p + 1 < i) ==> best.1 >= 2,
    ensures
        zero_run(b, i, cur, best).0 + zero_run(b, i, cur, best).1 <= 8,
        zero_segments(b, zero_run(b, i, cur, best).0, zero_run(b, i, cur, best).1),
        (exists|p: int| zero_pair(b, p)) ==> zero_run(b, i, cur, best).1 >= 2,
    decreases 8 - i,
{
    if i < 8 {
        if segment(b, i as int) == 0 {
            let cur2 = if cur.1 == 0 { (i, 1nat) } else { (cur.0, cur.1 + 1) };
            let best2 = if cur2.1 > best.1 { cur2 } else { best };
            assert forall|t: int| cur2.0 <= t < cur2.0 + cur2.1 implies #[trigger] segment(b, t) == 0 by {
                if t < i {
                    assert(segment(b, t) == 0);
                }
            }
            if exists|p: int| zero_pair(b, p) && p + 1 < i + 1 {
                let p = choose|p: int| zero_pair(b, p) && p + 1 < i + 1;
                if p + 1 == i {
                    assert(cur.1 >= 1);
                    assert(cur2.1 >= 2);
                }
            }
            lemma_zero_run(b, i + 1, cur2, best2);
        } else {
            if exists|p: int| zero_pair(b, p) && p + 1 < i + 1 {
                let p = choose|p: int| zero_pair(b, p) && p + 1 < i + 1;
                assert(p + 1 != i);
            }
            lemma_zero_run(b, i + 1, (0, 0), best);
        }
    } else {
        if exists|p: int| zero_pair(b, p) {
            let p = choose|p: int| zero_pair(b, p);
            assert(p + 1 < 8);
        }
    }
}

/// IPv6 addresses are written as `std::net::Ipv6Addr` writes them (RFC 5952):
/// the text holds `::` exactly when two zero segments stand together, so a
/// lone zero segment is written out as `0` and a run of two or more is
/// shortened to `::`.
pub proof fn law_ipv6_double_colon(b: Seq<u8>)
    requires
        b.len() == 16,
    ensures
        has_double_colon(ipv6_text(b)) <==> exists|p: int| zero_pair(b, p),
{
    let mapped = segment(b, 0) == 0 && segment(b, 1) == 0 && segment(b, 2) == 0 && segment(b, 3) == 0
        && segment(b, 4) == 0 && segment(b, 5) == 0xffff;
    let s = ipv6_text(b);
    if mapped {
        reveal_strlit("::ffff:");
        assert(zero_pair(b, 0));
        assert(s[0] == ':' && s[1] == ':');
    } else {
        lemma_zero_run(b, 0, (0, 0), (0, 0));
        let run = zero_run(b, 0, (0, 0), (0, 0));
        if run.1 > 1 {
            assert(zero_pair(b, run.0 as int));
            let a = segments_text(b, 0, run.0);
            let c = segments_text(b, run.0 + run.1, 8);
            assert(s == a + seq![':', ':'] + c);
            assert(s[a.len() as int] == ':' && s[a.len() as int + 1] == ':');
        } else {
            lemma_segments_text(b, 0, 8);
        }
    }
}

} // verus!
