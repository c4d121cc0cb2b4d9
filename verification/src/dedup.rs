//! The Deduplicator: removes all but the first occurrence of each value in
//! the candidate list under ASCII case-insensitive equality, keeping the
//! relative order of the first occurrences.

use vstd::prelude::*;

use crate::matcher::{contains_ci, list_contains_ci};
use crate::tokenize::byte_views;

verus! {

/// The deduplicated tail `ws[i..]`, appended to the already kept words `acc`:
/// a word is kept only if nothing kept so far matches it case-insensitively.
pub open spec fn dedup_rec(ws: Seq<Seq<u8>>, i: int, acc: Seq<Seq<u8>>) -> Seq<Seq<u8>>
    decreases ws.len() - i when 0 <= i
{
    if i >= ws.len() {
        acc
    } else if contains_ci(acc, ws[i]) {
        dedup_rec(ws, i + 1, acc)
    } else {
        dedup_rec(ws, i + 1, acc.push(ws[i]))
    }
}

/// The list with case-insensitive duplicates removed, first occurrences kept
/// in order.
pub open spec fn dedup_spec(ws: Seq<Seq<u8>>) -> Seq<Seq<u8>> {
    dedup_rec(ws, 0, Seq::empty())
}

/// Collapse case-insensitive duplicates in place, keeping the first
/// occurrence of each word and the order of first occurrences.
pub fn dedup_case_insensitive(words: &mut Vec<Vec<u8>>)
    ensures
        byte_views(final(words)@) == dedup_spec(byte_views(old(words)@)),
{
    let n = words.len();
    let ghost ws = byte_views(words@);
    let mut out: Vec<Vec<u8>> = Vec::new();
    proof {
        assert(byte_views(out@) =~= Seq::<Seq<u8>>::empty());
    }
    let mut i: usize = 0;
    while i < n
        invariant
            words@ == old(words)@,
            n == words@.len(),
            ws == byte_views(words@),
            i <= n,
            dedup_rec(ws, i as int, byte_views(out@)) == dedup_spec(ws),
        decreases n - i,
    {
        let w = &words[i];
        proof {
            assert(ws[i as int] == words@[i as int]@);
        }
        let ghost out_prev = out@;
        if !list_contains_ci(&out, w) {
            let m = w.len();
            let mut c: Vec<u8> = Vec::new();
            let mut k: usize = 0;
            while k < m
                invariant
                    m == w@.len(),
                    k <= m,
                    c@ == w@.subrange(0, k as int),
                decreases m - k,
            {
                c.push(w[k]);
                proof {
                    assert(w@.subrange(0, k as int).push(w@[k as int]) =~= w@.subrange(0, k + 1));
                }
                k += 1;
            }
            proof {
                assert(w@.subrange(0, m as int) =~= w@);
            }
            out.push(c);
            proof {
                assert(byte_views(out@) =~= byte_views(out_prev).push(w@));
            }
        }
        i += 1;
    }
    *words = out;
}

} // verus!
