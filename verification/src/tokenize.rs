//! The Tokenizer: extracts every maximal run of word bytes (ASCII
//! alphanumeric or underscore) whose length is strictly greater than four,
//! in order of appearance, keeping duplicates.

use vstd::prelude::*;

use crate::bytes::{is_word_byte, word_byte};

verus! {

/// The length filter: a finished run survives only if longer than four bytes.
pub open spec fn emit_token(cur: Seq<u8>) -> Seq<Seq<u8>> {
    if cur.len() > 4 {
        seq![cur]
    } else {
        Seq::empty()
    }
}

/// The tokens of `s` when a run `cur` is already open to the left.
pub open spec fn tokens_rec(s: Seq<u8>, cur: Seq<u8>) -> Seq<Seq<u8>>
    decreases s.len(),
{
    if s.len() == 0 {
        emit_token(cur)
    } else if is_word_byte(s[0]) {
        tokens_rec(s.drop_first(), cur.push(s[0]))
    } else {
        emit_token(cur) + tokens_rec(s.drop_first(), Seq::empty())
    }
}

/// All tokens of `s`: maximal word-byte runs longer than four bytes.
pub open spec fn tokens_of(s: Seq<u8>) -> Seq<Seq<u8>> {
    tokens_rec(s, Seq::empty())
}

/// The mathematical view of a list of words.
pub open spec fn byte_views(vs: Seq<Vec<u8>>) -> Seq<Seq<u8>> {
    vs.map_values(|v: Vec<u8>| v@)
}

/// Extract the word-like tokens of `text` longer than four bytes, in order,
/// duplicates kept.
pub fn extract_words(text: &Vec<u8>) -> (words: Vec<Vec<u8>>)
    ensures
        byte_views(words@) == tokens_of(text@),
{
    let n = text.len();
    let mut out: Vec<Vec<u8>> = Vec::new();
    let mut cur: Vec<u8> = Vec::new();
    proof {
        assert(text@.subrange(0, n as int) =~= text@);
        assert(byte_views(out@) + tokens_rec(text@, Seq::empty()) =~= tokens_rec(
            text@,
            Seq::empty(),
        ));
    }
    let mut i: usize = 0;
    while i < n
        invariant
            n == text@.len(),
            i <= n,
            tokens_of(text@) == byte_views(out@) + tokens_rec(
                text@.subrange(i as int, n as int),
                cur@,
            ),
        decreases n - i,
    {
        proof {
            assert(text@.subrange(i as int, n as int).drop_first() =~= text@.subrange(
                i + 1,
                n as int,
            ));
            assert(text@.subrange(i as int, n as int)[0] == text@[i as int]);
        }
        let b = text[i];
        let ghost out_prev = out@;
        let ghost cur_prev = cur@;
        if word_byte(b) {
            cur.push(b);
        } else {
            let ghost rest = tokens_rec(text@.subrange(i + 1, n as int), Seq::<u8>::empty());
            if cur.len() > 4 {
                out.push(cur);
                cur = Vec::new();
                proof {
                    assert(byte_views(out@) =~= byte_views(out_prev).push(cur_prev));
                    assert(byte_views(out_prev) + (emit_token(cur_prev) + rest) =~= byte_views(
                        out@,
                    ) + rest);
                }
            } else {
                cur = Vec::new();
                proof {
                    assert(byte_views(out@) + (emit_token(cur_prev) + rest) =~= byte_views(out@)
                        + rest);
                }
            }
        }
        i += 1;
    }
    proof {
        assert(text@.subrange(n as int, n as int) =~= Seq::<u8>::empty());
    }
    let ghost out_prev = out@;
    let ghost cur_prev = cur@;
    if cur.len() > 4 {
        out.push(cur);
        proof {
            assert(byte_views(out@) =~= byte_views(out_prev).push(cur_prev));
            assert(byte_views(out_prev) + emit_token(cur_prev) =~= byte_views(out@));
        }
    } else {
        proof {
            assert(byte_views(out@) + emit_token(cur_prev) =~= byte_views(out@));
        }
    }
    out
}

} // verus!
