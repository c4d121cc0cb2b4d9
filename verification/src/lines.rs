//! The Input Loader's parsing half: split a text buffer into lines, trim
//! ASCII whitespace from each, and keep the non-empty ones in order.

use vstd::prelude::*;

use crate::bytes::{is_space_byte, space_byte, B_NL};
use crate::tokenize::byte_views;

verus! {

/// The first index at or after `from` holding a non-space byte, or the length.
pub open spec fn first_non_space(s: Seq<u8>, from: int) -> int
    decreases s.len() - from when 0 <= from <= s.len()
{
    if from >= s.len() {
        from
    } else if is_space_byte(s[from]) {
        first_non_space(s, from + 1)
    } else {
        from
    }
}

/// One past the last non-space byte strictly before `upto`, or zero.
pub open spec fn last_non_space(s: Seq<u8>, upto: int) -> int
    decreases upto when 0 <= upto <= s.len()
{
    if upto <= 0 {
        0
    } else if is_space_byte(s[upto - 1]) {
        last_non_space(s, upto - 1)
    } else {
        upto
    }
}

/// `s` without leading and trailing ASCII whitespace.
pub open spec fn trim_spec(s: Seq<u8>) -> Seq<u8> {
    let a = first_non_space(s, 0);
    let b = last_non_space(s, s.len() as int);
    if a < b {
        s.subrange(a, b)
    } else {
        Seq::empty()
    }
}

/// A finished line survives only if something is left after trimming.
pub open spec fn emit_line(cur: Seq<u8>) -> Seq<Seq<u8>> {
    if trim_spec(cur).len() > 0 {
        seq![trim_spec(cur)]
    } else {
        Seq::empty()
    }
}

/// The kept lines of `s` when the line `cur` is already open to the left.
pub open spec fn split_rec(s: Seq<u8>, cur: Seq<u8>) -> Seq<Seq<u8>>
    decreases s.len(),
{
    if s.len() == 0 {
        emit_line(cur)
    } else if s[0] == B_NL {
        emit_line(cur) + split_rec(s.drop_first(), Seq::empty())
    } else {
        split_rec(s.drop_first(), cur.push(s[0]))
    }
}

/// The non-empty trimmed lines of `s`, in order.
pub open spec fn split_lines_spec(s: Seq<u8>) -> Seq<Seq<u8>> {
    split_rec(s, Seq::empty())
}

/// Everything before `upto` is whitespace, so the trimmed end is zero.
proof fn lemma_last_all_spaces(s: Seq<u8>, upto: int)
    requires
        0 <= upto <= s.len(),
        forall|k: int| 0 <= k < upto ==> is_space_byte(s[k]),
    ensures
        last_non_space(s, upto) == 0,
    decreases upto,
{
    if upto > 0 {
        lemma_last_all_spaces(s, upto - 1);
    }
}

/// Strip leading and trailing ASCII whitespace from one line.
pub fn trim_bytes(line: &Vec<u8>) -> (r: Vec<u8>)
    ensures
        r@ == trim_spec(line@),
{
    let n = line.len();
    let mut a: usize = 0;
    while a < n && space_byte(line[a])
        invariant
            n == line@.len(),
            a <= n,
            first_non_space(line@, 0) == first_non_space(line@, a as int),
            forall|k: int| 0 <= k < a ==> is_space_byte(line@[k]),
        decreases n - a,
    {
        a += 1;
    }
    let mut b: usize = n;
    while b > a && space_byte(line[b - 1])
        invariant
            n == line@.len(),
            a <= b <= n,
            last_non_space(line@, n as int) == last_non_space(line@, b as int),
        decreases b,
    {
        b -= 1;
    }
    let mut r: Vec<u8> = Vec::new();
    if b > a {
        crate::bytes::push_range_into(&mut r, line, a, b);
        proof {
            assert(Seq::<u8>::empty() + line@.subrange(a as int, b as int) =~= trim_spec(line@));
        }
    } else {
        proof {
            if a > 0 {
                lemma_last_all_spaces(line@, a as int);
            }
        }
    }
    r
}

/// Split `text` into lines on newline bytes, trim each line, and keep the
/// non-empty ones, in order.
pub fn split_lines(text: &Vec<u8>) -> (lines: Vec<Vec<u8>>)
    ensures
        byte_views(lines@) == split_lines_spec(text@),
{
    let n = text.len();
    let mut out: Vec<Vec<u8>> = Vec::new();
    let mut cur: Vec<u8> = Vec::new();
    proof {
        assert(text@.subrange(0, n as int) =~= text@);
        assert(byte_views(out@) + split_rec(text@, Seq::empty()) =~= split_rec(
            text@,
            Seq::empty(),
        ));
    }
    let mut i: usize = 0;
    while i < n
        invariant
            n == text@.len(),
            i <= n,
            split_lines_spec(text@) == byte_views(out@) + split_rec(
                text@.subrange(i as int, n as int),
                cur@,
            ),
        decreases n - i,
    {
        proof {
            assert(text@.subrange(i as int, n as int).drop_first() =~= text@.subrange(
                i + 1,
                n as int,
            ));
            assert(text@.subrange(i as int, n as int)[0] == text@[i as int]);
        }
        let b = text[i];
        let ghost out_prev = out@;
        let ghost cur_prev = cur@;
        if b == B_NL {
            let ghost rest = split_rec(text@.subrange(i + 1, n as int), Seq::<u8>::empty());
            let t = trim_bytes(&cur);
            if t.len() > 0 {
                out.push(t);
                proof {
                    assert(byte_views(out@) =~= byte_views(out_prev).push(trim_spec(cur_prev)));
                    assert(byte_views(out_prev) + (emit_line(cur_prev) + rest) =~= byte_views(out@)
                        + rest);
                }
            } else {
                proof {
                    assert(byte_views(out@) + (emit_line(cur_prev) + rest) =~= byte_views(out@)
                        + rest);
                }
            }
            cur = Vec::new();
        } else {
            cur.push(b);
        }
        i += 1;
    }
    proof {
        assert(text@.subrange(n as int, n as int) =~= Seq::<u8>::empty());
    }
    let ghost out_prev = out@;
    let ghost cur_prev = cur@;
    let t = trim_bytes(&cur);
    if t.len() > 0 {
        out.push(t);
        proof {
            assert(byte_views(out@) =~= byte_views(out_prev).push(trim_spec(cur_prev)));
            assert(byte_views(out_prev) + emit_line(cur_prev) =~= byte_views(out@));
        }
    } else {
        proof {
            assert(byte_views(out@) + emit_line(cur_prev) =~= byte_views(out@));
        }
    }
    out
}

} // verus!
