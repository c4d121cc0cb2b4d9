//! Laws of the library, proved once and for all inputs: cleaning leaves
//! already-clean text unchanged; a whole script element disappears in the
//! script pass, so no tag fragments inside it can leak into later passes;
//! every extracted token survives the length filter; and deduplication
//! leaves no two case-insensitively equal entries behind.

use vstd::prelude::*;

use crate::bytes::{
    eq_ci, find_byte_from, find_from, is_digit_byte, lemma_find_byte_from_ok,
    lemma_find_byte_offset, lemma_find_from_offset, lemma_find_from_ok, lemma_find_from_skip,
    match_at, B_AMP, B_DOT, B_GT, B_LT,
};
use crate::clean::{
    clean_spec, close_script, close_style, lemma_strip_elements_from_suffix, open_script,
    open_style, strip_elements, strip_elements_from, strip_entities, strip_entities_from,
    strip_numbers, strip_tags, NumState,
};
use crate::dedup::{dedup_rec, dedup_spec};
use crate::matcher::contains_ci;
use crate::tokenize::{tokens_of, tokens_rec};

verus! {

/// Text with no tag opener, no character-reference opener and no digit:
/// nothing any cleaning pass could match.
pub open spec fn is_plain_text(s: Seq<u8>) -> bool {
    forall|k: int|
        0 <= k < s.len() ==> s[k] != B_LT && s[k] != B_AMP && !is_digit_byte(#[trigger] s[k])
}

/// An element pass whose opening pattern starts with `<` leaves text without
/// `<` unchanged.
proof fn lemma_strip_elements_plain(s: Seq<u8>, open: Seq<u8>, close: Seq<u8>)
    requires
        open.len() > 0,
        close.len() > 0,
        open[0] == B_LT,
        forall|k: int| 0 <= k < s.len() ==> s[k] != B_LT,
    ensures
        strip_elements(s, open, close) == s,
{
    lemma_find_from_ok(s, open, 0);
    if let Some(i) = find_from(s, open, 0) {
        assert(s.subrange(i, i + open.len() as int)[0] == s[i]);
        assert(false);
    }
    assert(s.subrange(0, s.len() as int) =~= s);
}

/// The tag pass leaves text without `<` unchanged.
proof fn lemma_strip_tags_plain(s: Seq<u8>)
    requires
        forall|k: int| 0 <= k < s.len() ==> s[k] != B_LT,
    ensures
        strip_tags(s) == s,
{
    lemma_find_byte_from_ok(s, B_LT, 0);
    assert(s.subrange(0, s.len() as int) =~= s);
}

/// The character-reference pass leaves text without `&` unchanged.
proof fn lemma_strip_entities_plain(s: Seq<u8>, from: int)
    requires
        0 <= from <= s.len(),
        forall|k: int| 0 <= k < s.len() ==> s[k] != B_AMP,
    ensures
        strip_entities_from(s, from) == s.subrange(from, s.len() as int),
    decreases s.len() - from,
{
    if from >= s.len() {
        assert(s.subrange(from, s.len() as int) =~= Seq::<u8>::empty());
    } else {
        lemma_strip_entities_plain(s, from + 1);
        assert(seq![s[from]] + s.subrange(from + 1, s.len() as int) =~= s.subrange(
            from,
            s.len() as int,
        ));
    }
}

/// The number pass leaves text without digits unchanged.
proof fn lemma_strip_numbers_plain(s: Seq<u8>)
    requires
        forall|k: int| 0 <= k < s.len() ==> !is_digit_byte(#[trigger] s[k]),
    ensures
        strip_numbers(s) == s,
    decreases s.len(),
{
    if s.len() > 0 {
        assert(forall|k: int|
            0 <= k < s.drop_first().len() ==> !is_digit_byte(#[trigger] s.drop_first()[k]));
        lemma_strip_numbers_plain(s.drop_first());
        assert(!(s[0] == B_DOT && NumState::Outside is IntPart));
        assert(seq![s[0]] + s.drop_first() =~= s);
    }
}

/// An element pass walks over a prefix that holds no `<` and goes on with the
/// rest.
proof fn lemma_strip_elements_skip_prefix(pre: Seq<u8>, rest: Seq<u8>, open: Seq<u8>, close: Seq<
    u8,
>)
    requires
        open.len() > 0,
        close.len() > 0,
        open[0] == B_LT,
        forall|k: int| 0 <= k < pre.len() ==> pre[k] != B_LT,
    ensures
        strip_elements(pre + rest, open, close) == pre + strip_elements(rest, open, close),
{
    let s = pre + rest;
    let p = pre.len() as int;
    assert forall|k: int| 0 <= k < p implies !match_at(s, open, k) by {
        if match_at(s, open, k) {
            assert(s.subrange(k, k + open.len() as int)[0] == s[k]);
        }
    }
    lemma_find_from_skip(s, open, 0, p);
    lemma_find_from_offset(s, open, p, p);
    assert(s.subrange(p, s.len() as int) =~= rest);
    match find_from(rest, open, 0) {
        None => {
            assert(s.subrange(0, s.len() as int) =~= s);
            assert(rest.subrange(0, rest.len() as int) =~= rest);
        },
        Some(i) => {
            lemma_find_from_ok(rest, open, 0);
            lemma_find_byte_offset(s, B_GT, p, p + i + open.len() as int);
            match find_byte_from(rest, B_GT, i + open.len()) {
                None => {
                    assert(s.subrange(0, s.len() as int) =~= s);
                    assert(rest.subrange(0, rest.len() as int) =~= rest);
                },
                Some(j) => {
                    lemma_find_byte_from_ok(rest, B_GT, i + open.len() as int);
                    lemma_find_from_offset(s, close, p, p + j + 1);
                    match find_from(rest, close, j + 1) {
                        None => {
                            assert(s.subrange(0, s.len() as int) =~= s);
                            assert(rest.subrange(0, rest.len() as int) =~= rest);
                        },
                        Some(k) => {
                            lemma_find_from_ok(rest, close, j + 1);
                            let next = k + close.len() as int;
                            lemma_strip_elements_from_suffix(s, open, close, p + next);
                            lemma_strip_elements_from_suffix(rest, open, close, next);
                            assert(s.subrange(p + next, s.len() as int) =~= rest.subrange(
                                next,
                                rest.len() as int,
                            ));
                            assert(s.subrange(0, p + i) =~= pre + rest.subrange(0, i));
                            assert((pre + rest.subrange(0, i)) + strip_elements(
                                rest.subrange(next, rest.len() as int),
                                open,
                                close,
                            ) =~= pre + (rest.subrange(0, i) + strip_elements(
                                rest.subrange(next, rest.len() as int),
                                open,
                                close,
                            )));
                        },
                    }
                },
            }
        },
    }
}

/// The bytes of the plain opening tag `<script>`.
pub open spec fn open_script_tag() -> Seq<u8> {
    open_script().push(B_GT)
}

/// The script pass finds the element's opening tag first: nothing matches
/// before it.
proof fn lemma_block_open_found(pre: Seq<u8>, mid: Seq<u8>, post: Seq<u8>)
    requires
        forall|k: int| 0 <= k < pre.len() ==> pre[k] != B_LT,
    ensures
        find_from(
            pre + open_script_tag() + mid + close_script() + post,
            open_script(),
            0,
        ) == Some(pre.len() as int),
{
    let s = pre + open_script_tag() + mid + close_script() + post;
    let p = pre.len() as int;
    assert(s.subrange(p, p + 7) =~= open_script());
    assert forall|k: int| 0 <= k < p implies !match_at(s, open_script(), k) by {
        if match_at(s, open_script(), k) {
            assert(s.subrange(k, k + 7)[0] == s[k]);
        }
    }
    lemma_find_from_skip(s, open_script(), 0, p);
    assert(find_from(s, open_script(), p) == Some(p));
}

/// The script pass finds the element's closing tag next: the content holds
/// none of its own, and none can straddle the boundary.
#[verifier::rlimit(100)]
proof fn lemma_block_close_found(pre: Seq<u8>, mid: Seq<u8>, post: Seq<u8>)
    requires
        forall|k: int| !match_at(mid, close_script(), k),
    ensures
        find_from(
            pre + open_script_tag() + mid + close_script() + post,
            close_script(),
            pre.len() + 8int,
        ) == Some(pre.len() + 8 + mid.len() as int),
{
    let cs = close_script();
    let s = pre + open_script_tag() + mid + close_script() + post;
    let p = pre.len() as int;
    let oe = p + 8;
    let ce = oe + mid.len() as int;
    assert(s.subrange(ce, ce + 9) =~= cs);
    assert forall|k: int| oe <= k < ce implies !match_at(s, cs, k) by {
        if match_at(s, cs, k) {
            if k + 9 <= ce {
                assert(mid.subrange(k - oe, k - oe + 9) =~= s.subrange(k, k + 9));
                assert(match_at(mid, cs, k - oe));
            } else {
                let d = ce - k;
                assert(s.subrange(k, k + 9)[d] == s[ce]);
                assert(s.subrange(ce, ce + 9)[0] == s[ce]);
                assert(cs[d] != 60);
                assert(cs[0] == 60);
            }
        }
    }
    lemma_find_from_skip(s, cs, oe, ce);
    assert(find_from(s, cs, ce) == Some(ce));
}

/// The script pass takes the whole element out in one step.
proof fn lemma_script_pass_removes_block(pre: Seq<u8>, mid: Seq<u8>, post: Seq<u8>)
    requires
        forall|k: int| 0 <= k < pre.len() ==> pre[k] != B_LT,
        forall|k: int| !match_at(mid, close_script(), k),
    ensures
        strip_elements(
            pre + open_script_tag() + mid + close_script() + post,
            open_script(),
            close_script(),
        ) == pre + strip_elements(post, open_script(), close_script()),
{
    let cs = close_script();
    let os = open_script();
    let s = pre + open_script_tag() + mid + close_script() + post;
    let p = pre.len() as int;
    let ce = p + 8 + mid.len() as int;
    let pe = ce + 9;
    lemma_block_open_found(pre, mid, post);
    assert(s[p + 7] == B_GT);
    assert(find_byte_from(s, B_GT, p + 7) == Some(p + 7));
    lemma_block_close_found(pre, mid, post);
    assert(strip_elements(s, os, cs) == s.subrange(0, p) + strip_elements_from(s, os, cs, pe));
    lemma_strip_elements_from_suffix(s, os, cs, pe);
    assert(s.subrange(pe, s.len() as int) =~= post);
    assert(s.subrange(0, p) =~= pre);
}

/// Law: a script element whose content may itself hold tag-like text is
/// removed whole by the script pass, before the tag pass runs, so nothing of
/// its inside leaks into the cleaned text. The content must not hold a
/// closing script tag of its own, and the text before the element no `<`.
pub proof fn lemma_script_block_removed(pre: Seq<u8>, mid: Seq<u8>, post: Seq<u8>)
    requires
        forall|k: int| 0 <= k < pre.len() ==> pre[k] != B_LT,
        forall|k: int| !match_at(mid, close_script(), k),
    ensures
        clean_spec(pre + open_script_tag() + mid + close_script() + post) == clean_spec(
            pre + post,
        ),
{
    lemma_script_pass_removes_block(pre, mid, post);
    lemma_strip_elements_skip_prefix(pre, post, open_script(), close_script());
}

proof fn lemma_tokens_rec_longer_than_four(s: Seq<u8>, cur: Seq<u8>)
    ensures
        forall|t: int|
            0 <= t < tokens_rec(s, cur).len() ==> (#[trigger] tokens_rec(s, cur)[t]).len() > 4,
    decreases s.len(),
{
    if s.len() > 0 {
        if crate::bytes::is_word_byte(s[0]) {
            lemma_tokens_rec_longer_than_four(s.drop_first(), cur.push(s[0]));
            assert forall|t: int| 0 <= t < tokens_rec(s, cur).len() implies (#[trigger] tokens_rec(
                s,
                cur,
            )[t]).len() > 4 by {
                assert(tokens_rec(s, cur)[t] == tokens_rec(s.drop_first(), cur.push(s[0]))[t]);
            }
        } else {
            lemma_tokens_rec_longer_than_four(s.drop_first(), Seq::empty());
            let emitted = crate::tokenize::emit_token(cur);
            let rest = tokens_rec(s.drop_first(), Seq::empty());
            assert forall|t: int| 0 <= t < tokens_rec(s, cur).len() implies (#[trigger] tokens_rec(
                s,
                cur,
            )[t]).len() > 4 by {
                if t < emitted.len() {
                    assert(tokens_rec(s, cur)[t] == emitted[t]);
                } else {
                    assert(tokens_rec(s, cur)[t] == rest[t - emitted.len()]);
                }
            }
        }
    }
}

/// Law: the tokenizer's length filter holds of every output: no extracted
/// token is four bytes or shorter.
pub proof fn lemma_tokens_longer_than_four(s: Seq<u8>)
    ensures
        forall|t: int| 0 <= t < tokens_of(s).len() ==> (#[trigger] tokens_of(s)[t]).len() > 4,
{
    lemma_tokens_rec_longer_than_four(s, Seq::empty());
}

proof fn lemma_dedup_rec_distinct(ws: Seq<Seq<u8>>, i: int, acc: Seq<Seq<u8>>)
    requires
        0 <= i,
        forall|a: int, b: int| 0 <= a < b < acc.len() ==> !eq_ci(acc[a], acc[b]),
    ensures
        forall|a: int, b: int|
            0 <= a < b < dedup_rec(ws, i, acc).len() ==> !eq_ci(
                dedup_rec(ws, i, acc)[a],
                dedup_rec(ws, i, acc)[b],
            ),
    decreases ws.len() - i,
{
    if i >= ws.len() {
    } else if contains_ci(acc, ws[i]) {
        lemma_dedup_rec_distinct(ws, i + 1, acc);
        let d = dedup_rec(ws, i, acc);
        assert forall|a: int, b: int| 0 <= a < b < d.len() implies !eq_ci(d[a], d[b]) by {
            assert(!eq_ci(dedup_rec(ws, i + 1, acc)[a], dedup_rec(ws, i + 1, acc)[b]));
        }
    } else {
        let acc2 = acc.push(ws[i]);
        assert forall|a: int, b: int| 0 <= a < b < acc2.len() implies !eq_ci(
            acc2[a],
            acc2[b],
        ) by {
            assert(acc2[a] == acc[a]);
            if b == acc.len() {
                assert(acc2[b] == ws[i]);
                if eq_ci(acc[a], ws[i]) {
                    assert(contains_ci(acc, ws[i]));
                }
            } else {
                assert(acc2[b] == acc[b]);
            }
        }
        lemma_dedup_rec_distinct(ws, i + 1, acc2);
        let d = dedup_rec(ws, i, acc);
        assert forall|a: int, b: int| 0 <= a < b < d.len() implies !eq_ci(d[a], d[b]) by {
            assert(!eq_ci(dedup_rec(ws, i + 1, acc2)[a], dedup_rec(ws, i + 1, acc2)[b]));
        }
    }
}

/// Law: after deduplication, no two entries of the list are equal under
/// ASCII case-insensitive comparison.
pub proof fn lemma_dedup_no_duplicates(ws: Seq<Seq<u8>>)
    ensures
        forall|a: int, b: int|
            0 <= a < b < dedup_spec(ws).len() ==> !eq_ci(dedup_spec(ws)[a], dedup_spec(ws)[b]),
{
    lemma_dedup_rec_distinct(ws, 0, Seq::empty());
}

/// Law: running the Cleaner on text already free of scripts, styles, tags,
/// character references and numbers returns it unchanged.
pub proof fn lemma_clean_idempotent_on_clean(s: Seq<u8>)
    requires
        is_plain_text(s),
    ensures
        clean_spec(s) == s,
{
    lemma_strip_elements_plain(s, open_script(), close_script());
    lemma_strip_elements_plain(s, open_style(), close_style());
    lemma_strip_tags_plain(s);
    lemma_strip_entities_plain(s, 0);
    assert(strip_entities(s) == s.subrange(0, s.len() as int));
    assert(s.subrange(0, s.len() as int) =~= s);
    lemma_strip_numbers_plain(s);
}

} // verus!
