//! The Cleaner: five ordered substitution passes that strip script elements,
//! style elements, remaining markup tags, character references of the form
//! `&...;`, and numeric tokens from a raw text buffer.
//!
//! Each pass removes the shortest span that fits its shape, scanning left to
//! right, exactly as the pass before it left the text.

use vstd::prelude::*;

use crate::bytes::{
    digit_byte, find_byte, find_byte_from, find_from, find_pattern, is_digit_byte,
    lemma_find_from_ok, push_range_into, B_AMP, B_DOT, B_GT, B_LT, B_NL, B_SEMI,
};

verus! {

/// The bytes of `<script`.
pub open spec fn open_script() -> Seq<u8> {
    seq![60u8, 115u8, 99u8, 114u8, 105u8, 112u8, 116u8]
}

/// The bytes of `</script>`.
pub open spec fn close_script() -> Seq<u8> {
    seq![60u8, 47u8, 115u8, 99u8, 114u8, 105u8, 112u8, 116u8, 62u8]
}

/// The bytes of `<style`.
pub open spec fn open_style() -> Seq<u8> {
    seq![60u8, 115u8, 116u8, 121u8, 108u8, 101u8]
}

/// The bytes of `</style>`.
pub open spec fn close_style() -> Seq<u8> {
    seq![60u8, 47u8, 115u8, 116u8, 121u8, 108u8, 101u8, 62u8]
}

fn open_script_pat() -> (v: Vec<u8>)
    ensures
        v@ == open_script(),
{
    let mut v: Vec<u8> = Vec::new();
    v.push(60);
    v.push(115);
    v.push(99);
    v.push(114);
    v.push(105);
    v.push(112);
    v.push(116);
    proof {
        assert(v@ =~= open_script());
    }
    v
}

fn close_script_pat() -> (v: Vec<u8>)
    ensures
        v@ == close_script(),
{
    let mut v: Vec<u8> = Vec::new();
    v.push(60);
    v.push(47);
    v.push(115);
    v.push(99);
    v.push(114);
    v.push(105);
    v.push(112);
    v.push(116);
    v.push(62);
    proof {
        assert(v@ =~= close_script());
    }
    v
}

fn open_style_pat() -> (v: Vec<u8>)
    ensures
        v@ == open_style(),
{
    let mut v: Vec<u8> = Vec::new();
    v.push(60);
    v.push(115);
    v.push(116);
    v.push(121);
    v.push(108);
    v.push(101);
    proof {
        assert(v@ =~= open_style());
    }
    v
}

fn close_style_pat() -> (v: Vec<u8>)
    ensures
        v@ == close_style(),
{
    let mut v: Vec<u8> = Vec::new();
    v.push(60);
    v.push(47);
    v.push(115);
    v.push(116);
    v.push(121);
    v.push(108);
    v.push(101);
    v.push(62);
    proof {
        assert(v@ =~= close_style());
    }
    v
}

/// What remains of `s[from..]` after removing every element span: the shortest
/// span from an occurrence of `open`, through the next `>`, to the end of the
/// next occurrence of `close`.
pub open spec fn strip_elements_from(s: Seq<u8>, open: Seq<u8>, close: Seq<u8>, from: int) -> Seq<
    u8,
>
    decreases s.len() - from
        when 0 <= from <= s.len() && 0 < open.len() && 0 < close.len()
        via strip_elements_from_decreases
{
    match find_from(s, open, from) {
        None => s.subrange(from, s.len() as int),
        Some(i) => match find_byte_from(s, B_GT, i + open.len()) {
            None => s.subrange(from, s.len() as int),
            Some(j) => match find_from(s, close, j + 1) {
                None => s.subrange(from, s.len() as int),
                Some(k) => s.subrange(from, i) + strip_elements_from(
                    s,
                    open,
                    close,
                    k + close.len(),
                ),
            },
        },
    }
}

#[via_fn]
proof fn strip_elements_from_decreases(s: Seq<u8>, open: Seq<u8>, close: Seq<u8>, from: int) {
    lemma_find_from_ok(s, open, from);
    if let Some(i) = find_from(s, open, from) {
        crate::bytes::lemma_find_byte_from_ok(s, B_GT, i + open.len());
        if let Some(j) = find_byte_from(s, B_GT, i + open.len()) {
            lemma_find_from_ok(s, close, j + 1);
        }
    }
}

/// One whole pass over `s`.
pub open spec fn strip_elements(s: Seq<u8>, open: Seq<u8>, close: Seq<u8>) -> Seq<u8> {
    strip_elements_from(s, open, close, 0)
}

/// The pass over the tail `s[from..]` is the whole pass over that tail taken
/// as a text of its own.
pub proof fn lemma_strip_elements_from_suffix(s: Seq<u8>, open: Seq<u8>, close: Seq<u8>, from: int)
    requires
        0 <= from <= s.len(),
        open.len() > 0,
        close.len() > 0,
    ensures
        strip_elements_from(s, open, close, from) == strip_elements(
            s.subrange(from, s.len() as int),
            open,
            close,
        ),
    decreases s.len() - from,
{
    let sub = s.subrange(from, s.len() as int);
    crate::bytes::lemma_find_from_offset(s, open, from, from);
    match find_from(s, open, from) {
        None => {
            assert(sub.subrange(0, sub.len() as int) =~= sub);
        },
        Some(i) => {
            lemma_find_from_ok(s, open, from);
            crate::bytes::lemma_find_byte_offset(s, B_GT, from, i + open.len() as int);
            match find_byte_from(s, B_GT, i + open.len()) {
                None => {
                    assert(sub.subrange(0, sub.len() as int) =~= sub);
                },
                Some(j) => {
                    crate::bytes::lemma_find_byte_from_ok(s, B_GT, i + open.len() as int);
                    crate::bytes::lemma_find_from_offset(s, close, from, j + 1);
                    match find_from(s, close, j + 1) {
                        None => {
                            assert(sub.subrange(0, sub.len() as int) =~= sub);
                        },
                        Some(k) => {
                            lemma_find_from_ok(s, close, j + 1);
                            let next = k + close.len() as int;
                            lemma_strip_elements_from_suffix(s, open, close, next);
                            lemma_strip_elements_from_suffix(sub, open, close, next - from);
                            assert(sub.subrange(next - from, sub.len() as int) =~= s.subrange(
                                next,
                                s.len() as int,
                            ));
                            assert(sub.subrange(0, i - from) =~= s.subrange(from, i));
                        },
                    }
                },
            }
        },
    }
}

/// Remove every element span shaped `open ... > ... close` from `text`.
fn strip_elements_vec(text: &Vec<u8>, open: &Vec<u8>, close: &Vec<u8>) -> (out: Vec<u8>)
    requires
        open@.len() > 0,
        close@.len() > 0,
    ensures
        out@ == strip_elements(text@, open@, close@),
{
    let n = text.len();
    let mut out: Vec<u8> = Vec::new();
    let mut pos: usize = 0;
    loop
        invariant_except_break
            n == text@.len(),
            open@.len() > 0,
            close@.len() > 0,
            pos <= n,
            strip_elements(text@, open@, close@) == out@ + strip_elements_from(
                text@,
                open@,
                close@,
                pos as int,
            ),
        ensures
            out@ == strip_elements(text@, open@, close@),
        decreases n - pos,
    {
        let r_open = find_pattern(text, open, pos);
        if let Some(i) = r_open {
            proof {
                lemma_find_from_ok(text@, open@, pos as int);
            }
            let r_gt = find_byte(text, B_GT, i + open.len());
            if let Some(j) = r_gt {
                proof {
                    crate::bytes::lemma_find_byte_from_ok(text@, B_GT, i + open@.len() as int);
                }
                let r_close = find_pattern(text, close, j + 1);
                if let Some(k) = r_close {
                    proof {
                        lemma_find_from_ok(text@, close@, j + 1);
                    }
                    push_range_into(&mut out, text, pos, i);
                    pos = k + close.len();
                } else {
                    push_range_into(&mut out, text, pos, n);
                    proof {
                        assert(out@ =~= strip_elements(text@, open@, close@));
                    }
                    break ;
                }
            } else {
                push_range_into(&mut out, text, pos, n);
                proof {
                    assert(out@ =~= strip_elements(text@, open@, close@));
                }
                break ;
            }
        } else {
            push_range_into(&mut out, text, pos, n);
            proof {
                assert(out@ =~= strip_elements(text@, open@, close@));
            }
            break ;
        }
    }
    out
}

/// What remains of `s[from..]` after removing every markup tag: the shortest
/// span from a `<` to the next `>`.
pub open spec fn strip_tags_from(s: Seq<u8>, from: int) -> Seq<u8>
    decreases s.len() - from
        when 0 <= from <= s.len()
        via strip_tags_from_decreases
{
    match find_byte_from(s, B_LT, from) {
        None => s.subrange(from, s.len() as int),
        Some(i) => match find_byte_from(s, B_GT, i + 1) {
            None => s.subrange(from, s.len() as int),
            Some(j) => s.subrange(from, i) + strip_tags_from(s, j + 1),
        },
    }
}

#[via_fn]
proof fn strip_tags_from_decreases(s: Seq<u8>, from: int) {
    crate::bytes::lemma_find_byte_from_ok(s, B_LT, from);
    if let Some(i) = find_byte_from(s, B_LT, from) {
        crate::bytes::lemma_find_byte_from_ok(s, B_GT, i + 1);
    }
}

/// One whole tag-removal pass over `s`.
pub open spec fn strip_tags(s: Seq<u8>) -> Seq<u8> {
    strip_tags_from(s, 0)
}

/// Remove every `<...>` span from `text`.
fn strip_tags_vec(text: &Vec<u8>) -> (out: Vec<u8>)
    ensures
        out@ == strip_tags(text@),
{
    let n = text.len();
    let mut out: Vec<u8> = Vec::new();
    let mut pos: usize = 0;
    loop
        invariant_except_break
            n == text@.len(),
            pos <= n,
            strip_tags(text@) == out@ + strip_tags_from(text@, pos as int),
        ensures
            out@ == strip_tags(text@),
        decreases n - pos,
    {
        let r_lt = find_byte(text, B_LT, pos);
        if let Some(i) = r_lt {
            proof {
                crate::bytes::lemma_find_byte_from_ok(text@, B_LT, pos as int);
            }
            let r_gt = find_byte(text, B_GT, i + 1);
            if let Some(j) = r_gt {
                proof {
                    crate::bytes::lemma_find_byte_from_ok(text@, B_GT, i + 1);
                }
                push_range_into(&mut out, text, pos, i);
                pos = j + 1;
            } else {
                push_range_into(&mut out, text, pos, n);
                proof {
                    assert(out@ =~= strip_tags(text@));
                }
                break ;
            }
        } else {
            push_range_into(&mut out, text, pos, n);
            proof {
                assert(out@ =~= strip_tags(text@));
            }
            break ;
        }
    }
    out
}

/// The first `;` at or after `from` that comes before any newline, if any:
/// a character reference must close on the line it opened.
pub open spec fn find_semi(s: Seq<u8>, from: int) -> Option<int>
    decreases s.len() - from
        when 0 <= from
{
    if from >= s.len() {
        None
    } else if s[from] == B_SEMI {
        Some(from)
    } else if s[from] == B_NL {
        None
    } else {
        find_semi(s, from + 1)
    }
}

/// `find_semi` returns an index of `;` past `from`, within the sequence.
pub proof fn lemma_find_semi_ok(s: Seq<u8>, from: int)
    requires
        0 <= from,
    ensures
        match find_semi(s, from) {
            Some(j) => from <= j < s.len() && s[j] == B_SEMI,
            None => true,
        },
    decreases s.len() - from,
{
    if from >= s.len() {
    } else if s[from] == B_SEMI {
    } else if s[from] == B_NL {
    } else {
        lemma_find_semi_ok(s, from + 1);
    }
}

/// What remains of `s[from..]` after removing every character reference:
/// the shortest span from a `&` to a `;` on the same line.
pub open spec fn strip_entities_from(s: Seq<u8>, from: int) -> Seq<u8>
    decreases s.len() - from
        when 0 <= from
        via strip_entities_from_decreases
{
    if from >= s.len() {
        Seq::empty()
    } else if s[from] == B_AMP {
        match find_semi(s, from + 1) {
            Some(j) => strip_entities_from(s, j + 1),
            None => seq![s[from]] + strip_entities_from(s, from + 1),
        }
    } else {
        seq![s[from]] + strip_entities_from(s, from + 1)
    }
}

#[via_fn]
proof fn strip_entities_from_decreases(s: Seq<u8>, from: int) {
    if from < s.len() && s[from] == B_AMP {
        lemma_find_semi_ok(s, from + 1);
    }
}

/// One whole character-reference pass over `s`.
pub open spec fn strip_entities(s: Seq<u8>) -> Seq<u8> {
    strip_entities_from(s, 0)
}

/// Find the closing `;` for a reference opened just before `from`, stopping
/// at the end of the line.
fn find_semi_vec(text: &Vec<u8>, from: usize) -> (r: Option<usize>)
    ensures
        match r {
            Some(j) => find_semi(text@, from as int) == Some(j as int) && j < text@.len(),
            None => find_semi(text@, from as int) is None,
        },
{
    let n = text.len();
    let mut i: usize = from;
    while i < n
        invariant
            n == text@.len(),
            from <= i,
            find_semi(text@, from as int) == find_semi(text@, i as int),
        decreases n - i,
    {
        if text[i] == B_SEMI {
            return Some(i);
        }
        if text[i] == B_NL {
            return None;
        }
        i += 1;
    }
    None
}

/// Remove every `&...;` span (closed on its own line) from `text`.
fn strip_entities_vec(text: &Vec<u8>) -> (out: Vec<u8>)
    ensures
        out@ == strip_entities(text@),
{
    let n = text.len();
    let mut out: Vec<u8> = Vec::new();
    let mut pos: usize = 0;
    while pos < n
        invariant
            n == text@.len(),
            pos <= n,
            strip_entities(text@) == out@ + strip_entities_from(text@, pos as int),
        decreases n - pos,
    {
        let b = text[pos];
        let ghost out_prev = out@;
        if b == B_AMP {
            match find_semi_vec(text, pos + 1) {
                Some(j) => {
                    proof {
                        lemma_find_semi_ok(text@, pos + 1);
                    }
                    pos = j + 1;
                },
                None => {
                    out.push(b);
                    proof {
                        assert(out_prev + (seq![text@[pos as int]] + strip_entities_from(
                            text@,
                            pos + 1,
                        )) =~= out@ + strip_entities_from(text@, pos + 1));
                    }
                    pos = pos + 1;
                },
            }
        } else {
            out.push(b);
            proof {
                assert(out_prev + (seq![text@[pos as int]] + strip_entities_from(text@, pos + 1))
                    =~= out@ + strip_entities_from(text@, pos + 1));
            }
            pos = pos + 1;
        }
    }
    proof {
        assert(out@ + strip_entities_from(text@, pos as int) =~= out@);
    }
    out
}

/// Where the number scan stands: outside any number, inside the digits before
/// a dot, or inside the digits after one.
pub enum NumState {
    Outside,
    IntPart,
    FracPart,
}

/// What remains of `s` after removing every numeric token (digits, optionally
/// a dot and more digits), entered in state `st`.
pub open spec fn strip_numbers_rec(s: Seq<u8>, st: NumState) -> Seq<u8>
    decreases s.len(),
{
    if s.len() == 0 {
        Seq::empty()
    } else {
        let b = s[0];
        let rest = s.drop_first();
        if is_digit_byte(b) {
            strip_numbers_rec(
                rest,
                if st is FracPart {
                    NumState::FracPart
                } else {
                    NumState::IntPart
                },
            )
        } else if b == B_DOT && st is IntPart {
            if rest.len() > 0 && is_digit_byte(rest[0]) {
                strip_numbers_rec(rest, NumState::FracPart)
            } else {
                seq![b] + strip_numbers_rec(rest, NumState::Outside)
            }
        } else {
            seq![b] + strip_numbers_rec(rest, NumState::Outside)
        }
    }
}

/// One whole number-removal pass over `s`.
pub open spec fn strip_numbers(s: Seq<u8>) -> Seq<u8> {
    strip_numbers_rec(s, NumState::Outside)
}

/// Remove every numeric token from `text`.
fn strip_numbers_vec(text: &Vec<u8>) -> (out: Vec<u8>)
    ensures
        out@ == strip_numbers(text@),
{
    let n = text.len();
    let mut out: Vec<u8> = Vec::new();
    let mut pos: usize = 0;
    let mut in_int = false;
    let mut in_frac = false;
    proof {
        assert(text@.subrange(0, n as int) =~= text@);
        assert(Seq::<u8>::empty() + strip_numbers_rec(text@, NumState::Outside)
            =~= strip_numbers_rec(text@, NumState::Outside));
    }
    while pos < n
        invariant
            n == text@.len(),
            pos <= n,
            !(in_int && in_frac),
            strip_numbers(text@) == out@ + strip_numbers_rec(
                text@.subrange(pos as int, n as int),
                if in_int {
                    NumState::IntPart
                } else if in_frac {
                    NumState::FracPart
                } else {
                    NumState::Outside
                },
            ),
        decreases n - pos,
    {
        proof {
            assert(text@.subrange(pos as int, n as int).drop_first() =~= text@.subrange(
                pos + 1,
                n as int,
            ));
            assert(text@.subrange(pos as int, n as int)[0] == text@[pos as int]);
        }
        let b = text[pos];
        if digit_byte(b) {
            if !in_frac {
                in_int = true;
            }
        } else if b == B_DOT && in_int && pos + 1 < n && digit_byte(text[pos + 1]) {
            proof {
                assert(text@.subrange(pos + 1, n as int)[0] == text@[pos + 1]);
            }
            in_int = false;
            in_frac = true;
        } else {
            proof {
                assert(out@.push(text@[pos as int]) =~= out@ + seq![text@[pos as int]]);
                assert((out@ + seq![text@[pos as int]]) + strip_numbers_rec(
                    text@.subrange(pos + 1, n as int),
                    NumState::Outside,
                ) =~= out@ + (seq![text@[pos as int]] + strip_numbers_rec(
                    text@.subrange(pos + 1, n as int),
                    NumState::Outside,
                )));
            }
            out.push(b);
            in_int = false;
            in_frac = false;
        }
        pos += 1;
    }
    proof {
        assert(text@.subrange(pos as int, n as int) =~= Seq::<u8>::empty());
        assert(out@ + Seq::<u8>::empty() =~= out@);
    }
    out
}

/// The full cleaning pipeline: scripts, then styles, then tags, then
/// character references, then numbers, each pass on the one before's output.
pub open spec fn clean_spec(s: Seq<u8>) -> Seq<u8> {
    strip_numbers(
        strip_entities(
            strip_tags(
                strip_elements(
                    strip_elements(s, open_script(), close_script()),
                    open_style(),
                    close_style(),
                ),
            ),
        ),
    )
}

/// Remove whole script elements, shortest span from an opening script tag to
/// its closing tag.
pub fn remove_scripts(text: &mut Vec<u8>)
    ensures
        final(text)@ == strip_elements(old(text)@, open_script(), close_script()),
{
    let open = open_script_pat();
    let close = close_script_pat();
    let out = strip_elements_vec(text, &open, &close);
    *text = out;
}

/// Remove whole style elements, shortest span from an opening style tag to
/// its closing tag.
pub fn remove_style(text: &mut Vec<u8>)
    ensures
        final(text)@ == strip_elements(old(text)@, open_style(), close_style()),
{
    let open = open_style_pat();
    let close = close_style_pat();
    let out = strip_elements_vec(text, &open, &close);
    *text = out;
}

/// Remove every remaining markup tag `<...>`, shortest match.
pub fn remove_html_nodes(text: &mut Vec<u8>)
    ensures
        final(text)@ == strip_tags(old(text)@),
{
    let out = strip_tags_vec(text);
    *text = out;
}

/// Remove every character reference `&...;`, shortest match within a line.
pub fn remove_html_text(text: &mut Vec<u8>)
    ensures
        final(text)@ == strip_entities(old(text)@),
{
    let out = strip_entities_vec(text);
    *text = out;
}

/// Remove every numeric token: digits, optionally a dot and more digits.
pub fn remove_numbers(text: &mut Vec<u8>)
    ensures
        final(text)@ == strip_numbers(old(text)@),
{
    let out = strip_numbers_vec(text);
    *text = out;
}

/// Apply the five cleaning passes in their fixed order.
pub fn clean_document(text: &mut Vec<u8>)
    ensures
        final(text)@ == clean_spec(old(text)@),
{
    remove_scripts(text);
    remove_style(text);
    remove_html_nodes(text);
    remove_html_text(text);
    remove_numbers(text);
}

} // verus!
