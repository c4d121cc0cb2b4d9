//! Byte-level helpers shared by the cleaning, tokenizing and matching stages:
//! character classes, ASCII case folding, and substring search.

use vstd::prelude::*;

verus! {

/// `<`
pub const B_LT: u8 = 60;

/// `>`
pub const B_GT: u8 = 62;

/// `&`
pub const B_AMP: u8 = 38;

/// `;`
pub const B_SEMI: u8 = 59;

/// `.`
pub const B_DOT: u8 = 46;

/// newline
pub const B_NL: u8 = 10;

/// ASCII lower-casing of one byte: `A`..`Z` map to `a`..`z`, all else unchanged.
pub open spec fn lower_byte_spec(b: u8) -> u8 {
    if 65 <= b && b <= 90 {
        (b + 32) as u8
    } else {
        b
    }
}

pub fn lower_byte(b: u8) -> (r: u8)
    ensures
        r == lower_byte_spec(b),
{
    if 65 <= b && b <= 90 {
        b + 32
    } else {
        b
    }
}

/// A word byte: ASCII alphanumeric or underscore.
pub open spec fn is_word_byte(b: u8) -> bool {
    (48 <= b && b <= 57)  // 0-9
    || (65 <= b && b <= 90)  // A-Z
    || (97 <= b && b <= 122)  // a-z
    || b == 95  // _
}

pub fn word_byte(b: u8) -> (r: bool)
    ensures
        r == is_word_byte(b),
{
    (48 <= b && b <= 57) || (65 <= b && b <= 90) || (97 <= b && b <= 122) || b == 95
}

/// An ASCII decimal digit.
pub open spec fn is_digit_byte(b: u8) -> bool {
    48 <= b && b <= 57
}

pub fn digit_byte(b: u8) -> (r: bool)
    ensures
        r == is_digit_byte(b),
{
    48 <= b && b <= 57
}

/// ASCII whitespace: space, tab, newline, carriage return, vertical tab, form feed.
pub open spec fn is_space_byte(b: u8) -> bool {
    b == 32 || b == 9 || b == 10 || b == 13 || b == 11 || b == 12
}

pub fn space_byte(b: u8) -> (r: bool)
    ensures
        r == is_space_byte(b),
{
    b == 32 || b == 9 || b == 10 || b == 13 || b == 11 || b == 12
}

/// The sequence with every byte lower-cased.
pub open spec fn lower_seq(s: Seq<u8>) -> Seq<u8> {
    s.map_values(|b: u8| lower_byte_spec(b))
}

/// ASCII case-insensitive equality of two byte sequences.
pub open spec fn eq_ci(a: Seq<u8>, b: Seq<u8>) -> bool {
    lower_seq(a) == lower_seq(b)
}

/// ASCII case-insensitive comparison, as `str::eq_ignore_ascii_case` does it.
pub fn eq_ignore_case(a: &Vec<u8>, b: &Vec<u8>) -> (r: bool)
    ensures
        r == eq_ci(a@, b@),
{
    if a.len() != b.len() {
        assert(lower_seq(a@).len() == a@.len());
        assert(lower_seq(b@).len() == b@.len());
        return false;
    }
    let n = a.len();
    let mut i: usize = 0;
    while i < n
        invariant
            n == a@.len(),
            n == b@.len(),
            0 <= i <= n,
            forall|k: int| 0 <= k < i ==> lower_byte_spec(a@[k]) == lower_byte_spec(b@[k]),
        decreases n - i,
    {
        if lower_byte(a[i]) != lower_byte(b[i]) {
            assert(lower_seq(a@)[i as int] != lower_seq(b@)[i as int]);
            return false;
        }
        i += 1;
    }
    assert(lower_seq(a@) =~= lower_seq(b@));
    true
}

/// Copy `text[from..to]` onto the end of `out`.
pub(crate) fn push_range_into(out: &mut Vec<u8>, text: &Vec<u8>, from: usize, to: usize)
    requires
        from <= to <= text@.len(),
    ensures
        final(out)@ == old(out)@ + text@.subrange(from as int, to as int),
{
    let mut i: usize = from;
    while i < to
        invariant
            from <= i <= to <= text@.len(),
            out@ == old(out)@ + text@.subrange(from as int, i as int),
        decreases to - i,
    {
        let b = text[i];
        out.push(b);
        proof {
            assert(old(out)@ + text@.subrange(from as int, i + 1) =~= (old(out)@ + text@.subrange(
                from as int,
                i as int,
            )).push(text@[i as int]));
        }
        i += 1;
    }
    proof {
        assert(out@ =~= old(out)@ + text@.subrange(from as int, to as int));
    }
}

/// The pattern `pat` occurs in `s` starting at index `i`.
pub open spec fn match_at(s: Seq<u8>, pat: Seq<u8>, i: int) -> bool {
    0 <= i && i + pat.len() <= s.len() && s.subrange(i, i + pat.len()) == pat
}

/// The first index `>= from` at which `pat` occurs in `s`, if any.
pub open spec fn find_from(s: Seq<u8>, pat: Seq<u8>, from: int) -> Option<int>
    recommends
        0 <= from,
    decreases s.len() - from when 0 <= from && pat.len() > 0
{
    if from + pat.len() > s.len() {
        None
    } else if match_at(s, pat, from) {
        Some(from)
    } else {
        find_from(s, pat, from + 1)
    }
}

/// `find_from` returns only real matches, and the earliest one.
pub proof fn lemma_find_from_ok(s: Seq<u8>, pat: Seq<u8>, from: int)
    requires
        0 <= from,
        pat.len() > 0,
    ensures
        match find_from(s, pat, from) {
            Some(i) => from <= i && match_at(s, pat, i) && forall|k: int|
                from <= k < i ==> !match_at(s, pat, k),
            None => forall|k: int| from <= k ==> !match_at(s, pat, k),
        },
    decreases s.len() - from,
{
    if from + pat.len() > s.len() {
        assert forall|k: int| from <= k implies !match_at(s, pat, k) by {}
    } else if match_at(s, pat, from) {
    } else {
        lemma_find_from_ok(s, pat, from + 1);
    }
}

/// Substring search: the first occurrence of `pat` in `s` at or after `from`.
pub fn find_pattern(s: &Vec<u8>, pat: &Vec<u8>, from: usize) -> (r: Option<usize>)
    requires
        pat@.len() > 0,
    ensures
        match r {
            Some(i) => find_from(s@, pat@, from as int) == Some(i as int) && i <= s@.len(),
            None => find_from(s@, pat@, from as int) is None,
        },
{
    let n = s.len();
    let m = pat.len();
    if from >= n || m > n - from {
        proof {
            lemma_find_from_none(s@, pat@, from as int);
        }
        return None;
    }
    let mut i: usize = from;
    while i <= n - m
        invariant
            n == s@.len(),
            m == pat@.len(),
            0 < m <= n,
            from <= i,
            i <= n - m + 1,
            find_from(s@, pat@, from as int) == find_from(s@, pat@, i as int),
        decreases n - i,
    {
        if match_prefix_at(s, pat, i) {
            return Some(i);
        }
        i += 1;
    }
    proof {
        lemma_find_from_none(s@, pat@, i as int);
    }
    None
}

/// Does `pat` occur in `s` starting exactly at index `i`?
fn match_prefix_at(s: &Vec<u8>, pat: &Vec<u8>, i: usize) -> (r: bool)
    requires
        i + pat@.len() <= s@.len(),
    ensures
        r == match_at(s@, pat@, i as int),
{
    let m = pat.len();
    let n = s.len();
    let mut j: usize = 0;
    while j < m
        invariant
            m == pat@.len(),
            n == s@.len(),
            i + m <= n,
            0 <= j <= m,
            forall|k: int| 0 <= k < j ==> s@[i + k] == pat@[k],
        decreases m - j,
    {
        if s[i + j] != pat[j] {
            assert(s@.subrange(i as int, i + m)[j as int] == s@[i + j]);
            assert(!match_at(s@, pat@, i as int));
            return false;
        }
        j += 1;
    }
    assert(s@.subrange(i as int, i + m) =~= pat@);
    true
}

/// Past the last possible start, there is no match.
proof fn lemma_find_from_none(s: Seq<u8>, pat: Seq<u8>, from: int)
    requires
        0 <= from,
        pat.len() > 0,
        from + pat.len() > s.len(),
    ensures
        find_from(s, pat, from) is None,
{
}

/// A match inside a suffix is a match in the whole, shifted by the base.
pub proof fn lemma_match_at_offset(s: Seq<u8>, pat: Seq<u8>, base: int, i: int)
    requires
        0 <= base <= s.len(),
        0 <= i,
    ensures
        match_at(s, pat, base + i) <==> match_at(s.subrange(base, s.len() as int), pat, i),
{
    let sub = s.subrange(base, s.len() as int);
    if i + pat.len() <= sub.len() {
        assert(s.subrange(base + i, base + i + pat.len() as int) =~= sub.subrange(
            i,
            i + pat.len() as int,
        ));
    }
}

/// Searching the whole text from `from` is searching the suffix at `base`,
/// with every found index shifted by the base.
pub proof fn lemma_find_from_offset(s: Seq<u8>, pat: Seq<u8>, base: int, from: int)
    requires
        0 <= base <= from,
        base <= s.len(),
        pat.len() > 0,
    ensures
        find_from(s, pat, from) == (match find_from(
            s.subrange(base, s.len() as int),
            pat,
            from - base,
        ) {
            None => None::<int>,
            Some(i) => Some(i + base),
        }),
    decreases s.len() - from,
{
    if from + pat.len() <= s.len() {
        lemma_match_at_offset(s, pat, base, from - base);
        if !match_at(s, pat, from) {
            lemma_find_from_offset(s, pat, base, from + 1);
        }
    }
}

/// Where no match starts before `to`, the search may as well start at `to`.
pub proof fn lemma_find_from_skip(s: Seq<u8>, pat: Seq<u8>, from: int, to: int)
    requires
        0 <= from <= to,
        pat.len() > 0,
        forall|k: int| from <= k < to ==> !match_at(s, pat, k),
    ensures
        find_from(s, pat, from) == find_from(s, pat, to),
    decreases to - from,
{
    if from < to {
        lemma_find_from_skip(s, pat, from + 1, to);
    }
}

/// The first index `>= from` holding byte `b`, if any.
pub open spec fn find_byte_from(s: Seq<u8>, b: u8, from: int) -> Option<int>
    recommends
        0 <= from,
    decreases s.len() - from when 0 <= from
{
    if from >= s.len() {
        None
    } else if s[from] == b {
        Some(from)
    } else {
        find_byte_from(s, b, from + 1)
    }
}

/// Searching the whole text for a byte from `from` is searching the suffix at
/// `base`, with every found index shifted by the base.
pub proof fn lemma_find_byte_offset(s: Seq<u8>, b: u8, base: int, from: int)
    requires
        0 <= base <= from,
        base <= s.len(),
    ensures
        find_byte_from(s, b, from) == (match find_byte_from(
            s.subrange(base, s.len() as int),
            b,
            from - base,
        ) {
            None => None::<int>,
            Some(i) => Some(i + base),
        }),
    decreases s.len() - from,
{
    if from < s.len() {
        assert(s.subrange(base, s.len() as int)[from - base] == s[from]);
        if s[from] != b {
            lemma_find_byte_offset(s, b, base, from + 1);
        }
    }
}

/// `find_byte_from` returns only real occurrences, and the earliest one.
pub proof fn lemma_find_byte_from_ok(s: Seq<u8>, b: u8, from: int)
    requires
        0 <= from,
    ensures
        match find_byte_from(s, b, from) {
            Some(i) => from <= i < s.len() && s[i] == b && forall|k: int|
                from <= k < i ==> s[k] != b,
            None => forall|k: int| from <= k < s.len() ==> s[k] != b,
        },
    decreases s.len() - from,
{
    if from >= s.len() {
    } else if s[from] == b {
    } else {
        lemma_find_byte_from_ok(s, b, from + 1);
    }
}

/// Byte search: the first occurrence of `b` in `s` at or after `from`.
pub fn find_byte(s: &Vec<u8>, b: u8, from: usize) -> (r: Option<usize>)
    ensures
        match r {
            Some(i) => find_byte_from(s@, b, from as int) == Some(i as int) && i < s@.len(),
            None => find_byte_from(s@, b, from as int) is None,
        },
{
    let n = s.len();
    let mut i: usize = from;
    while i < n
        invariant
            n == s@.len(),
            from <= i,
            find_byte_from(s@, b, from as int) == find_byte_from(s@, b, i as int),
        decreases n - i,
    {
        if s[i] == b {
            return Some(i);
        }
        i += 1;
    }
    None
}

} // verus!
