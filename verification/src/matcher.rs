//! The Common-Word Matcher: counts, for every token of the reference
//! document, how many documents contain a case-insensitive match, and keeps
//! the tokens whose count reaches the ratio threshold.

use vstd::prelude::*;

use crate::bytes::{eq_ci, eq_ignore_case};
use crate::ratio::Ratio;
use crate::tokenize::byte_views;

verus! {

/// The fatal failures of the pipeline.
#[derive(Debug)]
pub enum BlacklistError {
    /// No document at all reached the matching stage.
    NoDocuments,
}

impl BlacklistError {
    /// A diagnostic line for the operator console.
    pub fn message(&self) -> (r: &'static str) {
        match self {
            BlacklistError::NoDocuments => "no documents were extracted",
        }
    }
}

/// The mathematical view of a list of token documents.
pub open spec fn doc_views(ds: Seq<Vec<Vec<u8>>>) -> Seq<Seq<Seq<u8>>> {
    ds.map_values(|d: Vec<Vec<u8>>| byte_views(d@))
}

/// Some token of `doc` equals `w` under ASCII case-insensitive comparison.
pub open spec fn contains_ci(doc: Seq<Seq<u8>>, w: Seq<u8>) -> bool {
    exists|k: int| 0 <= k < doc.len() && eq_ci(doc[k], w)
}

/// Does some word of `list` match `w`, ignoring ASCII case?
pub fn list_contains_ci(list: &Vec<Vec<u8>>, w: &Vec<u8>) -> (r: bool)
    ensures
        r == contains_ci(byte_views(list@), w@),
{
    let n = list.len();
    let mut k: usize = 0;
    while k < n
        invariant
            n == list@.len(),
            k <= n,
            forall|t: int| 0 <= t < k ==> !eq_ci(byte_views(list@)[t], w@),
        decreases n - k,
    {
        if eq_ignore_case(&list[k], w) {
            assert(byte_views(list@)[k as int] == list@[k as int]@);
            return true;
        }
        assert(byte_views(list@)[k as int] == list@[k as int]@);
        k += 1;
    }
    false
}

/// How many of the documents `docs[1..upto]` contain a match for `w`.
pub open spec fn count_docs_with(docs: Seq<Seq<Seq<u8>>>, w: Seq<u8>, upto: int) -> int
    decreases upto when upto <= docs.len()
{
    if upto <= 1 {
        0
    } else {
        count_docs_with(docs, w, upto - 1) + if contains_ci(docs[upto - 1], w) {
            1int
        } else {
            0int
        }
    }
}

/// The occurrence count of `w`: the reference document counts once, and every
/// other document containing a match counts once more.
pub open spec fn occurrences_of(docs: Seq<Seq<Seq<u8>>>, w: Seq<u8>) -> int {
    1 + count_docs_with(docs, w, docs.len() as int)
}

proof fn lemma_count_bounds(docs: Seq<Seq<Seq<u8>>>, w: Seq<u8>, upto: int)
    requires
        upto <= docs.len(),
    ensures
        0 <= count_docs_with(docs, w, upto),
        upto >= 1 ==> count_docs_with(docs, w, upto) <= upto - 1,
    decreases upto,
{
    if upto > 1 {
        lemma_count_bounds(docs, w, upto - 1);
    }
}

/// A word with `occ` occurrences among `n` documents is retained when `occ`
/// reaches `floor(num * n / den)`, the truncated product of ratio and count.
pub open spec fn meets_ratio(occ: int, num: int, den: int, n: int) -> bool {
    occ >= (num * n) / den
}

/// Reaching the truncated threshold is the same as an exact cross product
/// comparison, which executable code can make without rounding.
proof fn lemma_meets_ratio_iff(occ: int, num: int, den: int, n: int)
    requires
        den > 0,
        occ >= 0,
        num >= 0,
        n >= 0,
    ensures
        meets_ratio(occ, num, den, n) <==> num * n < (occ + 1) * den,
{
    let p = num * n;
    let q = p / den;
    vstd::arithmetic::div_mod::lemma_fundamental_div_mod(p, den);
    vstd::arithmetic::div_mod::lemma_mod_bound(p, den);
    assert(num * n >= 0) by (nonlinear_arith)
        requires
            num >= 0,
            n >= 0,
    ;
    if occ >= q {
        assert(p < (occ + 1) * den) by (nonlinear_arith)
            requires
                occ >= q,
                den > 0,
                p == den * q + p % den,
                0 <= p % den < den,
        ;
    }
    if p < (occ + 1) * den {
        assert(q <= occ) by (nonlinear_arith)
            requires
                den > 0,
                p < (occ + 1) * den,
                p == den * q + p % den,
                0 <= p % den < den,
        ;
    }
}

/// Decide `occ >= floor(num * n / den)` exactly, in wide integers.
fn ratio_met(occ: usize, num: u64, den: u64, n: usize) -> (r: bool)
    requires
        den > 0,
    ensures
        r == meets_ratio(occ as int, num as int, den as int, n as int),
{
    proof {
        let m64: int = 0xffff_ffff_ffff_ffff;
        assert((num as int) * (n as int) <= m64 * m64) by (nonlinear_arith)
            requires
                0 <= num as int <= m64,
                0 <= n as int <= m64,
        ;
        assert((occ as int + 1) * (den as int) <= (m64 + 1) * m64) by (nonlinear_arith)
            requires
                0 <= occ as int <= m64,
                0 <= den as int <= m64,
        ;
        lemma_meets_ratio_iff(occ as int, num as int, den as int, n as int);
    }
    let p: u128 = (num as u128) * (n as u128);
    let q: u128 = (occ as u128 + 1) * (den as u128);
    p < q
}

/// Copy one word.
pub(crate) fn copy_word(w: &Vec<u8>) -> (r: Vec<u8>)
    ensures
        r@ == w@,
{
    let n = w.len();
    let mut r: Vec<u8> = Vec::new();
    let mut i: usize = 0;
    while i < n
        invariant
            n == w@.len(),
            i <= n,
            r@ == w@.subrange(0, i as int),
        decreases n - i,
    {
        r.push(w[i]);
        proof {
            assert(w@.subrange(0, i as int).push(w@[i as int]) =~= w@.subrange(0, i + 1));
        }
        i += 1;
    }
    proof {
        assert(w@.subrange(0, n as int) =~= w@);
    }
    r
}

/// The candidate list: the tokens of the reference document `docs[0]`, from
/// index `i` on, whose occurrence count meets the ratio, repeats kept.
pub open spec fn common_rec(docs: Seq<Seq<Seq<u8>>>, num: int, den: int, i: int) -> Seq<Seq<u8>>
    decreases docs[0].len() - i when 0 <= i && 0 < docs.len()
{
    if i >= docs[0].len() {
        Seq::empty()
    } else {
        let rest = common_rec(docs, num, den, i + 1);
        if meets_ratio(occurrences_of(docs, docs[0][i]), num, den, docs.len() as int) {
            seq![docs[0][i]] + rest
        } else {
            rest
        }
    }
}

/// The whole candidate list of the reference document.
pub open spec fn common_list(docs: Seq<Seq<Seq<u8>>>, num: int, den: int) -> Seq<Seq<u8>> {
    common_rec(docs, num, den, 0)
}

/// Keep every token of the reference document `docs[0]` that occurs in at
/// least `floor(ratio * docs.len())` documents, counting the reference
/// document itself and at most one occurrence per other document. An empty
/// document list is the fatal error of the pipeline.
pub fn common_words(docs: &Vec<Vec<Vec<u8>>>, ratio: &Ratio) -> (r: Result<
    Vec<Vec<u8>>,
    BlacklistError,
>)
    requires
        ratio.wf(),
    ensures
        match r {
            Ok(words) => docs@.len() > 0 && byte_views(words@) == common_list(
                doc_views(docs@),
                ratio.num as int,
                ratio.den as int,
            ),
            Err(e) => docs@.len() == 0 && e is NoDocuments,
        },
{
    let n = docs.len();
    if n == 0 {
        return Err(BlacklistError::NoDocuments);
    }
    let ghost dv = doc_views(docs@);
    let ghost num = ratio.num as int;
    let ghost den = ratio.den as int;
    let first_len = docs[0].len();
    proof {
        assert(dv[0] == byte_views(docs@[0]@));
    }
    let mut out: Vec<Vec<u8>> = Vec::new();
    proof {
        assert(byte_views(out@) + common_rec(dv, num, den, 0) =~= common_rec(dv, num, den, 0));
    }
    let mut i: usize = 0;
    while i < first_len
        invariant
            n == docs@.len(),
            n > 0,
            dv == doc_views(docs@),
            dv[0] == byte_views(docs@[0]@),
            num == ratio.num as int,
            den == ratio.den as int,
            den > 0,
            first_len == dv[0].len(),
            i <= first_len,
            common_list(dv, num, den) == byte_views(out@) + common_rec(dv, num, den, i as int),
        decreases first_len - i,
    {
        let w = &docs[0][i];
        proof {
            assert(dv[0][i as int] == docs@[0]@[i as int]@);
        }
        let mut occ: usize = 1;
        let mut d: usize = 1;
        while d < n
            invariant
                n == docs@.len(),
                dv == doc_views(docs@),
                1 <= d <= n,
                w@ == dv[0][i as int],
                0 <= i < dv[0].len(),
                occ == 1 + count_docs_with(dv, w@, d as int),
                occ <= d,
            decreases n - d,
        {
            proof {
                assert(dv[d as int] == byte_views(docs@[d as int]@));
            }
            if list_contains_ci(&docs[d], w) {
                occ += 1;
            }
            d += 1;
        }
        proof {
            lemma_count_bounds(dv, w@, n as int);
        }
        let ghost out_prev = out@;
        let ghost rest = common_rec(dv, num, den, i + 1);
        if ratio_met(occ, ratio.num, ratio.den, n) {
            let c = copy_word(w);
            out.push(c);
            proof {
                assert(byte_views(out@) =~= byte_views(out_prev).push(w@));
                assert(byte_views(out_prev) + (seq![dv[0][i as int]] + rest) =~= byte_views(out@)
                    + rest);
            }
        }
        i += 1;
    }
    proof {
        assert(byte_views(out@) + common_rec(dv, num, den, first_len as int) =~= byte_views(out@));
    }
    Ok(out)
}

} // verus!
