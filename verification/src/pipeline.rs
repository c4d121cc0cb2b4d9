//! The pipeline from fetched document bodies to the final word list: clean
//! each document, tokenize it, keep the reference document's common words,
//! and collapse case-insensitive duplicates.

use vstd::prelude::*;

use crate::clean::{clean_document, clean_spec};
use crate::dedup::{dedup_case_insensitive, dedup_spec};
use crate::matcher::{common_list, common_words, copy_word, doc_views, BlacklistError};
use crate::ratio::Ratio;
use crate::tokenize::{byte_views, extract_words, tokens_of};

verus! {

/// The token sequences of the documents, after cleaning.
pub open spec fn token_docs_spec(docs: Seq<Seq<u8>>) -> Seq<Seq<Seq<u8>>> {
    docs.map_values(|d: Seq<u8>| tokens_of(clean_spec(d)))
}

/// The final word list: the reference document's tokens common to enough
/// documents, case-insensitively deduplicated, first-seen order kept.
pub open spec fn blacklist_spec(docs: Seq<Seq<u8>>, num: int, den: int) -> Seq<Seq<u8>> {
    dedup_spec(common_list(token_docs_spec(docs), num, den))
}

/// The fetcher keeps a response body only when its HTTP status is exactly 200.
pub fn is_success_status(status: u16) -> (r: bool)
    ensures
        r == (status == 200),
{
    status == 200
}

/// Run the whole in-memory pipeline over the fetched document bodies. An
/// empty document list is the fatal error; otherwise the result is the
/// deduplicated common-word list of the reference document `docs[0]`.
pub fn build_blacklist(docs: &Vec<Vec<u8>>, ratio: &Ratio) -> (r: Result<
    Vec<Vec<u8>>,
    BlacklistError,
>)
    requires
        ratio.wf(),
    ensures
        match r {
            Ok(words) => docs@.len() > 0 && byte_views(words@) == blacklist_spec(
                byte_views(docs@),
                ratio.num as int,
                ratio.den as int,
            ),
            Err(e) => docs@.len() == 0 && e is NoDocuments,
        },
{
    let n = docs.len();
    let ghost dv = byte_views(docs@);
    let mut toks: Vec<Vec<Vec<u8>>> = Vec::new();
    let mut i: usize = 0;
    while i < n
        invariant
            n == docs@.len(),
            dv == byte_views(docs@),
            i <= n,
            toks@.len() == i,
            doc_views(toks@) =~= token_docs_spec(dv).subrange(0, i as int),
        decreases n - i,
    {
        let ghost toks_prev = toks@;
        let mut d = copy_word(&docs[i]);
        clean_document(&mut d);
        let words = extract_words(&d);
        toks.push(words);
        proof {
            assert(dv[i as int] == docs@[i as int]@);
            assert(token_docs_spec(dv)[i as int] == tokens_of(clean_spec(dv[i as int])));
            assert(doc_views(toks@) =~= doc_views(toks_prev).push(byte_views(words@)));
            assert(doc_views(toks@) =~= token_docs_spec(dv).subrange(0, i + 1));
        }
        i += 1;
    }
    proof {
        assert(token_docs_spec(dv).subrange(0, n as int) =~= token_docs_spec(dv));
        assert(token_docs_spec(dv).len() == n);
    }
    match common_words(&toks, ratio) {
        Err(e) => Err(e),
        Ok(mut cands) => {
            dedup_case_insensitive(&mut cands);
            Ok(cands)
        },
    }
}

} // verus!
