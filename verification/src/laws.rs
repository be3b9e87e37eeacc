//! The library's global guarantees, stated and proved once.
//!
//! These laws connect the construction contracts (`Builder::finish`
//! pins the final bytes to the corpus's logical index) with the query
//! contracts (`search` computes exactly the candidate-set
//! specification), giving the index's end-to-end guarantees: candidate
//! sets never miss a truly matching row, and the final index bytes do
//! not depend on batching or spill timing.

use vstd::prelude::*;
use crate::builder::is_index_blob_for;
use crate::codec::index_bytes;
use crate::posting::lemma_sorted_no_duplicates;
use crate::query::{fetch_spec, search_spec, all_rows_spec};
use crate::run::{SpecRun, run_wf, run_ids_sorted, run_map, run_has_key, index_of,
    index_postings, index_has_key, lemma_run_map_dom, lemma_run_map_at, lemma_run_canonical};
use crate::tokenizer::{ngrams_of, contains_sub, lemma_needle_tokens_covered};

verus! {

/// No false negatives: a row whose text truly contains the needle is in
/// the candidate set of any index whose content is the corpus's logical
/// index.  Together with `Builder::finish` (the final index holds
/// exactly `index_of(corpus, n)`) and `search` (the result is exactly
/// `search_spec`), every truly matching indexed row is returned.
pub proof fn lemma_no_false_negatives(
    corpus: Seq<(u64, Seq<char>)>,
    n: nat,
    rn: SpecRun,
    i: int,
    needle: Seq<char>,
)
    requires
        n >= 1,
        run_wf(rn),
        run_map(rn) == index_of(corpus, n),
        0 <= i < corpus.len(),
        contains_sub(corpus[i].1, needle),
        needle.len() > 0,
    ensures
        search_spec(rn, n, needle).contains(corpus[i].0),
{
    let id = corpus[i].0;
    let text = corpus[i].1;
    let toks = ngrams_of(needle, n);
    assert(toks.len() >= 1);
    lemma_run_map_dom(rn);
    assert forall|t: int| 0 <= t < toks.len() implies (#[trigger] fetch_spec(
        rn,
        toks[t],
    )).contains(id) by {
        lemma_needle_tokens_covered(text, needle, n, toks[t]);
        let k = choose|k: Seq<char>|
            #[trigger] ngrams_of(text, n).contains(k) && contains_sub(k, toks[t]);
        assert(index_has_key(corpus, n, k)) by {
            assert(ngrams_of((corpus[i]).1, n).contains(k));
        }
        assert(index_of(corpus, n).dom().contains(k));
        assert(index_postings(corpus, n, k).contains(id)) by {
            assert((corpus[i]).0 == id && ngrams_of(corpus[i].1, n).contains(k));
        }
        assert(run_map(rn).dom().contains(k));
        assert(run_has_key(rn, k));
        let e = choose|e: int| 0 <= e < rn.len() && (#[trigger] rn[e]).0 == k;
        lemma_run_map_at(rn, e);
        assert(rn[e].1.to_set().contains(id));
        assert(rn[e].1.contains(id));
        assert(contains_sub(rn[e].0, toks[t]));
    }
}

/// The short-needle special case of the no-false-negative guarantee: a
/// needle shorter than the configured n-gram length tokenizes to the
/// whole needle, and candidate inclusion still holds through the
/// whole-string rule.
pub proof fn lemma_short_needle_found(
    corpus: Seq<(u64, Seq<char>)>,
    n: nat,
    rn: SpecRun,
    i: int,
    needle: Seq<char>,
)
    requires
        n >= 1,
        run_wf(rn),
        run_map(rn) == index_of(corpus, n),
        0 <= i < corpus.len(),
        contains_sub(corpus[i].1, needle),
        0 < needle.len() < n,
    ensures
        search_spec(rn, n, needle).contains(corpus[i].0),
{
    lemma_no_false_negatives(corpus, n, rn, i, needle);
}

/// An empty needle is contained in everything: its candidate set is by
/// definition every indexed row id.
pub proof fn lemma_empty_needle_returns_all(rn: SpecRun, n: nat)
    ensures
        search_spec(rn, n, Seq::<char>::empty()) == all_rows_spec(rn),
{
    assert(ngrams_of(Seq::<char>::empty(), n).len() == 0);
}

/// Construction is deterministic in the corpus: any two final index
/// blobs built from the same complete corpus under the same n-gram
/// length are byte-identical — the same dictionary and the same posting
/// lists — no matter how the input was split into batches and no matter
/// which memory budget forced which spills.  This is the batching- and
/// spill-independence of the build, since `Builder::finish` guarantees
/// `is_index_blob_for` of the ingested corpus alone.
pub proof fn lemma_build_deterministic(
    b1: Seq<u8>,
    b2: Seq<u8>,
    n: usize,
    corpus: Seq<(u64, Seq<char>)>,
)
    requires
        is_index_blob_for(b1, n, corpus),
        is_index_blob_for(b2, n, corpus),
    ensures
        b1 == b2,
{
    let rn1 = choose|rn: SpecRun|
        run_wf(rn) && run_map(rn) == index_of(corpus, n as nat) && b1 == #[trigger] index_bytes(
            n as u64,
            rn,
        );
    let rn2 = choose|rn: SpecRun|
        run_wf(rn) && run_map(rn) == index_of(corpus, n as nat) && b2 == #[trigger] index_bytes(
            n as u64,
            rn,
        );
    lemma_run_canonical(rn1, rn2);
}

/// A row id is carried at most once per posting list, no matter how
/// many times its text repeats the n-gram and across how many batches
/// or spills the row was seen: posting lists are strictly ascending,
/// and membership is exactly membership in the corpus's logical posting
/// set.
pub proof fn lemma_idempotent_row_membership(
    corpus: Seq<(u64, Seq<char>)>,
    n: nat,
    rn: SpecRun,
    e: int,
    id: u64,
)
    requires
        run_wf(rn),
        run_map(rn) == index_of(corpus, n),
        0 <= e < rn.len(),
    ensures
        forall|i: int, j: int| 0 <= i < j < rn[e].1.len() ==> rn[e].1[i] != rn[e].1[j],
        rn[e].1.contains(id) <==> index_postings(corpus, n, rn[e].0).contains(id),
{
    assert(run_ids_sorted(rn));
    assert(crate::posting::ids_sorted(rn[e].1));
    lemma_sorted_no_duplicates(rn[e].1);
    lemma_run_map_at(rn, e);
    lemma_run_map_dom(rn);
    assert(run_has_key(rn, rn[e].0)) by {
        assert((rn[e]).0 == rn[e].0);
    }
    assert(index_of(corpus, n).dom().contains(rn[e].0));
    assert(index_has_key(corpus, n, rn[e].0));
    assert(run_map(rn)[rn[e].0] == rn[e].1.to_set());
    assert(index_of(corpus, n)[rn[e].0] == index_postings(corpus, n, rn[e].0));
    assert(rn[e].1.contains(id) <==> rn[e].1.to_set().contains(id));
}

} // verus!
