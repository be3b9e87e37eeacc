//! Answering string-containment queries against a loaded index.
//!
//! The needle is tokenized with the same rules as the indexed texts, the
//! candidate rows of each token are fetched, and their intersection is
//! the candidate set.  A token's candidates are the union of the posting
//! lists of every dictionary key containing the token, which reduces to
//! an exact dictionary lookup for full-length tokens and keeps short
//! needles findable through the whole-string special case.  An empty
//! needle is contained in everything, so it explicitly returns every
//! indexed row rather than falling out of an empty intersection.  The
//! result is a superset of the rows truly containing the needle — no
//! false negatives; the caller verifies candidates against the actual
//! text.

use vstd::prelude::*;
use crate::errors::IndexError;
use crate::posting::{ids_sorted, union_ids, intersect_ids, clone_ids};
use crate::reader::IndexReader;
use crate::run::{SpecRun, run_ids_sorted};
use crate::tokenizer::{ngrams_of, contains_sub, tokenize, contains_chars, clone_range};

verus! {

/// The candidate rows of one needle token: every row id on a dictionary
/// key that contains the token.
pub open spec fn fetch_spec(rn: SpecRun, tok: Seq<char>) -> Set<u64> {
    Set::new(
        |id: u64|
            exists|e: int|
                0 <= e < rn.len() && contains_sub((#[trigger] rn[e]).0, tok)
                    && rn[e].1.contains(id),
    )
}

/// Every indexed row id: the union of all posting lists.
pub open spec fn all_rows_spec(rn: SpecRun) -> Set<u64> {
    Set::new(|id: u64| exists|e: int| 0 <= e < rn.len() && (#[trigger] rn[e]).1.contains(id))
}

/// The candidate set of a containment query: every indexed row for an
/// empty needle, else the rows appearing among the candidates of every
/// needle token.
pub open spec fn search_spec(rn: SpecRun, n: nat, needle: Seq<char>) -> Set<u64> {
    let toks = ngrams_of(needle, n);
    if toks.len() == 0 {
        all_rows_spec(rn)
    } else {
        Set::new(
            |id: u64|
                forall|t: int|
                    0 <= t < toks.len() ==> (#[trigger] fetch_spec(rn, toks[t])).contains(id),
        )
    }
}

/// The candidates of a token among the first `upto` dictionary entries.
spec fn fetch_upto(rn: SpecRun, tok: Seq<char>, upto: int) -> Set<u64> {
    Set::new(
        |id: u64|
            exists|e: int|
                0 <= e < upto && e < rn.len() && contains_sub((#[trigger] rn[e]).0, tok)
                    && rn[e].1.contains(id),
    )
}

/// The indexed rows among the first `upto` dictionary entries.
spec fn all_rows_upto(rn: SpecRun, upto: int) -> Set<u64> {
    Set::new(
        |id: u64|
            exists|e: int| 0 <= e < upto && e < rn.len() && (#[trigger] rn[e]).1.contains(id),
    )
}

/// Fetches the candidate rows of one token by scanning the dictionary
/// and unioning the posting lists of the keys containing the token.
#[verifier::loop_isolation(false)]
fn fetch_token(rd: &mut IndexReader, tok: &Vec<char>) -> (r: Result<Vec<u64>, IndexError>)
    requires
        old(rd).wf(),
        tok@.len() >= 1,
    ensures
        final(rd).wf(),
        final(rd).run_spec() == old(rd).run_spec(),
        final(rd).n_spec() == old(rd).n_spec(),
        r is Ok ==> ids_sorted(r->Ok_0@) && r->Ok_0@.to_set() == fetch_spec(
            old(rd).run_spec(),
            tok@,
        ),
        run_ids_sorted(old(rd).run_spec()) ==> r is Ok,
        r is Err ==> r->Err_0 == IndexError::CorruptIndex,
{
    let ghost rn = rd.run_spec();
    let mut acc: Vec<u64> = Vec::new();
    let count = rd.entry_count();
    let mut e: usize = 0;
    proof {
        assert(acc@.to_set() =~= fetch_upto(rn, tok@, 0)) by {
            assert(forall|id: u64| !acc@.contains(id));
        }
    }
    while e < count
        invariant
            rd.wf(),
            rd.run_spec() == rn,
            rd.n_spec() == old(rd).n_spec(),
            count == rn.len(),
            e <= count,
            ids_sorted(acc@),
            acc@.to_set() == fetch_upto(rn, tok@, e as int),
        decreases count - e,
    {
        let matched = contains_chars(rd.key_at(e), tok);
        if matched {
            let ids = match rd.read_postings(e) {
                Result::Ok(v) => v,
                Result::Err(err) => {
                    proof {
                        if run_ids_sorted(old(rd).run_spec()) {
                            assert(ids_sorted(rn[e as int].1));
                        }
                    }
                    return Err(IndexError::CorruptIndex);
                },
            };
            let next = union_ids(&acc, &ids);
            proof {
                assert(next@.to_set() =~= fetch_upto(rn, tok@, e + 1)) by {
                    assert forall|id: u64| #[trigger] fetch_upto(rn, tok@, e + 1).contains(id)
                        implies next@.to_set().contains(id) by {
                        let e2 = choose|e2: int|
                            0 <= e2 < e + 1 && e2 < rn.len() && contains_sub(
                                (#[trigger] rn[e2]).0,
                                tok@,
                            ) && rn[e2].1.contains(id);
                        if e2 < e as int {
                            assert(fetch_upto(rn, tok@, e as int).contains(id));
                        } else {
                            assert(ids@.contains(id));
                        }
                    }
                    assert forall|id: u64| next@.to_set().contains(id) implies #[trigger]
                        fetch_upto(rn, tok@, e + 1).contains(id) by {
                        if acc@.to_set().contains(id) {
                            let e2 = choose|e2: int|
                                0 <= e2 < e && e2 < rn.len() && contains_sub(
                                    (#[trigger] rn[e2]).0,
                                    tok@,
                                ) && rn[e2].1.contains(id);
                        }
                    }
                }
            }
            acc = next;
        } else {
            proof {
                assert(acc@.to_set() =~= fetch_upto(rn, tok@, e + 1)) by {
                    assert forall|id: u64| #[trigger] fetch_upto(rn, tok@, e + 1).contains(id)
                        implies fetch_upto(rn, tok@, e as int).contains(id) by {
                        let e2 = choose|e2: int|
                            0 <= e2 < e + 1 && e2 < rn.len() && contains_sub(
                                (#[trigger] rn[e2]).0,
                                tok@,
                            ) && rn[e2].1.contains(id);
                    }
                }
            }
        }
        e = e + 1;
    }
    proof {
        assert(acc@.to_set() =~= fetch_spec(rn, tok@)) by {
            assert forall|id: u64| #[trigger] fetch_spec(rn, tok@).contains(id)
                implies fetch_upto(rn, tok@, count as int).contains(id) by {
                let e2 = choose|e2: int|
                    0 <= e2 < rn.len() && contains_sub((#[trigger] rn[e2]).0, tok@)
                        && rn[e2].1.contains(id);
            }
            assert forall|id: u64| fetch_upto(rn, tok@, count as int).contains(id)
                implies #[trigger] fetch_spec(rn, tok@).contains(id) by {
                let e2 = choose|e2: int|
                    0 <= e2 < count && e2 < rn.len() && contains_sub((#[trigger] rn[e2]).0, tok@)
                        && rn[e2].1.contains(id);
            }
        }
    }
    Ok(acc)
}

/// Answers a string-containment query: returns the candidate row ids,
/// ascending.  The set is exactly the intersection of the needle
/// tokens' candidate sets — for an empty needle, every indexed row —
/// and so contains every row whose text truly contains the needle.
/// Fails only when a needed posting block is corrupt; on an index with
/// well-formed posting blocks it always succeeds.
#[verifier::loop_isolation(false)]
pub fn search(rd: &mut IndexReader, needle: &Vec<char>) -> (r: Result<Vec<u64>, IndexError>)
    requires
        old(rd).wf(),
    ensures
        final(rd).wf(),
        final(rd).run_spec() == old(rd).run_spec(),
        final(rd).n_spec() == old(rd).n_spec(),
        r is Ok ==> ids_sorted(r->Ok_0@) && r->Ok_0@.to_set() == search_spec(
            old(rd).run_spec(),
            old(rd).n_spec() as nat,
            needle@,
        ),
        run_ids_sorted(old(rd).run_spec()) ==> r is Ok,
        r is Err ==> r->Err_0 == IndexError::CorruptIndex,
{
    let ghost rn = rd.run_spec();
    let ghost nn = rd.n_spec() as nat;
    let ghost toks_spec = ngrams_of(needle@, nn);
    let n = rd.ngram_len();
    // Tokenize the needle under the same rules as the indexed texts.
    let mut toks: Vec<Vec<char>> = Vec::new();
    if needle.len() == 0 {
        proof {
            assert(toks_spec.len() == 0);
        }
    } else if (needle.len() as u64) < n {
        let whole = clone_range(needle, 0, needle.len());
        proof {
            assert(whole@ =~= needle@);
            assert(toks_spec =~= seq![needle@]);
        }
        toks.push(whole);
    } else {
        let toks_full = tokenize(needle, n as usize);
        toks = toks_full;
        proof {
            assert(n as usize as nat == nn);
        }
    }
    proof {
        assert(toks@.len() == toks_spec.len());
        assert(forall|t: int| 0 <= t < toks@.len() ==> (#[trigger] toks@[t])@ == toks_spec[t]);
        assert forall|t: int| 0 <= t < toks_spec.len() implies (#[trigger] toks_spec[t]).len()
            >= 1 by {
            if needle@.len() >= 1 && needle@.len() < nn {
                assert(toks_spec[t] == needle@);
            }
        }
    }
    if toks.len() == 0 {
        // An empty needle is contained in everything: every indexed row
        // is a candidate, decided explicitly rather than as an empty
        // intersection.
        let count = rd.entry_count();
        let mut acc: Vec<u64> = Vec::new();
        let mut e: usize = 0;
        proof {
            assert(acc@.to_set() =~= all_rows_upto(rn, 0)) by {
                assert(forall|id: u64| !acc@.contains(id));
            }
        }
        while e < count
            invariant
                rd.wf(),
                rd.run_spec() == rn,
                rd.n_spec() == old(rd).n_spec(),
                count == rn.len(),
                e <= count,
                ids_sorted(acc@),
                acc@.to_set() == all_rows_upto(rn, e as int),
            decreases count - e,
        {
            let ids = match rd.read_postings(e) {
                Result::Ok(v) => v,
                Result::Err(err) => {
                    proof {
                        if run_ids_sorted(old(rd).run_spec()) {
                            assert(ids_sorted(rn[e as int].1));
                        }
                    }
                    return Err(IndexError::CorruptIndex);
                },
            };
            let next = union_ids(&acc, &ids);
            proof {
                assert(next@.to_set() =~= all_rows_upto(rn, e + 1)) by {
                    assert forall|id: u64| #[trigger] all_rows_upto(rn, e + 1).contains(id)
                        implies next@.to_set().contains(id) by {
                        let e2 = choose|e2: int|
                            0 <= e2 < e + 1 && e2 < rn.len() && (#[trigger] rn[e2]).1.contains(
                                id,
                            );
                        if e2 < e as int {
                            assert(all_rows_upto(rn, e as int).contains(id));
                        } else {
                            assert(ids@.contains(id));
                        }
                    }
                    assert forall|id: u64| next@.to_set().contains(id) implies #[trigger]
                        all_rows_upto(rn, e + 1).contains(id) by {
                        if acc@.to_set().contains(id) {
                            let e2 = choose|e2: int|
                                0 <= e2 < e && e2 < rn.len() && (#[trigger] rn[e2]).1.contains(
                                    id,
                                );
                        }
                    }
                }
            }
            acc = next;
            e = e + 1;
        }
        proof {
            assert(acc@.to_set() =~= all_rows_spec(rn)) by {
                assert forall|id: u64| #[trigger] all_rows_spec(rn).contains(id)
                    implies all_rows_upto(rn, count as int).contains(id) by {
                    let e2 = choose|e2: int| 0 <= e2 < rn.len() && (#[trigger] rn[e2]).1.contains(
                        id,
                    );
                }
                assert forall|id: u64| all_rows_upto(rn, count as int).contains(id)
                    implies #[trigger] all_rows_spec(rn).contains(id) by {
                    let e2 = choose|e2: int|
                        0 <= e2 < count && e2 < rn.len() && (#[trigger] rn[e2]).1.contains(id);
                }
            }
        }
        return Ok(acc);
    }
    // Fetch each token's candidates.
    let ghost fsets = Seq::new(toks_spec.len(), |t: int| fetch_spec(rn, toks_spec[t]));
    let mut lists: Vec<Vec<u64>> = Vec::new();
    let mut t: usize = 0;
    while t < toks.len()
        invariant
            rd.wf(),
            rd.run_spec() == rn,
            rd.n_spec() == old(rd).n_spec(),
            toks@.len() == toks_spec.len(),
            forall|t2: int| 0 <= t2 < toks@.len() ==> (#[trigger] toks@[t2])@ == toks_spec[t2],
            forall|t2: int| 0 <= t2 < toks_spec.len() ==> (#[trigger] toks_spec[t2]).len() >= 1,
            fsets == Seq::new(toks_spec.len(), |t2: int| fetch_spec(rn, toks_spec[t2])),
            t <= toks@.len(),
            lists@.len() == t,
            forall|t2: int|
                0 <= t2 < t ==> ids_sorted((#[trigger] lists@[t2])@) && lists@[t2]@.to_set()
                    == fsets[t2],
        decreases toks@.len() - t,
    {
        let fetched = match fetch_token(rd, &toks[t]) {
            Result::Ok(v) => v,
            Result::Err(err) => {
                return Err(IndexError::CorruptIndex);
            },
        };
        lists.push(fetched);
        t = t + 1;
    }
    // Start the intersection from the smallest candidate list.
    let mut smallest: usize = 0;
    let mut s: usize = 1;
    while s < lists.len()
        invariant
            lists@.len() >= 1,
            smallest < lists@.len(),
            s <= lists@.len(),
        decreases lists@.len() - s,
    {
        if lists[s].len() < lists[smallest].len() {
            smallest = s;
        }
        s = s + 1;
    }
    let mut acc = clone_ids(&lists[smallest]);
    let mut t2: usize = 0;
    proof {
        assert(acc@.to_set() =~= Set::new(
            |id: u64|
                fsets[smallest as int].contains(id) && forall|t3: int|
                    0 <= t3 < 0 ==> (#[trigger] fsets[t3]).contains(id),
        ));
    }
    while t2 < lists.len()
        invariant
            toks_spec.len() == lists@.len(),
            fsets == Seq::new(toks_spec.len(), |t3: int| fetch_spec(rn, toks_spec[t3])),
            smallest < lists@.len(),
            t2 <= lists@.len(),
            forall|t3: int|
                0 <= t3 < lists@.len() ==> ids_sorted((#[trigger] lists@[t3])@)
                    && lists@[t3]@.to_set() == fsets[t3],
            ids_sorted(acc@),
            acc@.to_set() == Set::new(
                |id: u64|
                    fsets[smallest as int].contains(id) && forall|t3: int|
                        0 <= t3 < t2 ==> (#[trigger] fsets[t3]).contains(id),
            ),
        decreases lists@.len() - t2,
    {
        if t2 != smallest {
            let next = intersect_ids(&acc, &lists[t2]);
            proof {
                assert(next@.to_set() =~= Set::new(
                    |id: u64|
                        fsets[smallest as int].contains(id) && forall|t3: int|
                            0 <= t3 < t2 + 1 ==> (#[trigger] fsets[t3]).contains(id),
                ));
            }
            acc = next;
        } else {
            proof {
                assert(acc@.to_set() =~= Set::new(
                    |id: u64|
                        fsets[smallest as int].contains(id) && forall|t3: int|
                            0 <= t3 < t2 + 1 ==> (#[trigger] fsets[t3]).contains(id),
                ));
            }
        }
        t2 = t2 + 1;
    }
    proof {
        assert(acc@.to_set() =~= search_spec(rn, nn, needle@)) by {
            assert forall|id: u64| acc@.to_set().contains(id) implies #[trigger] search_spec(
                rn,
                nn,
                needle@,
            ).contains(id) by {
                assert forall|t3: int| 0 <= t3 < toks_spec.len() implies (#[trigger] fetch_spec(
                    rn,
                    toks_spec[t3],
                )).contains(id) by {
                    assert(fsets[t3].contains(id));
                }
            }
            assert forall|id: u64| #[trigger] search_spec(rn, nn, needle@).contains(id)
                implies acc@.to_set().contains(id) by {
                assert forall|t3: int| 0 <= t3 < lists@.len() implies (#[trigger] fsets[
                    t3
                ]).contains(id) by {
                    assert(fetch_spec(rn, toks_spec[t3]).contains(id));
                }
                assert(fsets[smallest as int].contains(id));
            }
        }
    }
    Ok(acc)
}

} // verus!
