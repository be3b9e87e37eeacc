//! The sorted merge of partial indexes.
//!
//! Two sorted runs are merged into one by walking both in key order;
//! posting lists of a key present in both are unioned, never reconciled:
//! row-id membership is insert-only during one build, so the union is
//! always the correct combination.  Merging therefore computes exactly
//! the combined content of its inputs, which the builder folds over all
//! spill segments and the in-memory remainder.

use vstd::prelude::*;
use crate::lex::{lex_lt, lemma_lex_lt_asymmetric, lemma_lex_lt_connected, lemma_lex_lt_transitive,
    key_lt};
use crate::posting::{union_ids, clone_ids};
use crate::run::{IndexEntry, SpecRun, run_view, run_wf, run_keys_sorted, run_ids_sorted, run_map,
    run_has_key, combine, get_or_empty, lemma_run_map_dom, lemma_combine_insert_left,
    lemma_combine_insert_right};
use crate::tokenizer::clone_range;

verus! {

/// Copies one dictionary entry.
pub fn clone_entry(e: &IndexEntry) -> (r: IndexEntry)
    ensures
        r@ == e@,
{
    let key = clone_range(&e.key, 0, e.key.len());
    let ids = clone_ids(&e.ids);
    proof {
        assert(key@ =~= e.key@);
    }
    IndexEntry { key, ids }
}

/// The consumed keys all lie strictly below the next key of either input:
/// the bound that keeps the output sorted and the next key fresh.
pub proof fn lemma_next_key_fresh(out: SpecRun, consumed: Map<Seq<char>, Set<u64>>, k: Seq<char>)
    requires
        run_keys_sorted(out),
        run_map(out) == consumed,
        out.len() > 0 ==> lex_lt(out[out.len() - 1].0, k),
    ensures
        !consumed.dom().contains(k),
{
    lemma_run_map_dom(out);
    if consumed.dom().contains(k) {
        assert(run_has_key(out, k));
        let s = choose|s: int| 0 <= s < out.len() && (#[trigger] out[s]).0 == k;
        if s < out.len() - 1 {
            assert(lex_lt(out[s].0, out[out.len() - 1].0));
            lemma_lex_lt_transitive(out[s].0, out[out.len() - 1].0, k);
        }
        lemma_lex_lt_asymmetric(k, k);
    }
}

/// Pushing an entry whose key lies above every key of a sorted run keeps
/// it sorted.
pub proof fn lemma_push_sorted(out: SpecRun, e: (Seq<char>, Seq<u64>))
    requires
        run_keys_sorted(out),
        out.len() > 0 ==> lex_lt(out[out.len() - 1].0, e.0),
    ensures
        run_keys_sorted(out.push(e)),
{
    assert forall|i: int, j: int| 0 <= i < j < out.push(e).len() implies #[trigger] lex_lt(
        out.push(e)[i].0,
        out.push(e)[j].0,
    ) by {
        if j < out.len() {
            assert(out.push(e)[i] == out[i]);
            assert(out.push(e)[j] == out[j]);
            assert(lex_lt(out[i].0, out[j].0));
        } else {
            assert(out.push(e)[j] == e);
            assert(out.push(e)[i] == out[i]);
            if i < out.len() - 1 {
                assert(lex_lt(out[i].0, out[out.len() - 1].0));
                lemma_lex_lt_transitive(out[i].0, out[out.len() - 1].0, e.0);
            }
        }
    }
}

/// Appending an entry to a run inserts its key into the run's content.
pub proof fn lemma_run_map_push(out: SpecRun, e: (Seq<char>, Seq<u64>))
    ensures
        run_map(out.push(e)) == run_map(out).insert(e.0, e.1.to_set()),
{
    assert(out.push(e).drop_last() =~= out);
    assert(out.push(e).last() == e);
}

/// Taking one more entry of a run inserts that entry's key into the
/// taken content.
pub proof fn lemma_run_map_take_one(rn: SpecRun, i: int)
    requires
        0 <= i < rn.len(),
    ensures
        run_map(rn.take(i + 1)) == run_map(rn.take(i)).insert(rn[i].0, rn[i].1.to_set()),
{
    assert(rn.take(i + 1).drop_last() =~= rn.take(i));
    assert(rn.take(i + 1).last() == rn[i]);
}

/// Merges two sorted runs into one sorted run holding exactly their
/// combined content.
pub fn merge_runs(a: &Vec<IndexEntry>, b: &Vec<IndexEntry>) -> (r: Vec<IndexEntry>)
    requires
        run_wf(run_view(a@)),
        run_wf(run_view(b@)),
    ensures
        run_wf(run_view(r@)),
        run_map(run_view(r@)) == combine(run_map(run_view(a@)), run_map(run_view(b@))),
{
    let ghost ra = run_view(a@);
    let ghost rb = run_view(b@);
    let mut out: Vec<IndexEntry> = Vec::new();
    let mut i: usize = 0;
    let mut j: usize = 0;
    proof {
        assert(ra.take(0) =~= Seq::<(Seq<char>, Seq<u64>)>::empty());
        assert(rb.take(0) =~= Seq::<(Seq<char>, Seq<u64>)>::empty());
        assert(run_view(out@) =~= Seq::<(Seq<char>, Seq<u64>)>::empty());
        assert(run_map(run_view(out@)) =~= combine(
            run_map(ra.take(0)),
            run_map(rb.take(0)),
        ));
    }
    while i < a.len() || j < b.len()
        invariant
            run_wf(ra),
            run_wf(rb),
            ra == run_view(a@),
            rb == run_view(b@),
            i <= ra.len(),
            j <= rb.len(),
            run_wf(run_view(out@)),
            run_map(run_view(out@)) == combine(run_map(ra.take(i as int)), run_map(rb.take(j as int))),
            run_view(out@).len() > 0 && i < ra.len() ==> lex_lt(
                run_view(out@)[run_view(out@).len() - 1].0,
                ra[i as int].0,
            ),
            run_view(out@).len() > 0 && j < rb.len() ==> lex_lt(
                run_view(out@)[run_view(out@).len() - 1].0,
                rb[j as int].0,
            ),
        decreases ra.len() - i + rb.len() - j,
    {
        let ghost out0 = run_view(out@);
        let ghost m_out = run_map(out0);
        let ghost mai = run_map(ra.take(i as int));
        let ghost mbj = run_map(rb.take(j as int));
        let take_a = if j == b.len() {
            true
        } else if i == a.len() {
            false
        } else {
            key_lt(&a[i].key, &b[j].key)
        };
        let take_b_too = if take_a {
            false
        } else if i == a.len() {
            true
        } else {
            !key_lt(&b[j].key, &a[i].key)
        };
        if take_a {
            // The next key comes from `a` alone.
            let e = clone_entry(&a[i]);
            let ghost ev = ra[i as int];
            proof {
                assert(e@ == a@[i as int]@);
                assert(ev == a@[i as int]@);
                lemma_next_key_fresh(out0, m_out, ev.0);
                assert(!mbj.dom().contains(ev.0)) by {
                    assert(combine(mai, mbj).dom() =~= mai.dom().union(mbj.dom()));
                }
                lemma_push_sorted(out0, ev);
                lemma_run_map_push(out0, ev);
                lemma_run_map_take_one(ra, i as int);
                lemma_combine_insert_left(mai, mbj, ev.0, ev.1.to_set());
                assert(ev.1.to_set().union(get_or_empty(mbj, ev.0)) =~= ev.1.to_set());
            }
            out.push(e);
            i = i + 1;
            proof {
                assert(run_view(out@) =~= out0.push(ev));
                assert(run_map(run_view(out@)) =~= combine(
                    run_map(ra.take(i as int)),
                    run_map(rb.take(j as int)),
                ));
                assert(run_ids_sorted(run_view(out@))) by {
                    assert forall|t: int|
                        0 <= t < run_view(out@).len() implies #[trigger] crate::posting::ids_sorted(
                        run_view(out@)[t].1,
                    ) by {
                        if t < out0.len() {
                            assert(run_view(out@)[t] == out0[t]);
                            assert(crate::posting::ids_sorted(out0[t].1));
                        } else {
                            assert(run_view(out@)[t] == ev);
                            assert(crate::posting::ids_sorted(ra[i - 1].1));
                        }
                    }
                }
                if i < ra.len() {
                    assert(lex_lt(ra[i - 1].0, ra[i as int].0));
                }
            }
        } else if take_b_too && i < a.len() {
            // The same key heads both inputs: union the posting lists.
            proof {
                assert(ra[i as int].0 == a@[i as int].key@);
                assert(rb[j as int].0 == b@[j as int].key@);
                assert(!lex_lt(ra[i as int].0, rb[j as int].0));
                assert(!lex_lt(rb[j as int].0, ra[i as int].0));
                lemma_lex_lt_connected(ra[i as int].0, rb[j as int].0);
                assert(crate::posting::ids_sorted(ra[i as int].1));
                assert(crate::posting::ids_sorted(rb[j as int].1));
            }
            let key = clone_range(&a[i].key, 0, a[i].key.len());
            let ids = union_ids(&a[i].ids, &b[j].ids);
            proof {
                assert(key@ =~= a@[i as int].key@);
            }
            let e = IndexEntry { key, ids };
            let ghost k = ra[i as int].0;
            let ghost ev2 = e@;
            let ghost u = ev2.1.to_set();
            proof {
                assert(e@.0 == k);
                assert(u == ra[i as int].1.to_set().union(rb[j as int].1.to_set()));
                lemma_next_key_fresh(out0, m_out, k);
                assert(!mai.dom().contains(k)) by {
                    assert(combine(mai, mbj).dom() =~= mai.dom().union(mbj.dom()));
                }
                assert(!mbj.dom().contains(k)) by {
                    assert(combine(mai, mbj).dom() =~= mai.dom().union(mbj.dom()));
                }
                lemma_push_sorted(out0, e@);
                lemma_run_map_push(out0, e@);
                lemma_run_map_take_one(ra, i as int);
                lemma_run_map_take_one(rb, j as int);
                lemma_combine_insert_right(mai, mbj, k, rb[j as int].1.to_set());
                lemma_combine_insert_left(
                    mai,
                    mbj.insert(k, rb[j as int].1.to_set()),
                    k,
                    ra[i as int].1.to_set(),
                );
                assert(get_or_empty(mbj.insert(k, rb[j as int].1.to_set()), k) == rb[
                    j as int
                ].1.to_set());
                assert(combine(run_map(ra.take(i + 1)), run_map(rb.take(j + 1))) =~= combine(
                    mai,
                    mbj,
                ).insert(k, u));
            }
            out.push(e);
            i = i + 1;
            j = j + 1;
            proof {
                assert(run_view(out@) =~= out0.push(ev2));
                assert(run_map(run_view(out@)) =~= combine(
                    run_map(ra.take(i as int)),
                    run_map(rb.take(j as int)),
                ));
                assert(run_ids_sorted(run_view(out@))) by {
                    assert forall|t: int|
                        0 <= t < run_view(out@).len() implies #[trigger] crate::posting::ids_sorted(
                        run_view(out@)[t].1,
                    ) by {
                        if t < out0.len() {
                            assert(run_view(out@)[t] == out0[t]);
                            assert(crate::posting::ids_sorted(out0[t].1));
                        } else {
                            assert(run_view(out@)[t] == ev2);
                        }
                    }
                }
                if i < ra.len() {
                    assert(lex_lt(ra[i - 1].0, ra[i as int].0));
                }
                if j < rb.len() {
                    assert(lex_lt(rb[j - 1].0, rb[j as int].0));
                }
            }
        } else {
            // The next key comes from `b` alone.
            let e = clone_entry(&b[j]);
            let ghost ev = rb[j as int];
            proof {
                assert(e@ == b@[j as int]@);
                assert(ev == b@[j as int]@);
                if i < a.len() {
                    assert(lex_lt(rb[j as int].0, ra[i as int].0));
                }
                lemma_next_key_fresh(out0, m_out, ev.0);
                assert(!mai.dom().contains(ev.0)) by {
                    assert(combine(mai, mbj).dom() =~= mai.dom().union(mbj.dom()));
                }
                lemma_push_sorted(out0, ev);
                lemma_run_map_push(out0, ev);
                lemma_run_map_take_one(rb, j as int);
                lemma_combine_insert_right(mai, mbj, ev.0, ev.1.to_set());
                assert(get_or_empty(mai, ev.0).union(ev.1.to_set()) =~= ev.1.to_set());
            }
            out.push(e);
            j = j + 1;
            proof {
                assert(run_view(out@) =~= out0.push(ev));
                assert(run_map(run_view(out@)) =~= combine(
                    run_map(ra.take(i as int)),
                    run_map(rb.take(j as int)),
                ));
                assert(run_ids_sorted(run_view(out@))) by {
                    assert forall|t: int|
                        0 <= t < run_view(out@).len() implies #[trigger] crate::posting::ids_sorted(
                        run_view(out@)[t].1,
                    ) by {
                        if t < out0.len() {
                            assert(run_view(out@)[t] == out0[t]);
                            assert(crate::posting::ids_sorted(out0[t].1));
                        } else {
                            assert(run_view(out@)[t] == ev);
                            assert(crate::posting::ids_sorted(rb[j - 1].1));
                        }
                    }
                }
                if j < rb.len() {
                    assert(lex_lt(rb[j - 1].0, rb[j as int].0));
                }
            }
        }
    }
    proof {
        assert(ra.take(ra.len() as int) =~= ra);
        assert(rb.take(rb.len() as int) =~= rb);
    }
    out
}

} // verus!
