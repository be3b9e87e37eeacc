//! The posting accumulator: the bounded-memory in-memory partial index.
//!
//! It maps each n-gram seen so far to the sorted set of row ids holding
//! it, kept as a sorted run so that a snapshot can be spilled or merged
//! without re-sorting.  A cheap, incrementally maintained memory estimate
//! lets the builder check its budget after every batch.

use vstd::prelude::*;
use crate::lex::{lex_lt, lemma_lex_lt_asymmetric, lemma_lex_lt_connected, lemma_lex_lt_transitive,
    key_lt, key_eq};
use crate::posting::insert_id;
use crate::run::{IndexEntry, SpecRun, run_view, run_wf, run_keys_sorted, run_ids_sorted, run_map,
    run_has_key, lemma_run_map_dom, lemma_run_map_at, lemma_run_map_insert, lemma_run_map_update,
    add_posting, get_or_empty};
use crate::tokenizer::clone_range;

verus! {

/// In-memory accumulation of posting lists under a memory budget.
pub struct Accumulator {
    entries: Vec<IndexEntry>,
    mem: usize,
}

impl Accumulator {
    /// The run currently held, in ascending key order.
    pub closed spec fn run(&self) -> SpecRun {
        run_view(self.entries@)
    }

    /// Well-formedness: a sorted dictionary of sorted posting lists.
    pub closed spec fn wf(&self) -> bool {
        run_wf(self.run())
    }

    /// The content accumulated so far.
    pub closed spec fn content(&self) -> Map<Seq<char>, Set<u64>> {
        run_map(self.run())
    }

    /// The current memory estimate, as tracked.
    pub closed spec fn mem_spec(&self) -> usize {
        self.mem
    }

    /// Creates an empty accumulator.
    pub fn new() -> (r: Self)
        ensures
            r.wf(),
            r.content() == Map::<Seq<char>, Set<u64>>::empty(),
            r.mem_spec() == 0,
    {
        let r = Accumulator { entries: Vec::new(), mem: 0 };
        proof {
            assert(r.run() =~= Seq::<(Seq<char>, Seq<u64>)>::empty());
        }
        r
    }

    /// The approximate byte cost of the held keys and posting lists.  It
    /// is updated on each insert rather than recomputed, increases
    /// monotonically with inserts, and drops to zero when the
    /// accumulator is drained.
    pub fn mem_estimate(&self) -> (r: usize)
        ensures
            r == self.mem_spec(),
    {
        self.mem
    }

    /// How many distinct n-grams are currently held.
    pub fn key_count(&self) -> (r: usize)
        ensures
            r == self.run().len(),
    {
        self.entries.len()
    }

    /// Inserts `row_id` into the posting set of `key`, creating the
    /// entry if the key is new.  Observing the same (key, row) pair
    /// again leaves the content unchanged, and the memory estimate never
    /// decreases.
    pub fn add(&mut self, key: &Vec<char>, row_id: u64)
        requires
            old(self).wf(),
        ensures
            final(self).wf(),
            final(self).content() == add_posting(old(self).content(), key@, row_id),
            final(self).mem_spec() >= old(self).mem_spec(),
    {
        let ghost rn0 = self.run();
        let mut idx: usize = 0;
        while idx < self.entries.len() && key_lt(&self.entries[idx].key, key)
            invariant
                self.wf(),
                self.run() == rn0,
                idx <= self.entries@.len(),
                forall|t: int| 0 <= t < idx ==> lex_lt(#[trigger] self.run()[t].0, key@),
            decreases self.entries@.len() - idx,
        {
            proof {
                assert(self.run()[idx as int].0 == self.entries@[idx as int].key@);
            }
            idx = idx + 1;
        }
        proof {
            if idx < self.entries@.len() {
                assert(self.run()[idx as int].0 == self.entries@[idx as int].key@);
                assert(!lex_lt(self.run()[idx as int].0, key@));
            }
        }
        if idx < self.entries.len() && key_eq(&self.entries[idx].key, key) {
            // The key is present: extend its posting list.
            proof {
                assert(self.run()[idx as int] == self.entries@[idx as int]@);
                assert(ids_sorted_at(self.run(), idx as int));
                lemma_run_map_at(self.run(), idx as int);
            }
            let new_ids = insert_id(&self.entries[idx].ids, row_id);
            let grew = new_ids.len() > self.entries[idx].ids.len();
            let ghost e2 = (key@, new_ids@);
            let entry = &mut self.entries[idx];
            entry.ids = new_ids;
            proof {
                assert(self.run() =~= rn0.update(idx as int, e2));
                lemma_run_map_update(rn0, idx as int, e2);
                assert(run_map(self.run()) =~= add_posting(run_map(rn0), key@, row_id));
                assert(run_keys_sorted(self.run())) by {
                    assert forall|i: int, j: int|
                        0 <= i < j < self.run().len() implies #[trigger] lex_lt(
                        self.run()[i].0,
                        self.run()[j].0,
                    ) by {
                        assert(rn0[i].0 == self.run()[i].0);
                        assert(rn0[j].0 == self.run()[j].0);
                        assert(lex_lt(rn0[i].0, rn0[j].0));
                    }
                }
                assert(run_ids_sorted(self.run())) by {
                    assert forall|i: int| 0 <= i < self.run().len() implies ids_sorted_at(
                        self.run(),
                        i,
                    ) by {
                        if i != idx as int {
                            assert(rn0[i] == self.run()[i]);
                            assert(ids_sorted_at(rn0, i));
                        }
                    }
                }
            }
            if grew {
                self.mem = self.mem.saturating_add(8);
            }
        } else {
            // A new key: insert a fresh entry at the found position.
            proof {
                if idx < self.entries@.len() {
                    assert(self.run()[idx as int].0 == self.entries@[idx as int].key@);
                    assert(!lex_lt(self.run()[idx as int].0, key@));
                    assert(self.run()[idx as int].0 != key@);
                    if !lex_lt(key@, self.run()[idx as int].0) {
                        lemma_lex_lt_connected(self.run()[idx as int].0, key@);
                    }
                    assert(lex_lt(key@, self.run()[idx as int].0));
                }
                assert(!run_has_key(rn0, key@)) by {
                    if run_has_key(rn0, key@) {
                        let t = choose|t: int| 0 <= t < rn0.len() && (#[trigger] rn0[t]).0 == key@;
                        if t < idx as int {
                            assert(lex_lt(rn0[t].0, key@));
                            lemma_lex_lt_asymmetric(rn0[t].0, key@);
                        } else if t == idx as int {
                            assert(rn0[t].0 != key@);
                        } else {
                            assert(lex_lt(key@, rn0[idx as int].0));
                            assert(lex_lt(rn0[idx as int].0, rn0[t].0));
                            lemma_lex_lt_transitive(key@, rn0[idx as int].0, rn0[t].0);
                            lemma_lex_lt_asymmetric(key@, rn0[t].0);
                        }
                    }
                }
            }
            let owned_key = clone_range(key, 0, key.len());
            let mut ids: Vec<u64> = Vec::new();
            ids.push(row_id);
            proof {
                assert(owned_key@ =~= key@);
                assert(crate::posting::ids_sorted(ids@));
            }
            let e = IndexEntry { key: owned_key, ids };
            let ghost ev = e@;
            self.entries.insert(idx, e);
            proof {
                assert(self.run() =~= rn0.insert(idx as int, ev));
                lemma_run_map_insert(rn0, idx as int, ev);
                lemma_run_map_dom(rn0);
                assert(!run_map(rn0).dom().contains(key@));
                assert(ev.1.to_set() =~= get_or_empty(run_map(rn0), key@).insert(row_id)) by {
                    assert(ev.1[0] == row_id);
                    assert forall|y: u64| ev.1.contains(y) implies y == row_id by {
                        let t = choose|t: int| 0 <= t < ev.1.len() && ev.1[t] == y;
                    }
                    assert(ev.1.contains(row_id));
                }
                assert(run_map(self.run()) =~= add_posting(run_map(rn0), key@, row_id));
                assert(run_keys_sorted(self.run())) by {
                    assert forall|i: int, j: int|
                        0 <= i < j < self.run().len() implies #[trigger] lex_lt(
                        self.run()[i].0,
                        self.run()[j].0,
                    ) by {
                        let s = self.run();
                        if j < idx as int {
                            assert(s[i] == rn0[i] && s[j] == rn0[j]);
                        } else if j == idx as int {
                            assert(s[i] == rn0[i]);
                            assert(lex_lt(rn0[i].0, key@));
                        } else if i < idx as int {
                            assert(s[i] == rn0[i] && s[j] == rn0[j - 1]);
                            if j - 1 == idx as int {
                                assert(lex_lt(rn0[i].0, key@));
                                assert(lex_lt(key@, rn0[idx as int].0));
                            } else {
                                assert(lex_lt(rn0[i].0, rn0[j - 1].0));
                            }
                        } else if i == idx as int {
                            assert(s[j] == rn0[j - 1]);
                            assert(lex_lt(key@, rn0[idx as int].0));
                            if j - 1 > idx as int {
                                assert(lex_lt(rn0[idx as int].0, rn0[j - 1].0));
                                lemma_lex_lt_transitive(key@, rn0[idx as int].0, rn0[j - 1].0);
                            }
                        } else {
                            assert(s[i] == rn0[i - 1] && s[j] == rn0[j - 1]);
                            assert(lex_lt(rn0[i - 1].0, rn0[j - 1].0));
                        }
                    }
                }
                assert(run_ids_sorted(self.run())) by {
                    assert forall|i: int| 0 <= i < self.run().len() implies ids_sorted_at(
                        self.run(),
                        i,
                    ) by {
                        let s = self.run();
                        if i < idx as int {
                            assert(s[i] == rn0[i]);
                            assert(ids_sorted_at(rn0, i));
                        } else if i > idx as int {
                            assert(s[i] == rn0[i - 1]);
                            assert(ids_sorted_at(rn0, i - 1));
                        }
                    }
                }
            }
            let key_cost = match key.len().checked_mul(4) {
                Some(c) => c.saturating_add(48),
                None => usize::MAX,
            };
            self.mem = self.mem.saturating_add(key_cost).saturating_add(8);
        }
    }

    /// Hands out the accumulated run, sorted and well-formed, and resets
    /// the accumulator to empty with a zero memory estimate.
    pub fn drain(&mut self) -> (r: Vec<IndexEntry>)
        requires
            old(self).wf(),
        ensures
            run_wf(run_view(r@)),
            run_map(run_view(r@)) == old(self).content(),
            final(self).wf(),
            final(self).content() == Map::<Seq<char>, Set<u64>>::empty(),
            final(self).mem_spec() == 0,
    {
        let mut out: Vec<IndexEntry> = Vec::new();
        core::mem::swap(&mut out, &mut self.entries);
        self.mem = 0;
        proof {
            assert(self.run() =~= Seq::<(Seq<char>, Seq<u64>)>::empty());
        }
        out
    }
}

/// Whether the posting list of entry `i` is strictly ascending; a helper
/// for stating per-entry facts with a usable trigger.
pub open spec fn ids_sorted_at(rn: SpecRun, i: int) -> bool {
    crate::posting::ids_sorted(rn[i].1)
}

} // verus!
