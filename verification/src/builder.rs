//! Out-of-core index construction.
//!
//! The builder consumes batches of `(row id, text)` pairs, tokenizes each
//! text, and folds the postings into the in-memory accumulator.  When the
//! accumulator's memory estimate exceeds the configured budget after a
//! batch, the sorted snapshot is serialized into a spill segment and the
//! accumulator is cleared.  Finishing merges every spill segment with the
//! in-memory remainder and serializes the single final index.  The final
//! bytes are pinned to the complete corpus and the n-gram length alone,
//! so they do not depend on how the input was batched or when spills
//! happened.

use vstd::prelude::*;
use crate::accum::Accumulator;
use crate::codec::{index_bytes, encode_index};
use crate::errors::IndexError;
use crate::merge::merge_runs;
use crate::reader::{load, genuine_blob};
use crate::run::{IndexEntry, SpecRun, run_view, run_wf, run_ids_sorted, run_map, combine,
    row_map, index_of, lemma_combine_empty, lemma_combine_assoc, lemma_row_map_empty,
    lemma_add_posting_step, lemma_index_of_empty, lemma_index_of_push};
use crate::tokenizer::{ngrams_of, tokenize};

verus! {

/// The recognized build options: the n-gram length (must be at least 1),
/// the memory budget in bytes that triggers a spill when the
/// accumulator's estimate exceeds it, and the target size in bytes of a
/// posting block in the final index.  The written layout stores every
/// posting list as a block of its own, so no block read ever pulls more
/// than one list regardless of the target; the option is carried for
/// callers that record their build parameters.
pub struct BuildConfig {
    pub ngram_len: usize,
    pub memory_budget: usize,
    pub block_target: usize,
}

impl Default for BuildConfig {
    /// Trigram indexing with a modest in-memory budget.
    fn default() -> (r: Self)
        ensures
            r.ngram_len == 3,
    {
        BuildConfig { ngram_len: 3, memory_budget: 64 * 1024 * 1024, block_target: 8 * 1024 }
    }
}

/// The combined content of a sequence of partial-index runs.
pub open spec fn combined_maps(runs: Seq<SpecRun>) -> Map<Seq<char>, Set<u64>>
    decreases runs.len(),
{
    if runs.len() == 0 {
        Map::empty()
    } else {
        combine(combined_maps(runs.drop_last()), run_map(runs.last()))
    }
}

/// The rows of one batch in order, with null texts skipped.
pub open spec fn batch_rows(ids: Seq<u64>, texts: Seq<Option<Vec<char>>>) -> Seq<(u64, Seq<char>)>
    decreases texts.len(),
{
    if texts.len() == 0 || ids.len() == 0 {
        Seq::empty()
    } else {
        let rest = batch_rows(ids.drop_last(), texts.drop_last());
        match texts.last() {
            Option::Some(t) => rest.push((ids.last(), t@)),
            Option::None => rest,
        }
    }
}

/// Whether `bytes` is the serialized final index of `corpus` under
/// n-gram length `n`: the encoding of the unique well-formed run whose
/// content is the corpus's logical index.
pub open spec fn is_index_blob_for(
    bytes: Seq<u8>,
    n: usize,
    corpus: Seq<(u64, Seq<char>)>,
) -> bool {
    exists|rn: SpecRun|
        run_wf(rn) && run_map(rn) == index_of(corpus, n as nat) && bytes == #[trigger] index_bytes(
            n as u64,
            rn,
        )
}

/// One in-progress index construction.
pub struct Builder {
    cfg: BuildConfig,
    accum: Accumulator,
    segments: Vec<Vec<u8>>,
    seg_runs: Ghost<Seq<SpecRun>>,
    rows: Ghost<Seq<(u64, Seq<char>)>>,
}

impl Builder {
    /// The rows ingested so far, in order, nulls skipped.
    pub closed spec fn corpus(&self) -> Seq<(u64, Seq<char>)> {
        self.rows@
    }

    /// The configured n-gram length.
    pub closed spec fn n_spec(&self) -> usize {
        self.cfg.ngram_len
    }

    /// How many spill segments have been written.
    pub closed spec fn spills_spec(&self) -> nat {
        self.segments@.len()
    }

    /// The accumulator's tracked memory estimate.
    pub closed spec fn mem_spec(&self) -> usize {
        self.accum.mem_spec()
    }

    /// The build invariant: every spill segment is the encoding of a
    /// well-formed run, and the segments' contents combined with the
    /// accumulator's remainder are exactly the logical index of the rows
    /// ingested so far.
    pub closed spec fn wf(&self) -> bool {
        &&& 1 <= self.cfg.ngram_len
        &&& self.accum.wf()
        &&& self.seg_runs@.len() == self.segments@.len()
        &&& forall|s: int|
            0 <= s < self.segments@.len() ==> run_wf(#[trigger] self.seg_runs@[s])
                && self.segments@[s]@ == index_bytes(self.cfg.ngram_len as u64, self.seg_runs@[s])
        &&& combine(combined_maps(self.seg_runs@), self.accum.content()) == index_of(
            self.rows@,
            self.cfg.ngram_len as nat,
        )
    }

    /// Starts a build.  An n-gram length of zero is a configuration
    /// error, rejected before any data is ingested.
    pub fn new(cfg: BuildConfig) -> (r: Result<Builder, IndexError>)
        ensures
            (r is Ok) == (cfg.ngram_len >= 1),
            r is Ok ==> r->Ok_0.wf() && r->Ok_0.corpus() == Seq::<(u64, Seq<char>)>::empty()
                && r->Ok_0.n_spec() == cfg.ngram_len && r->Ok_0.spills_spec() == 0,
            r is Err ==> r->Err_0 == IndexError::InvalidConfig,
    {
        if cfg.ngram_len == 0 {
            return Err(IndexError::InvalidConfig);
        }
        let ghost n = cfg.ngram_len as nat;
        let b = Builder {
            cfg,
            accum: Accumulator::new(),
            segments: Vec::new(),
            seg_runs: Ghost(Seq::empty()),
            rows: Ghost(Seq::empty()),
        };
        proof {
            lemma_combine_empty(b.accum.content());
            lemma_index_of_empty(b.rows@, n);
        }
        Ok(b)
    }

    /// The configured n-gram length.
    pub fn ngram_len(&self) -> (r: usize)
        ensures
            r == self.n_spec(),
    {
        self.cfg.ngram_len
    }

    /// How many spill segments this build has produced so far; useful
    /// for diagnostics and for checking spill behaviour in tests.
    pub fn spill_count(&self) -> (r: usize)
        ensures
            r == self.spills_spec(),
    {
        self.segments.len()
    }

    /// The current memory estimate of the in-memory accumulator.
    pub fn mem_estimate(&self) -> (r: usize)
        ensures
            r == self.mem_spec(),
    {
        self.accum.mem_estimate()
    }

    /// Ingests one batch: parallel columns of row ids and nullable
    /// texts.  A length mismatch is a malformed batch, rejected
    /// immediately with the builder unchanged.  After the batch, a
    /// memory estimate above the budget triggers a spill.
    #[verifier::loop_isolation(false)]
    pub fn push_batch(
        &mut self,
        row_ids: &Vec<u64>,
        texts: &Vec<Option<Vec<char>>>,
    ) -> (r: Result<(), IndexError>)
        requires
            old(self).wf(),
        ensures
            final(self).wf(),
            final(self).n_spec() == old(self).n_spec(),
            (r is Err) == (row_ids@.len() != texts@.len()),
            r is Err ==> r->Err_0 == IndexError::MalformedBatch && *final(self) == *old(self),
            r is Ok ==> final(self).corpus() == old(self).corpus() + batch_rows(
                row_ids@,
                texts@,
            ),
    {
        if row_ids.len() != texts.len() {
            return Err(IndexError::MalformedBatch);
        }
        let ghost rows0 = self.rows@;
        let ghost n = self.cfg.ngram_len as nat;
        let ghost segmaps = combined_maps(self.seg_runs@);
        proof {
            assert(batch_rows(row_ids@.take(0), texts@.take(0)) =~= Seq::<(u64, Seq<char>)>::empty());
            assert(rows0 + batch_rows(row_ids@.take(0), texts@.take(0)) =~= rows0);
        }
        let mut r: usize = 0;
        while r < texts.len()
            invariant
                self.cfg == old(self).cfg,
                self.segments@ == old(self).segments@,
                self.seg_runs@ == old(self).seg_runs@,
                self.rows@ == rows0,
                self.accum.wf(),
                r <= texts@.len(),
                row_ids@.len() == texts@.len(),
                combine(segmaps, self.accum.content()) == index_of(
                    rows0 + batch_rows(row_ids@.take(r as int), texts@.take(r as int)),
                    n,
                ),
            decreases texts@.len() - r,
        {
            let ghost rows_r = rows0 + batch_rows(row_ids@.take(r as int), texts@.take(r as int));
            match &texts[r] {
                Option::None => {
                    proof {
                        assert(texts@.take(r + 1).drop_last() =~= texts@.take(r as int));
                        assert(row_ids@.take(r + 1).drop_last() =~= row_ids@.take(r as int));
                        assert(texts@.take(r + 1).last() == texts@[r as int]);
                        assert(batch_rows(row_ids@.take(r + 1), texts@.take(r + 1)) == batch_rows(
                            row_ids@.take(r as int),
                            texts@.take(r as int),
                        ));
                    }
                },
                Option::Some(text) => {
                    let id = row_ids[r];
                    let tokens = tokenize(text, self.cfg.ngram_len);
                    let ghost keys = ngrams_of(text@, n);
                    let ghost m0 = self.accum.content();
                    proof {
                        lemma_row_map_empty(m0, id, keys.take(0));
                        assert(keys.take(0).len() == 0);
                    }
                    let mut j: usize = 0;
                    while j < tokens.len()
                        invariant
                            self.cfg == old(self).cfg,
                            self.segments@ == old(self).segments@,
                            self.seg_runs@ == old(self).seg_runs@,
                            self.rows@ == rows0,
                            self.accum.wf(),
                            j <= tokens@.len(),
                            tokens@.len() == keys.len(),
                            forall|t: int| 0 <= t < keys.len() ==> (#[trigger] tokens@[t])@
                                == keys[t],
                            self.accum.content() == combine(m0, row_map(id, keys.take(j as int))),
                        decreases tokens@.len() - j,
                    {
                        proof {
                            lemma_add_posting_step(m0, id, keys, j as int);
                        }
                        self.accum.add(&tokens[j], id);
                        j = j + 1;
                    }
                    proof {
                        assert(keys.take(keys.len() as int) =~= keys);
                        assert(self.accum.content() == combine(m0, row_map(id, keys)));
                        lemma_combine_assoc(segmaps, m0, row_map(id, keys));
                        lemma_index_of_push(rows_r, n, id, text@);
                        assert(texts@.take(r + 1).drop_last() =~= texts@.take(r as int));
                        assert(row_ids@.take(r + 1).drop_last() =~= row_ids@.take(r as int));
                        assert(texts@.take(r + 1).last() == texts@[r as int]);
                        assert(row_ids@.take(r + 1).last() == row_ids@[r as int]);
                        assert(batch_rows(row_ids@.take(r + 1), texts@.take(r + 1)) == batch_rows(
                            row_ids@.take(r as int),
                            texts@.take(r as int),
                        ).push((id, text@)));
                        assert(rows0 + batch_rows(row_ids@.take(r + 1), texts@.take(r + 1))
                            =~= rows_r.push((id, text@)));
                    }
                },
            }
            r = r + 1;
        }
        proof {
            assert(texts@.take(texts@.len() as int) =~= texts@);
            assert(row_ids@.take(row_ids@.len() as int) =~= row_ids@);
        }
        self.rows = Ghost(rows0 + batch_rows(row_ids@, texts@));
        if self.accum.mem_estimate() > self.cfg.memory_budget {
            self.spill();
        }
        Ok(())
    }

    /// Serializes the accumulator's sorted snapshot as a new spill
    /// segment and clears the accumulator.
    fn spill(&mut self)
        requires
            old(self).wf(),
        ensures
            final(self).wf(),
            final(self).cfg == old(self).cfg,
            final(self).rows@ == old(self).rows@,
            final(self).segments@.len() == old(self).segments@.len() + 1,
    {
        let ghost n = self.cfg.ngram_len as nat;
        let ghost segmaps0 = combined_maps(self.seg_runs@);
        let ghost m0 = self.accum.content();
        let snapshot = self.accum.drain();
        let blob = encode_index(self.cfg.ngram_len as u64, &snapshot);
        let ghost new_run = run_view(snapshot@);
        self.segments.push(blob);
        proof {
            self.seg_runs@ = self.seg_runs@.push(new_run);
        }
        proof {
            assert(self.seg_runs@.drop_last() =~= old(self).seg_runs@);
            assert(self.seg_runs@.last() == new_run);
            assert(combined_maps(self.seg_runs@) == combine(segmaps0, m0));
            lemma_combine_empty(combine(segmaps0, m0));
            lemma_combine_assoc(segmaps0, m0, self.accum.content());
            assert(combine(m0, self.accum.content()) =~~= m0) by {
                lemma_combine_empty(m0);
            }
            assert(combine(combined_maps(self.seg_runs@), self.accum.content()) == index_of(
                self.rows@,
                n,
            ));
            assert forall|s: int|
                0 <= s < self.segments@.len() implies run_wf(#[trigger] self.seg_runs@[s])
                && self.segments@[s]@ == index_bytes(
                self.cfg.ngram_len as u64,
                self.seg_runs@[s],
            ) by {
                if s < old(self).segments@.len() {
                    assert(self.seg_runs@[s] == old(self).seg_runs@[s]);
                    assert(self.segments@[s] == old(self).segments@[s]);
                    assert(run_wf(old(self).seg_runs@[s]));
                }
            }
        }
    }

    /// Performs the final merge: every spill segment is decoded and
    /// merged with the in-memory remainder, and the single final index
    /// is serialized.  The resulting bytes are the encoding of the one
    /// well-formed run holding the logical index of the complete
    /// corpus — independent of batch boundaries and of when spills
    /// occurred.
    #[verifier::loop_isolation(false)]
    pub fn finish(self) -> (r: Vec<u8>)
        requires
            self.wf(),
        ensures
            is_index_blob_for(r@, self.n_spec(), self.corpus()),
    {
        let ghost n = self.cfg.ngram_len as nat;
        let ghost all_runs = self.seg_runs@;
        let ghost rows = self.rows@;
        let ghost nlen = self.cfg.ngram_len;
        proof {
            assert(nlen >= 1);
        }
        let mut me = self;
        let mut merged = me.accum.drain();
        proof {
            assert(all_runs.take(me.segments@.len() as int) =~= all_runs);
        }
        while me.segments.len() > 0
            invariant
                me.cfg.ngram_len == nlen,
                1 <= nlen,
                me.segments@.len() <= all_runs.len(),
                me.seg_runs@ == all_runs,
                forall|s: int|
                    0 <= s < all_runs.len() ==> run_wf(#[trigger] all_runs[s]),
                forall|s: int|
                    0 <= s < me.segments@.len() ==> (#[trigger] me.segments@[s])@ == index_bytes(
                        nlen as u64,
                        all_runs[s],
                    ),
                run_wf(run_view(merged@)),
                combine(
                    combined_maps(all_runs.take(me.segments@.len() as int)),
                    run_map(run_view(merged@)),
                ) == index_of(rows, n),
            decreases me.segments@.len(),
        {
            let ghost cur_len = me.segments@.len() as int;
            let blob_opt = me.segments.pop();
            let blob = match blob_opt {
                Option::Some(b) => b,
                Option::None => {
                    proof {
                        assert(false);
                    }
                    Vec::new()
                },
            };
            let ghost seg_run = all_runs[cur_len - 1];
            proof {
                assert(blob@ == index_bytes(nlen as u64, seg_run));
                assert(genuine_blob(blob@, nlen as u64, seg_run));
            }
            let rd = match load(blob) {
                Result::Ok(rd) => rd,
                Result::Err(_) => {
                    proof {
                        assert(false);
                    }
                    return Vec::new();
                },
            };
            proof {
                assert(rd.run_spec() == seg_run);
            }
            let mut seg_vec: Vec<IndexEntry> = Vec::new();
            let count = rd.entry_count();
            let mut i: usize = 0;
            let mut rd2 = rd;
            while i < count
                invariant
                    rd2.wf(),
                    rd2.run_spec() == seg_run,
                    run_wf(seg_run),
                    count == seg_run.len(),
                    i <= count,
                    run_view(seg_vec@) =~= seg_run.take(i as int),
                decreases count - i,
            {
                let key = crate::tokenizer::clone_range(rd2.key_at(i), 0, rd2.key_at(i).len());
                proof {
                    assert(key@ =~= seg_run[i as int].0);
                    assert(run_ids_sorted(seg_run));
                    assert(crate::posting::ids_sorted(seg_run[i as int].1));
                }
                let ids = match rd2.read_postings(i) {
                    Result::Ok(v) => v,
                    Result::Err(_) => {
                        proof {
                            assert(false);
                        }
                        return Vec::new();
                    },
                };
                seg_vec.push(IndexEntry { key, ids });
                proof {
                    assert(seg_run.take(i + 1) =~= seg_run.take(i as int).push(
                        seg_run[i as int],
                    ));
                }
                i = i + 1;
            }
            proof {
                assert(seg_run.take(count as int) =~= seg_run);
                assert(run_view(seg_vec@) == seg_run);
            }
            let new_merged = merge_runs(&seg_vec, &merged);
            proof {
                assert(all_runs.take(cur_len).drop_last() =~= all_runs.take(cur_len - 1));
                assert(all_runs.take(cur_len).last() == seg_run);
                assert(combined_maps(all_runs.take(cur_len)) == combine(
                    combined_maps(all_runs.take(cur_len - 1)),
                    run_map(seg_run),
                ));
                lemma_combine_assoc(
                    combined_maps(all_runs.take(cur_len - 1)),
                    run_map(seg_run),
                    run_map(run_view(merged@)),
                );
            }
            merged = new_merged;
        }
        proof {
            assert(all_runs.take(0) =~= Seq::<SpecRun>::empty());
            lemma_combine_empty(run_map(run_view(merged@)));
            assert(run_map(run_view(merged@)) == index_of(rows, n));
        }
        let out = encode_index(me.cfg.ngram_len as u64, &merged);
        proof {
            let rn = run_view(merged@);
            assert(run_wf(rn) && run_map(rn) == index_of(rows, nlen as nat) && out@ == index_bytes(
                nlen as u64,
                rn,
            ));
            assert(is_index_blob_for(out@, nlen, rows));
        }
        out
    }
}

} // verus!
