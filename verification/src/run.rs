//! Sorted runs of (n-gram, posting list) pairs and their logical content.
//!
//! A run is the common shape of an accumulator snapshot, a spill segment
//! and the final index: dictionary keys in strictly ascending order, each
//! with a posting list.  Its logical content is a map from key to posting
//! set; a well-formed run is the unique sorted representation of its
//! content, which is what makes the final index independent of batching
//! and spill timing.

use vstd::prelude::*;
use crate::lex::{lex_lt, lemma_lex_lt_asymmetric};
use crate::posting::{ids_sorted, lemma_sorted_ids_unique};
use crate::tokenizer::ngrams_of;

verus! {

/// The logical shape of one run entry: a key and its posting list.
pub type SpecRun = Seq<(Seq<char>, Seq<u64>)>;

/// One dictionary entry: an n-gram key and the sorted row ids holding it.
pub struct IndexEntry {
    pub key: Vec<char>,
    pub ids: Vec<u64>,
}

impl View for IndexEntry {
    type V = (Seq<char>, Seq<u64>);

    open spec fn view(&self) -> (Seq<char>, Seq<u64>) {
        (self.key@, self.ids@)
    }
}

/// The logical run held by a vector of entries.
pub open spec fn run_view(es: Seq<IndexEntry>) -> SpecRun {
    es.map_values(|e: IndexEntry| e@)
}

/// Keys strictly ascending in lexicographic order.
pub open spec fn run_keys_sorted(rn: SpecRun) -> bool {
    forall|i: int, j: int| 0 <= i < j < rn.len() ==> #[trigger] lex_lt(rn[i].0, rn[j].0)
}

/// Every posting list strictly ascending.
pub open spec fn run_ids_sorted(rn: SpecRun) -> bool {
    forall|i: int| 0 <= i < rn.len() ==> #[trigger] ids_sorted(rn[i].1)
}

/// A well-formed run: sorted dictionary, sorted posting lists.
pub open spec fn run_wf(rn: SpecRun) -> bool {
    run_keys_sorted(rn) && run_ids_sorted(rn)
}

/// The content of a run: its map from key to posting set.
pub open spec fn run_map(rn: SpecRun) -> Map<Seq<char>, Set<u64>>
    decreases rn.len(),
{
    if rn.len() == 0 {
        Map::empty()
    } else {
        run_map(rn.drop_last()).insert(rn.last().0, rn.last().1.to_set())
    }
}

/// Whether some entry of the run carries key `k`.
pub open spec fn run_has_key(rn: SpecRun, k: Seq<char>) -> bool {
    exists|i: int| 0 <= i < rn.len() && (#[trigger] rn[i]).0 == k
}

/// Dropping the last entry keeps both sortedness properties.
pub proof fn lemma_drop_last_wf(rn: SpecRun)
    requires
        rn.len() > 0,
    ensures
        run_keys_sorted(rn) ==> run_keys_sorted(rn.drop_last()),
        run_ids_sorted(rn) ==> run_ids_sorted(rn.drop_last()),
{
    if run_keys_sorted(rn) {
        assert forall|i: int, j: int| 0 <= i < j < rn.drop_last().len() implies #[trigger] lex_lt(
            rn.drop_last()[i].0,
            rn.drop_last()[j].0,
        ) by {
            assert(rn.drop_last()[i] == rn[i]);
            assert(rn.drop_last()[j] == rn[j]);
            assert(lex_lt(rn[i].0, rn[j].0));
        }
    }
    if run_ids_sorted(rn) {
        assert forall|i: int| 0 <= i < rn.drop_last().len() implies #[trigger] ids_sorted(
            rn.drop_last()[i].1,
        ) by {
            assert(rn.drop_last()[i] == rn[i]);
            assert(ids_sorted(rn[i].1));
        }
    }
}

/// The domain of a run's content is exactly its key set.
pub proof fn lemma_run_map_dom(rn: SpecRun)
    ensures
        forall|k: Seq<char>| #[trigger] run_map(rn).dom().contains(k) <==> run_has_key(rn, k),
    decreases rn.len(),
{
    if rn.len() == 0 {
        assert forall|k: Seq<char>| !(#[trigger] run_map(rn).dom().contains(k)) by {}
        assert forall|k: Seq<char>| !run_has_key(rn, k) by {
            if run_has_key(rn, k) {
                let i = choose|i: int| 0 <= i < rn.len() && (#[trigger] rn[i]).0 == k;
            }
        }
    } else {
        lemma_run_map_dom(rn.drop_last());
        assert forall|k: Seq<char>| #[trigger] run_map(rn).dom().contains(k) implies run_has_key(
            rn,
            k,
        ) by {
            if k == rn.last().0 {
                assert((rn[rn.len() - 1]).0 == k);
            } else {
                assert(run_map(rn.drop_last()).dom().contains(k));
                let i = choose|i: int|
                    0 <= i < rn.drop_last().len() && (#[trigger] rn.drop_last()[i]).0 == k;
                assert((rn[i]).0 == k);
            }
        }
        assert forall|k: Seq<char>| run_has_key(rn, k) implies #[trigger] run_map(
            rn,
        ).dom().contains(k) by {
            let i = choose|i: int| 0 <= i < rn.len() && (#[trigger] rn[i]).0 == k;
            if i == rn.len() - 1 {
            } else {
                assert((rn.drop_last()[i]).0 == k);
                assert(run_has_key(rn.drop_last(), k));
                assert(run_map(rn.drop_last()).dom().contains(k));
            }
        }
    }
}

/// In a sorted run the content at entry `i`'s key is exactly that entry's
/// posting set.
pub proof fn lemma_run_map_at(rn: SpecRun, i: int)
    requires
        run_keys_sorted(rn),
        0 <= i < rn.len(),
    ensures
        run_map(rn).dom().contains(rn[i].0),
        run_map(rn)[rn[i].0] == rn[i].1.to_set(),
    decreases rn.len(),
{
    lemma_run_map_dom(rn);
    if i == rn.len() - 1 {
        assert(rn.last() == rn[i]);
    } else {
        assert(lex_lt(rn[i].0, rn[rn.len() - 1].0));
        lemma_lex_lt_asymmetric(rn[i].0, rn[rn.len() - 1].0);
        lemma_drop_last_wf(rn);
        lemma_run_map_at(rn.drop_last(), i);
        assert(rn.drop_last()[i] == rn[i]);
    }
}

/// Inserting an entry with a fresh key adds exactly that key to the content.
pub proof fn lemma_run_map_insert(rn: SpecRun, p: int, e: (Seq<char>, Seq<u64>))
    requires
        0 <= p <= rn.len(),
        !run_has_key(rn, e.0),
    ensures
        run_map(rn.insert(p, e)) == run_map(rn).insert(e.0, e.1.to_set()),
    decreases rn.len(),
{
    let s = rn.insert(p, e);
    if p == rn.len() {
        assert(s =~= rn.push(e));
        assert(s.drop_last() =~= rn);
        assert(s.last() == e);
    } else {
        assert(s.last() == rn.last());
        assert(s.drop_last() =~= rn.drop_last().insert(p, e));
        assert(!run_has_key(rn.drop_last(), e.0)) by {
            if run_has_key(rn.drop_last(), e.0) {
                let i = choose|i: int|
                    0 <= i < rn.drop_last().len() && (#[trigger] rn.drop_last()[i]).0 == e.0;
                assert((rn[i]).0 == e.0);
            }
        }
        lemma_run_map_insert(rn.drop_last(), p, e);
        assert(e.0 != rn.last().0) by {
            if e.0 == rn.last().0 {
                assert((rn[rn.len() - 1]).0 == e.0);
            }
        }
        assert(run_map(s) =~= run_map(rn).insert(e.0, e.1.to_set()));
    }
}

/// Replacing the posting list of entry `p` updates exactly its key.
pub proof fn lemma_run_map_update(rn: SpecRun, p: int, e: (Seq<char>, Seq<u64>))
    requires
        run_keys_sorted(rn),
        0 <= p < rn.len(),
        e.0 == rn[p].0,
    ensures
        run_map(rn.update(p, e)) == run_map(rn).insert(e.0, e.1.to_set()),
    decreases rn.len(),
{
    let s = rn.update(p, e);
    if p == rn.len() - 1 {
        assert(s.drop_last() =~= rn.drop_last());
        assert(s.last() == e);
        assert(run_map(s) =~= run_map(rn).insert(e.0, e.1.to_set()));
    } else {
        assert(s.last() == rn.last());
        assert(s.drop_last() =~= rn.drop_last().update(p, e));
        lemma_drop_last_wf(rn);
        assert(rn.drop_last()[p] == rn[p]);
        lemma_run_map_update(rn.drop_last(), p, e);
        assert(lex_lt(rn[p].0, rn[rn.len() - 1].0));
        lemma_lex_lt_asymmetric(rn[p].0, rn[rn.len() - 1].0);
        assert(run_map(s) =~= run_map(rn).insert(e.0, e.1.to_set()));
    }
}

/// A well-formed run is the unique sorted representation of its content:
/// two well-formed runs with equal content are equal entry for entry.
pub proof fn lemma_run_canonical(x: SpecRun, y: SpecRun)
    requires
        run_wf(x),
        run_wf(y),
        run_map(x) == run_map(y),
    ensures
        x == y,
    decreases x.len(),
{
    lemma_run_map_dom(x);
    lemma_run_map_dom(y);
    if x.len() == 0 {
        if y.len() > 0 {
            assert(run_map(y).dom().contains(y.last().0));
            assert(run_has_key(x, y.last().0));
            let i = choose|i: int| 0 <= i < x.len() && (#[trigger] x[i]).0 == y.last().0;
        }
        assert(x =~= y);
    } else if y.len() == 0 {
        assert(run_map(x).dom().contains(x.last().0));
        assert(run_has_key(y, x.last().0));
        let i = choose|i: int| 0 <= i < y.len() && (#[trigger] y[i]).0 == x.last().0;
    } else {
        let xl = x.last().0;
        let yl = y.last().0;
        assert(run_map(x).dom().contains(xl));
        assert(run_map(y).dom().contains(yl));
        assert(xl == yl) by {
            assert(run_has_key(y, xl));
            assert(run_has_key(x, yl));
            let i = choose|i: int| 0 <= i < x.len() && (#[trigger] x[i]).0 == yl;
            let j = choose|j: int| 0 <= j < y.len() && (#[trigger] y[j]).0 == xl;
            if i < x.len() - 1 {
                assert(lex_lt(yl, xl));
                if j < y.len() - 1 {
                    assert(lex_lt(xl, yl));
                    lemma_lex_lt_asymmetric(xl, yl);
                } else {
                    lemma_lex_lt_asymmetric(yl, xl);
                }
            }
        }
        assert(run_map(x)[xl] == x.last().1.to_set());
        assert(run_map(y)[yl] == y.last().1.to_set());
        assert(ids_sorted(x[x.len() - 1].1));
        assert(ids_sorted(y[y.len() - 1].1));
        lemma_sorted_ids_unique(x.last().1, y.last().1);
        assert(x.last() == y.last());
        assert(!run_has_key(x.drop_last(), xl)) by {
            if run_has_key(x.drop_last(), xl) {
                let i = choose|i: int|
                    0 <= i < x.drop_last().len() && (#[trigger] x.drop_last()[i]).0 == xl;
                assert((x[i]).0 == xl);
                assert(lex_lt(x[i].0, x[x.len() - 1].0));
                lemma_lex_lt_asymmetric(x[i].0, x[x.len() - 1].0);
            }
        }
        assert(!run_has_key(y.drop_last(), yl)) by {
            if run_has_key(y.drop_last(), yl) {
                let i = choose|i: int|
                    0 <= i < y.drop_last().len() && (#[trigger] y.drop_last()[i]).0 == yl;
                assert((y[i]).0 == yl);
                assert(lex_lt(y[i].0, y[y.len() - 1].0));
                lemma_lex_lt_asymmetric(y[i].0, y[y.len() - 1].0);
            }
        }
        lemma_run_map_dom(x.drop_last());
        lemma_run_map_dom(y.drop_last());
        assert(run_map(x.drop_last()) =~= run_map(x).remove(xl));
        assert(run_map(y.drop_last()) =~= run_map(y).remove(yl));
        lemma_drop_last_wf(x);
        lemma_drop_last_wf(y);
        lemma_run_canonical(x.drop_last(), y.drop_last());
        assert(x =~= y) by {
            assert(x.drop_last() =~= y.drop_last());
            assert(x.len() == y.len());
            assert forall|i: int| 0 <= i < x.len() implies x[i] == y[i] by {
                if i < x.len() - 1 {
                    assert(x.drop_last()[i] == y.drop_last()[i]);
                }
            }
        }
    }
}

/// The posting set of `k` in `m`, empty when `k` is absent.
pub open spec fn get_or_empty(m: Map<Seq<char>, Set<u64>>, k: Seq<char>) -> Set<u64> {
    if m.dom().contains(k) {
        m[k]
    } else {
        Set::empty()
    }
}

/// Combines the contents of two partial indexes: the union of their key
/// sets, with posting sets unioned where a key occurs in both.
pub open spec fn combine(
    m1: Map<Seq<char>, Set<u64>>,
    m2: Map<Seq<char>, Set<u64>>,
) -> Map<Seq<char>, Set<u64>> {
    Map::new(
        |k: Seq<char>| m1.dom().contains(k) || m2.dom().contains(k),
        |k: Seq<char>| get_or_empty(m1, k).union(get_or_empty(m2, k)),
    )
}

/// Combining with an empty partial index changes nothing.
pub proof fn lemma_combine_empty(m: Map<Seq<char>, Set<u64>>)
    ensures
        combine(m, Map::empty()) == m,
        combine(Map::empty(), m) == m,
{
    assert(combine(m, Map::empty()) =~~= m);
    assert(combine(Map::empty(), m) =~~= m);
}

/// Combining is associative.
pub proof fn lemma_combine_assoc(
    m1: Map<Seq<char>, Set<u64>>,
    m2: Map<Seq<char>, Set<u64>>,
    m3: Map<Seq<char>, Set<u64>>,
)
    ensures
        combine(m1, combine(m2, m3)) == combine(combine(m1, m2), m3),
{
    assert(combine(m1, combine(m2, m3)) =~~= combine(combine(m1, m2), m3));
}

/// Inserting a key on the left of a combination inserts it into the
/// combined content, with the right side's postings for that key unioned in.
pub proof fn lemma_combine_insert_left(
    m1: Map<Seq<char>, Set<u64>>,
    m2: Map<Seq<char>, Set<u64>>,
    k: Seq<char>,
    v: Set<u64>,
)
    ensures
        combine(m1.insert(k, v), m2) == combine(m1, m2).insert(k, v.union(get_or_empty(m2, k))),
{
    assert(combine(m1.insert(k, v), m2) =~~= combine(m1, m2).insert(
        k,
        v.union(get_or_empty(m2, k)),
    ));
}

/// The mirror image of `lemma_combine_insert_left`.
pub proof fn lemma_combine_insert_right(
    m1: Map<Seq<char>, Set<u64>>,
    m2: Map<Seq<char>, Set<u64>>,
    k: Seq<char>,
    v: Set<u64>,
)
    ensures
        combine(m1, m2.insert(k, v)) == combine(m1, m2).insert(k, get_or_empty(m1, k).union(v)),
{
    assert(combine(m1, m2.insert(k, v)) =~~= combine(m1, m2).insert(
        k,
        get_or_empty(m1, k).union(v),
    ));
}

/// Adding one row id under one key of a partial index.
pub open spec fn add_posting(
    m: Map<Seq<char>, Set<u64>>,
    k: Seq<char>,
    id: u64,
) -> Map<Seq<char>, Set<u64>> {
    m.insert(k, get_or_empty(m, k).insert(id))
}

/// The content contributed by one row: its id under each of its keys.
pub open spec fn row_map(id: u64, keys: Seq<Seq<char>>) -> Map<Seq<char>, Set<u64>> {
    Map::new(|k: Seq<char>| keys.contains(k), |k: Seq<char>| Set::empty().insert(id))
}

/// A row with no keys contributes nothing.
pub proof fn lemma_row_map_empty(m: Map<Seq<char>, Set<u64>>, id: u64, keys: Seq<Seq<char>>)
    requires
        keys.len() == 0,
    ensures
        combine(m, row_map(id, keys)) == m,
{
    assert(combine(m, row_map(id, keys)) =~~= m);
}

/// Adding a row id under the next of its keys extends the row's
/// contribution by exactly that key.
pub proof fn lemma_add_posting_step(
    m0: Map<Seq<char>, Set<u64>>,
    id: u64,
    keys: Seq<Seq<char>>,
    j: int,
)
    requires
        0 <= j < keys.len(),
    ensures
        add_posting(combine(m0, row_map(id, keys.take(j))), keys[j], id) == combine(
            m0,
            row_map(id, keys.take(j + 1)),
        ),
    decreases keys.len(),
{
    crate::posting::lemma_take_push(keys, j);
    assert forall|k: Seq<char>| #[trigger] keys.take(j + 1).contains(k) implies keys.take(
        j,
    ).contains(k) || k == keys[j] by {
        let t = choose|t: int| 0 <= t < keys.take(j + 1).len() && #[trigger] keys.take(j + 1)[t] == k;
        if t < j {
            assert(keys.take(j)[t] == k);
        }
    }
    assert forall|k: Seq<char>| #[trigger] keys.take(j).contains(k) implies keys.take(
        j + 1,
    ).contains(k) by {
        let t = choose|t: int| 0 <= t < keys.take(j).len() && #[trigger] keys.take(j)[t] == k;
        assert(keys.take(j + 1)[t] == k);
    }
    assert(keys.take(j + 1).contains(keys[j])) by {
        assert(keys.take(j + 1)[j] == keys[j]);
    }
    assert(add_posting(combine(m0, row_map(id, keys.take(j))), keys[j], id) =~~= combine(
        m0,
        row_map(id, keys.take(j + 1)),
    ));
}

/// The content a whole corpus induces under a given key: the ids of every
/// row whose text carries that key.
pub open spec fn index_postings(corpus: Seq<(u64, Seq<char>)>, n: nat, k: Seq<char>) -> Set<u64> {
    Set::new(
        |id: u64|
            exists|i: int|
                0 <= i < corpus.len() && (#[trigger] corpus[i]).0 == id && ngrams_of(
                    corpus[i].1,
                    n,
                ).contains(k),
    )
}

/// Whether any row of the corpus carries the key.
pub open spec fn index_has_key(corpus: Seq<(u64, Seq<char>)>, n: nat, k: Seq<char>) -> bool {
    exists|i: int| 0 <= i < corpus.len() && ngrams_of((#[trigger] corpus[i]).1, n).contains(k)
}

/// The full logical index of a corpus: every key any row carries, mapped
/// to the set of rows carrying it.  This is a function of the complete
/// corpus and the n-gram length alone — batching and spill timing do not
/// appear in it.
pub open spec fn index_of(corpus: Seq<(u64, Seq<char>)>, n: nat) -> Map<Seq<char>, Set<u64>> {
    Map::new(
        |k: Seq<char>| index_has_key(corpus, n, k),
        |k: Seq<char>| index_postings(corpus, n, k),
    )
}

/// An empty corpus induces an empty index.
pub proof fn lemma_index_of_empty(corpus: Seq<(u64, Seq<char>)>, n: nat)
    requires
        corpus.len() == 0,
    ensures
        index_of(corpus, n) == Map::<Seq<char>, Set<u64>>::empty(),
{
    assert(index_of(corpus, n) =~~= Map::<Seq<char>, Set<u64>>::empty());
}

/// Appending one row to the corpus combines the row's contribution into
/// the index.
pub proof fn lemma_index_of_push(corpus: Seq<(u64, Seq<char>)>, n: nat, id: u64, text: Seq<char>)
    ensures
        index_of(corpus.push((id, text)), n) == combine(
            index_of(corpus, n),
            row_map(id, ngrams_of(text, n)),
        ),
{
    let c2 = corpus.push((id, text));
    assert forall|k: Seq<char>|
        #[trigger] index_has_key(c2, n, k) implies index_has_key(corpus, n, k) || ngrams_of(
        text,
        n,
    ).contains(k) by {
        let i = choose|i: int| 0 <= i < c2.len() && ngrams_of((#[trigger] c2[i]).1, n).contains(k);
        if i < corpus.len() {
            assert(corpus[i] == c2[i]);
        } else {
            assert(c2[i] == (id, text));
        }
    }
    assert forall|k: Seq<char>| index_has_key(corpus, n, k) implies #[trigger] index_has_key(
        c2,
        n,
        k,
    ) by {
        let i = choose|i: int|
            0 <= i < corpus.len() && ngrams_of((#[trigger] corpus[i]).1, n).contains(k);
        assert(c2[i] == corpus[i]);
        assert(ngrams_of((c2[i]).1, n).contains(k));
    }
    assert forall|k: Seq<char>| ngrams_of(text, n).contains(k) implies #[trigger] index_has_key(
        c2,
        n,
        k,
    ) by {
        assert(c2[corpus.len() as int] == (id, text));
        assert(ngrams_of((c2[corpus.len() as int]).1, n).contains(k));
    }
    assert forall|k: Seq<char>, y: u64|
        #[trigger] index_postings(c2, n, k).contains(y) implies index_postings(
        corpus,
        n,
        k,
    ).contains(y) || (y == id && ngrams_of(text, n).contains(k)) by {
        let i = choose|i: int|
            0 <= i < c2.len() && (#[trigger] c2[i]).0 == y && ngrams_of(c2[i].1, n).contains(k);
        if i < corpus.len() {
            assert(corpus[i] == c2[i]);
        } else {
            assert(c2[i] == (id, text));
        }
    }
    assert forall|k: Seq<char>, y: u64|
        index_postings(corpus, n, k).contains(y) implies #[trigger] index_postings(
        c2,
        n,
        k,
    ).contains(y) by {
        let i = choose|i: int|
            0 <= i < corpus.len() && (#[trigger] corpus[i]).0 == y && ngrams_of(
                corpus[i].1,
                n,
            ).contains(k);
        assert(c2[i] == corpus[i]);
        assert((c2[i]).0 == y && ngrams_of(c2[i].1, n).contains(k));
    }
    assert forall|k: Seq<char>|
        ngrams_of(text, n).contains(k) implies #[trigger] index_postings(c2, n, k).contains(id) by {
        assert(c2[corpus.len() as int] == (id, text));
        assert((c2[corpus.len() as int]).0 == id && ngrams_of(
            (c2[corpus.len() as int]).1,
            n,
        ).contains(k));
    }
    assert(index_of(c2, n) =~~= combine(index_of(corpus, n), row_map(id, ngrams_of(text, n))));
}

} // verus!
