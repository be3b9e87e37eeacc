//! Posting lists: the set of row ids associated with one n-gram key.
//!
//! A posting list is kept as a strictly ascending vector of row ids, so a
//! row id appears at most once no matter how often its text repeats the
//! n-gram and no matter how many batches or spills the row was observed
//! across.  Strict ordering also makes merging and intersection linear.

use vstd::prelude::*;

verus! {

/// Strictly ascending row ids: sorted, and therefore duplicate-free.
pub open spec fn ids_sorted(s: Seq<u64>) -> bool {
    forall|i: int, j: int| 0 <= i < j < s.len() ==> s[i] < s[j]
}

/// Taking one more element appends exactly that element.
pub proof fn lemma_take_push<A>(s: Seq<A>, i: int)
    requires
        0 <= i < s.len(),
    ensures
        s.take(i + 1) =~= s.take(i).push(s[i]),
{
}

/// Pushing an element inserts exactly that element into the id set.
pub proof fn lemma_to_set_push<A>(s: Seq<A>, x: A)
    ensures
        s.push(x).to_set() =~= s.to_set().insert(x),
{
    assert forall|y: A| #[trigger] s.push(x).contains(y) implies s.to_set().insert(x).contains(y)
        by {
        let k = choose|k: int| 0 <= k < s.push(x).len() && #[trigger] s.push(x)[k] == y;
        if k < s.len() {
            assert(s[k] == y);
        }
    }
    assert forall|y: A| s.to_set().insert(x).contains(y) implies #[trigger] s.push(x).contains(y)
        by {
        if y == x {
            assert(s.push(x)[s.len() as int] == y);
        } else {
            let k = choose|k: int| 0 <= k < s.len() && #[trigger] s[k] == y;
            assert(s.push(x)[k] == y);
        }
    }
}

/// A strictly sorted sequence never repeats an element.
pub proof fn lemma_sorted_no_duplicates(s: Seq<u64>)
    requires
        ids_sorted(s),
    ensures
        forall|i: int, j: int| 0 <= i < j < s.len() ==> s[i] != s[j],
{
}

/// Two strictly sorted id sequences holding the same ids are equal: the
/// sorted form of a posting set is canonical.
pub proof fn lemma_sorted_ids_unique(a: Seq<u64>, b: Seq<u64>)
    requires
        ids_sorted(a),
        ids_sorted(b),
        a.to_set() == b.to_set(),
    ensures
        a == b,
    decreases a.len(),
{
    if a.len() == 0 {
        if b.len() > 0 {
            assert(b.to_set().contains(b[0]));
            assert(a.contains(b[0]));
        }
        assert(a =~= b);
    } else if b.len() == 0 {
        assert(a.to_set().contains(a[0]));
        assert(b.contains(a[0]));
    } else {
        let la = a[a.len() - 1];
        let lb = b[b.len() - 1];
        assert(a.to_set().contains(la));
        assert(b.to_set().contains(lb));
        assert(b.contains(la));
        assert(a.contains(lb));
        let ia = choose|i: int| 0 <= i < a.len() && a[i] == lb;
        let ib = choose|i: int| 0 <= i < b.len() && b[i] == la;
        assert(lb <= la) by {
            if ia < a.len() - 1 {
                assert(a[ia] < la);
            }
        }
        assert(la <= lb) by {
            if ib < b.len() - 1 {
                assert(b[ib] < lb);
            }
        }
        assert(la == lb);
        assert(a.drop_last().to_set() =~= a.to_set().remove(la)) by {
            assert forall|x: u64| a.drop_last().contains(x) implies a.contains(x) && x != la by {
                let i = choose|i: int| 0 <= i < a.drop_last().len() && a.drop_last()[i] == x;
                assert(a[i] == x);
                assert(a[i] < la);
            }
            assert forall|x: u64| a.contains(x) && x != la implies a.drop_last().contains(x) by {
                let i = choose|i: int| 0 <= i < a.len() && a[i] == x;
                assert(i != a.len() - 1);
                assert(a.drop_last()[i] == x);
            }
        }
        assert(b.drop_last().to_set() =~= b.to_set().remove(lb)) by {
            assert forall|x: u64| b.drop_last().contains(x) implies b.contains(x) && x != lb by {
                let i = choose|i: int| 0 <= i < b.drop_last().len() && b.drop_last()[i] == x;
                assert(b[i] == x);
                assert(b[i] < lb);
            }
            assert forall|x: u64| b.contains(x) && x != lb implies b.drop_last().contains(x) by {
                let i = choose|i: int| 0 <= i < b.len() && b[i] == x;
                assert(i != b.len() - 1);
                assert(b.drop_last()[i] == x);
            }
        }
        lemma_sorted_ids_unique(a.drop_last(), b.drop_last());
        assert(a =~= b) by {
            assert(a.drop_last() =~= b.drop_last());
            assert forall|i: int| 0 <= i < a.len() implies a[i] == b[i] by {
                if i < a.len() - 1 {
                    assert(a.drop_last()[i] == b.drop_last()[i]);
                }
            }
        }
    }
}

/// Unions two sorted posting lists into one sorted posting list holding
/// exactly the row ids of both.
pub fn union_ids(a: &Vec<u64>, b: &Vec<u64>) -> (r: Vec<u64>)
    requires
        ids_sorted(a@),
        ids_sorted(b@),
    ensures
        ids_sorted(r@),
        r@.to_set() == a@.to_set().union(b@.to_set()),
{
    let mut r: Vec<u64> = Vec::new();
    let mut i: usize = 0;
    let mut j: usize = 0;
    while i < a.len() || j < b.len()
        invariant
            ids_sorted(a@),
            ids_sorted(b@),
            i <= a@.len(),
            j <= b@.len(),
            ids_sorted(r@),
            r@.to_set() =~= a@.take(i as int).to_set().union(b@.take(j as int).to_set()),
            r@.len() > 0 && i < a@.len() ==> r@.last() < a@[i as int],
            r@.len() > 0 && j < b@.len() ==> r@.last() < b@[j as int],
        decreases a@.len() - i + b@.len() - j,
    {
        let take_a = if i < a.len() && j < b.len() {
            a[i] <= b[j]
        } else {
            i < a.len()
        };
        let take_b = if i < a.len() && j < b.len() {
            b[j] <= a[i]
        } else {
            j < b.len()
        };
        let x = if take_a {
            a[i]
        } else {
            b[j]
        };
        proof {
            lemma_to_set_push(r@, x);
            if take_a {
                lemma_take_push(a@, i as int);
                lemma_to_set_push(a@.take(i as int), a@[i as int]);
            }
            if take_b {
                lemma_take_push(b@, j as int);
                lemma_to_set_push(b@.take(j as int), b@[j as int]);
            }
        }
        r.push(x);
        if take_a {
            i = i + 1;
        }
        if take_b {
            j = j + 1;
        }
        proof {
            assert(r@.to_set() =~= a@.take(i as int).to_set().union(b@.take(j as int).to_set()));
        }
    }
    proof {
        assert(a@.take(a@.len() as int) =~= a@);
        assert(b@.take(b@.len() as int) =~= b@);
    }
    r
}

/// Intersects two sorted posting lists: the result holds exactly the row
/// ids present in both, in ascending order.
pub fn intersect_ids(a: &Vec<u64>, b: &Vec<u64>) -> (r: Vec<u64>)
    requires
        ids_sorted(a@),
        ids_sorted(b@),
    ensures
        ids_sorted(r@),
        r@.to_set() == a@.to_set().intersect(b@.to_set()),
{
    let mut r: Vec<u64> = Vec::new();
    let mut i: usize = 0;
    let mut j: usize = 0;
    proof {
        assert(a@.skip(0) =~= a@);
        assert(b@.skip(0) =~= b@);
        assert(r@.to_set() =~= Set::<u64>::empty()) by {
            assert(forall|y: u64| !r@.contains(y));
        }
        assert(a@.to_set().intersect(b@.to_set()) =~= r@.to_set().union(
            a@.skip(0).to_set().intersect(b@.skip(0).to_set()),
        ));
    }
    while i < a.len() && j < b.len()
        invariant
            ids_sorted(a@),
            ids_sorted(b@),
            i <= a@.len(),
            j <= b@.len(),
            ids_sorted(r@),
            a@.to_set().intersect(b@.to_set()) =~= r@.to_set().union(
                a@.skip(i as int).to_set().intersect(b@.skip(j as int).to_set()),
            ),
            r@.len() > 0 && i < a@.len() ==> r@.last() < a@[i as int],
            r@.len() > 0 && j < b@.len() ==> r@.last() < b@[j as int],
        decreases a@.len() - i + b@.len() - j,
    {
        if a[i] < b[j] {
            proof {
                assert forall|y: u64|
                    a@.skip(i + 1).to_set().intersect(b@.skip(j as int).to_set()).contains(y)
                        implies a@.skip(i as int).to_set().intersect(
                        b@.skip(j as int).to_set(),
                    ).contains(y) by {
                    let k = choose|k: int| 0 <= k < a@.skip(i + 1).len() && #[trigger] a@.skip(i + 1)[k] == y;
                    assert(a@.skip(i as int)[k + 1] == y);
                }
                assert forall|y: u64|
                    a@.skip(i as int).to_set().intersect(b@.skip(j as int).to_set()).contains(y)
                        implies a@.skip(i + 1).to_set().intersect(
                        b@.skip(j as int).to_set(),
                    ).contains(y) by {
                    let k = choose|k: int|
                        0 <= k < a@.skip(i as int).len() && #[trigger] a@.skip(i as int)[k] == y;
                    let m = choose|m: int|
                        0 <= m < b@.skip(j as int).len() && #[trigger] b@.skip(j as int)[m] == y;
                    assert(b@.skip(j as int)[m] == b@[j + m]);
                    assert(b@[j + m] >= b@[j as int]);
                    assert(a@.skip(i as int)[k] == a@[i + k]);
                    if k == 0 {
                        assert(y == a@[i as int]);
                        assert(y < b@[j as int]);
                    } else {
                        assert(a@.skip(i + 1)[k - 1] == y);
                    }
                }
                assert(a@.skip(i + 1).to_set().intersect(b@.skip(j as int).to_set()) =~= a@.skip(
                    i as int,
                ).to_set().intersect(b@.skip(j as int).to_set()));
            }
            i = i + 1;
        } else if b[j] < a[i] {
            proof {
                assert forall|y: u64|
                    a@.skip(i as int).to_set().intersect(b@.skip(j + 1).to_set()).contains(y)
                        implies a@.skip(i as int).to_set().intersect(
                        b@.skip(j as int).to_set(),
                    ).contains(y) by {
                    let k = choose|k: int| 0 <= k < b@.skip(j + 1).len() && #[trigger] b@.skip(j + 1)[k] == y;
                    assert(b@.skip(j as int)[k + 1] == y);
                }
                assert forall|y: u64|
                    a@.skip(i as int).to_set().intersect(b@.skip(j as int).to_set()).contains(y)
                        implies a@.skip(i as int).to_set().intersect(
                        b@.skip(j + 1).to_set(),
                    ).contains(y) by {
                    let k = choose|k: int|
                        0 <= k < b@.skip(j as int).len() && #[trigger] b@.skip(j as int)[k] == y;
                    let m = choose|m: int|
                        0 <= m < a@.skip(i as int).len() && #[trigger] a@.skip(i as int)[m] == y;
                    assert(a@.skip(i as int)[m] == a@[i + m]);
                    assert(a@[i + m] >= a@[i as int]);
                    assert(b@.skip(j as int)[k] == b@[j + k]);
                    if k == 0 {
                        assert(y == b@[j as int]);
                        assert(y < a@[i as int]);
                    } else {
                        assert(b@.skip(j + 1)[k - 1] == y);
                    }
                }
                assert(a@.skip(i as int).to_set().intersect(b@.skip(j + 1).to_set()) =~= a@.skip(
                    i as int,
                ).to_set().intersect(b@.skip(j as int).to_set()));
            }
            j = j + 1;
        } else {
            let x = a[i];
            proof {
                assert(a@.skip(i as int)[0] == x);
                assert(b@.skip(j as int)[0] == x);
                lemma_to_set_push(r@, x);
                assert forall|y: u64|
                    a@.skip(i as int).to_set().intersect(b@.skip(j as int).to_set()).contains(y)
                        implies y == x || a@.skip(i + 1).to_set().intersect(
                        b@.skip(j + 1).to_set(),
                    ).contains(y) by {
                    let k = choose|k: int|
                        0 <= k < a@.skip(i as int).len() && #[trigger] a@.skip(i as int)[k] == y;
                    let m = choose|m: int|
                        0 <= m < b@.skip(j as int).len() && #[trigger] b@.skip(j as int)[m] == y;
                    if k > 0 && m > 0 {
                        assert(a@.skip(i + 1)[k - 1] == y);
                        assert(b@.skip(j + 1)[m - 1] == y);
                    } else {
                        assert(y == x);
                    }
                }
                assert forall|y: u64|
                    a@.skip(i + 1).to_set().intersect(b@.skip(j + 1).to_set()).contains(y)
                        implies a@.skip(i as int).to_set().intersect(
                        b@.skip(j as int).to_set(),
                    ).contains(y) by {
                    let k = choose|k: int| 0 <= k < a@.skip(i + 1).len() && #[trigger] a@.skip(i + 1)[k] == y;
                    let m = choose|m: int| 0 <= m < b@.skip(j + 1).len() && #[trigger] b@.skip(j + 1)[m] == y;
                    assert(a@.skip(i as int)[k + 1] == y);
                    assert(b@.skip(j as int)[m + 1] == y);
                }
                assert forall|y: u64| #[trigger] a@.skip(i + 1).to_set().contains(y) implies y > x by {
                    let k = choose|k: int| 0 <= k < a@.skip(i + 1).len() && #[trigger] a@.skip(i + 1)[k] == y;
                    assert(a@.skip(i + 1)[k] == a@[i + 1 + k]);
                    assert(a@[i as int] < a@[i + 1 + k]);
                }
            }
            r.push(x);
            i = i + 1;
            j = j + 1;
            proof {
                assert(a@.to_set().intersect(b@.to_set()) =~= r@.to_set().union(
                    a@.skip(i as int).to_set().intersect(b@.skip(j as int).to_set()),
                ));
            }
        }
    }
    proof {
        if i == a@.len() {
            assert(a@.skip(i as int).len() == 0);
            assert(a@.skip(i as int).to_set() =~= Set::<u64>::empty()) by {
                assert forall|y: u64| !a@.skip(i as int).contains(y) by {}
            }
        } else {
            assert(b@.skip(j as int).len() == 0);
            assert(b@.skip(j as int).to_set() =~= Set::<u64>::empty()) by {
                assert forall|y: u64| !b@.skip(j as int).contains(y) by {}
            }
        }
        assert(a@.to_set().intersect(b@.to_set()) =~= r@.to_set());
    }
    r
}

/// Copies a posting list.
pub fn clone_ids(v: &Vec<u64>) -> (r: Vec<u64>)
    ensures
        r@ == v@,
{
    let mut r: Vec<u64> = Vec::new();
    let mut i: usize = 0;
    while i < v.len()
        invariant
            i <= v@.len(),
            r@ =~= v@.take(i as int),
        decreases v@.len() - i,
    {
        r.push(v[i]);
        proof {
            lemma_take_push(v@, i as int);
        }
        i = i + 1;
    }
    proof {
        assert(v@.take(v@.len() as int) =~= v@);
    }
    r
}

/// Inserts one row id into a sorted posting list, keeping it sorted and
/// duplicate-free: observing the same row again leaves the list unchanged.
pub fn insert_id(ids: &Vec<u64>, id: u64) -> (r: Vec<u64>)
    requires
        ids_sorted(ids@),
    ensures
        ids_sorted(r@),
        r@.to_set() == ids@.to_set().insert(id),
{
    let mut single: Vec<u64> = Vec::new();
    single.push(id);
    proof {
        assert(ids_sorted(single@));
        assert(single@.to_set() =~= Set::<u64>::empty().insert(id)) by {
            assert(single@[0] == id);
            assert forall|y: u64| single@.contains(y) implies y == id by {
                let k = choose|k: int| 0 <= k < single@.len() && single@[k] == y;
            }
        }
    }
    let r = union_ids(ids, &single);
    proof {
        assert(ids@.to_set().union(single@.to_set()) =~= ids@.to_set().insert(id));
    }
    r
}

} // verus!
