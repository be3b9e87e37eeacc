//! Tokenization of a text value into its ordered sequence of n-grams.
//!
//! For a text of at least `n` scalar values the tokenizer produces one
//! n-gram per start offset, left to right.  A shorter, non-empty text
//! produces exactly one token equal to the whole text, so that very short
//! strings remain findable.  Empty texts produce no tokens at all.

use vstd::prelude::*;

verus! {

/// The ordered sequence of n-grams drawn from `text`, for n-gram length `n`.
pub open spec fn ngrams_of(text: Seq<char>, n: nat) -> Seq<Seq<char>> {
    if text.len() == 0 {
        Seq::empty()
    } else if text.len() < n {
        seq![text]
    } else {
        Seq::new((text.len() - n + 1) as nat, |i: int| text.subrange(i, i + n))
    }
}

/// Whether `s` occurs in `t` at start offset `i`.
pub open spec fn match_at(t: Seq<char>, s: Seq<char>, i: int) -> bool {
    0 <= i <= t.len() - s.len() && t.subrange(i, i + s.len() as int) == s
}

/// Whether `s` occurs in `t` as a contiguous substring.
pub open spec fn contains_sub(t: Seq<char>, s: Seq<char>) -> bool {
    exists|i: int| #[trigger] match_at(t, s, i)
}

/// Copies `text[start..end]` into a fresh key.
pub fn clone_range(text: &Vec<char>, start: usize, end: usize) -> (r: Vec<char>)
    requires
        start <= end <= text@.len(),
    ensures
        r@ == text@.subrange(start as int, end as int),
{
    let mut r: Vec<char> = Vec::new();
    let mut i: usize = start;
    while i < end
        invariant
            start <= i <= end <= text@.len(),
            r@ =~= text@.subrange(start as int, i as int),
        decreases end - i,
    {
        r.push(text[i]);
        proof {
            assert(text@.subrange(start as int, i + 1) =~= text@.subrange(
                start as int,
                i as int,
            ).push(text@[i as int]));
        }
        i = i + 1;
    }
    proof {
        assert(r@ =~= text@.subrange(start as int, end as int));
    }
    r
}

/// Tokenizes `text` into its n-grams: one window per start offset when the
/// text is long enough, the whole text as a single token when it is shorter
/// than `n` but non-empty, and nothing when it is empty.
pub fn tokenize(text: &Vec<char>, n: usize) -> (r: Vec<Vec<char>>)
    requires
        n >= 1,
    ensures
        r@.len() == ngrams_of(text@, n as nat).len(),
        forall|j: int| 0 <= j < r@.len() ==> r@[j]@ == ngrams_of(text@, n as nat)[j],
{
    let mut r: Vec<Vec<char>> = Vec::new();
    if text.len() == 0 {
        return r;
    }
    if text.len() < n {
        let whole = clone_range(text, 0, text.len());
        proof {
            assert(whole@ =~= text@);
        }
        r.push(whole);
        return r;
    }
    let count = text.len() - n + 1;
    let mut i: usize = 0;
    while i < count
        invariant
            n >= 1,
            count == text@.len() - n + 1,
            n <= text@.len(),
            text@.len() <= usize::MAX,
            i <= count,
            r@.len() == i,
            forall|j: int| 0 <= j < i ==> r@[j]@ == text@.subrange(j, j + n),
        decreases count - i,
    {
        proof {
            assert(i + n <= text@.len());
        }
        let window = clone_range(text, i, i + n);
        r.push(window);
        i = i + 1;
    }
    r
}

/// Decides whether the key `needle` occurs in `hay` as a substring.
pub fn contains_chars(hay: &Vec<char>, needle: &Vec<char>) -> (r: bool)
    requires
        needle@.len() >= 1,
    ensures
        r == contains_sub(hay@, needle@),
{
    if needle.len() > hay.len() {
        proof {
            if contains_sub(hay@, needle@) {
                let p = choose|p: int| #[trigger] match_at(hay@, needle@, p);
            }
        }
        return false;
    }
    let last_start = hay.len() - needle.len();
    let mut i: usize = 0;
    while i <= last_start
        invariant
            1 <= needle@.len() <= hay@.len(),
            hay@.len() <= usize::MAX,
            last_start == hay@.len() - needle@.len(),
            i <= last_start + 1,
            forall|p: int| 0 <= p < i ==> !#[trigger] match_at(hay@, needle@, p),
        decreases last_start + 1 - i,
    {
        let mut j: usize = 0;
        let mut matches = true;
        while j < needle.len()
            invariant
                i + needle@.len() <= hay@.len(),
                hay@.len() <= usize::MAX,
                j <= needle@.len(),
                matches ==> hay@.subrange(i as int, i + j) =~= needle@.take(j as int),
                !matches ==> !match_at(hay@, needle@, i as int),
            decreases needle@.len() - j,
        {
            if hay[i + j] != needle[j] {
                proof {
                    if match_at(hay@, needle@, i as int) {
                        let w = hay@.subrange(i as int, i + needle@.len() as int);
                        assert(w[j as int] == needle@[j as int]);
                        assert(w[j as int] == hay@[i + j]);
                    }
                }
                matches = false;
                j = needle.len();
            } else {
                proof {
                    if matches {
                        assert(hay@.subrange(i as int, i + j + 1) =~= hay@.subrange(
                            i as int,
                            i + j,
                        ).push(hay@[i + j]));
                        assert(needle@.take(j + 1) =~= needle@.take(j as int).push(
                            needle@[j as int],
                        ));
                    }
                }
                j = j + 1;
            }
        }
        if matches {
            proof {
                assert(needle@.take(needle@.len() as int) =~= needle@);
                assert(hay@.subrange(i as int, i + needle@.len() as int) == needle@);
                assert(match_at(hay@, needle@, i as int));
            }
            return true;
        }
        i = i + 1;
    }
    proof {
        if contains_sub(hay@, needle@) {
            let p = choose|p: int| #[trigger] match_at(hay@, needle@, p);
        }
    }
    false
}

/// Every token of a needle that truly occurs in a text is itself contained
/// in some n-gram of that text: the key fact behind the index's
/// no-false-negative guarantee, covering both full-length windows and the
/// whole-string special case for short texts and short needles.
pub proof fn lemma_needle_tokens_covered(text: Seq<char>, s: Seq<char>, n: nat, t: Seq<char>)
    requires
        n >= 1,
        s.len() > 0,
        contains_sub(text, s),
        ngrams_of(s, n).contains(t),
    ensures
        exists|k: Seq<char>| #[trigger] ngrams_of(text, n).contains(k) && contains_sub(k, t),
{
    let occ = choose|i: int| #[trigger] match_at(text, s, i);
    assert(text.subrange(occ, occ + s.len() as int) == s);
    assert(text.len() >= s.len());
    if s.len() >= n {
        let j = choose|j: int| 0 <= j < ngrams_of(s, n).len() && ngrams_of(s, n)[j] == t;
        assert(t == s.subrange(j, j + n));
        let k = text.subrange(occ + j, occ + j + n);
        assert(k =~= t) by {
            assert forall|x: int| 0 <= x < n implies k[x] == t[x] by {
                assert(k[x] == text[occ + j + x]);
                assert(t[x] == s[j + x]);
                assert(s[j + x] == text.subrange(occ, occ + s.len() as int)[j + x]);
            }
        }
        assert(ngrams_of(text, n)[occ + j] == k);
        assert(ngrams_of(text, n).contains(k));
        assert(contains_sub(k, t)) by {
            assert(k.subrange(0, t.len() as int) =~= t);
            assert(match_at(k, t, 0));
        }
    } else {
        assert(ngrams_of(s, n) =~= seq![s]);
        assert(t == s);
        if text.len() < n {
            let k = text;
            assert(ngrams_of(text, n) =~= seq![text]);
            assert(ngrams_of(text, n)[0] == k);
            assert(ngrams_of(text, n).contains(k));
        } else {
            let w = if occ <= text.len() - n {
                occ
            } else {
                text.len() - n
            };
            assert(0 <= w <= text.len() - n);
            assert(w <= occ);
            assert(occ + s.len() <= w + n);
            let k = text.subrange(w, w + n);
            assert(ngrams_of(text, n)[w] == k);
            assert(ngrams_of(text, n).contains(k));
            assert(contains_sub(k, t)) by {
                let d = occ - w;
                assert(k.subrange(d, d + s.len() as int) =~= s) by {
                    assert(0 <= d <= k.len() - s.len());
                    assert forall|x: int| 0 <= x < s.len() implies k.subrange(
                        d,
                        d + s.len() as int,
                    )[x] == s[x] by {
                        assert(k.subrange(d, d + s.len() as int)[x] == k[d + x]);
                        assert(k[d + x] == text[w + d + x]);
                        assert(s[x] == text.subrange(occ, occ + s.len() as int)[x]);
                    }
                }
                assert(match_at(k, t, d));
            }
        }
    }
}

} // verus!
