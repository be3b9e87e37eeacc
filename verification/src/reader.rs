//! Loading a written index and reading its posting blocks.
//!
//! Loading parses the header and the dictionary eagerly, validating the
//! format version, every block locator and the ascending key order, and
//! rejecting anything else as corruption; a loaded reader accepts a blob
//! exactly when it is the encoding of some sorted run, and then presents
//! exactly that run.  Posting blocks stay unparsed until first use:
//! reads decode them on demand, validate ascending row ids, and keep a
//! bounded number of decoded blocks cached.

use vstd::prelude::*;
use vstd::bytes::{spec_u64_to_le_bytes, spec_u32_to_le_bytes, lemma_auto_spec_u64_to_from_le_bytes,
    lemma_auto_spec_u32_to_from_le_bytes};
use crate::codec::{FORMAT_VERSION, chars_bytes, ids_bytes, entry_bytes, entries_bytes,
    header_bytes, index_bytes, entries_tail_bytes, chars_tail_bytes, block_ids,
    lemma_chars_bytes_len, lemma_ids_bytes_len, lemma_entry_bytes_len, lemma_entries_bytes_len,
    lemma_entries_split, lemma_chars_split, lemma_block_ids_roundtrip, lemma_block_ids_decode,
    lemma_header_fields, read_u64_at, read_u32_at};
use crate::errors::IndexError;
use crate::lex::{lex_lt, key_lt};
use crate::merge::lemma_push_sorted;
use crate::posting::{ids_sorted, clone_ids};
use crate::run::{SpecRun, run_keys_sorted};

verus! {

/// One dictionary slot: a key and the locator of its posting block.
pub struct DictEntry {
    pub key: Vec<char>,
    pub off: usize,
    pub cnt: usize,
}

/// How many decoded posting blocks a reader keeps in memory at once.
pub const BLOCK_CACHE_CAP: usize = 16;

/// The run a parsed dictionary presents over a blob: each key with the
/// row ids its posting block decodes to.
pub open spec fn dict_run(dict: Seq<DictEntry>, blob: Seq<u8>) -> SpecRun {
    dict.map_values(|d: DictEntry| (d.key@, block_ids(blob, d.off as int, d.cnt as nat)))
}

/// A blob is genuine when it is the encoding, under the given n-gram
/// length, of some run with an ascending dictionary.
pub open spec fn genuine_blob(blob: Seq<u8>, nn: u64, rn: SpecRun) -> bool {
    nn >= 1 && run_keys_sorted(rn) && blob == index_bytes(nn, rn)
}

/// A loaded index: the dictionary held eagerly, posting blocks decoded
/// lazily from the retained blob, with a bounded block cache.
pub struct IndexReader {
    n: u64,
    blob: Vec<u8>,
    dict: Vec<DictEntry>,
    cache: Vec<(usize, Vec<u64>)>,
}

impl IndexReader {
    /// The logical run this reader presents.
    pub closed spec fn run_spec(&self) -> SpecRun {
        dict_run(self.dict@, self.blob@)
    }

    /// The n-gram length recorded in the loaded header.
    pub closed spec fn n_spec(&self) -> u64 {
        self.n
    }

    /// Well-formedness: locators in bounds, dictionary ascending, the
    /// blob exactly the encoding of the presented run, and every cached
    /// block equal to what its posting block decodes to.
    pub closed spec fn wf(&self) -> bool {
        &&& self.n >= 1
        &&& forall|i: int|
            0 <= i < self.dict@.len() ==> (#[trigger] self.dict@[i]).off + 8 * self.dict@[i].cnt
                <= self.blob@.len()
        &&& run_keys_sorted(self.run_spec())
        &&& self.blob@ == index_bytes(self.n, self.run_spec())
        &&& self.cache@.len() <= BLOCK_CACHE_CAP
        &&& forall|c: int|
            0 <= c < self.cache@.len() ==> (#[trigger] self.cache@[c]).0 < self.dict@.len()
                && self.cache@[c].1@ == self.run_spec()[self.cache@[c].0 as int].1 && ids_sorted(
                self.cache@[c].1@,
            )
    }

    /// How many n-grams the dictionary holds.
    pub fn entry_count(&self) -> (r: usize)
        ensures
            r == self.run_spec().len(),
    {
        self.dict.len()
    }

    /// The n-gram length this index was built with; a loaded index
    /// always has a positive one.
    pub fn ngram_len(&self) -> (r: u64)
        ensures
            r == self.n_spec(),
            self.wf() ==> r >= 1,
    {
        self.n
    }

    /// The key of dictionary entry `i`.
    pub fn key_at(&self, i: usize) -> (r: &Vec<char>)
        requires
            i < self.run_spec().len(),
        ensures
            r@ == self.run_spec()[i as int].0,
    {
        &self.dict[i].key
    }

    /// The size of the posting block of entry `i`, known from its
    /// locator without reading the block.
    pub fn posting_count(&self, i: usize) -> (r: usize)
        requires
            i < self.run_spec().len(),
        ensures
            r == self.run_spec()[i as int].1.len(),
    {
        self.dict[i].cnt
    }

    /// Reads the posting block of entry `i`: from the cache when
    /// present, decoded from the blob otherwise, validating ascending
    /// row-id order and caching the block (evicting the oldest cached
    /// block when the cache is full).  Fails exactly when the stored
    /// block is not ascending: block corruption surfaces at read time.
    #[verifier::loop_isolation(false)]
    pub fn read_postings(&mut self, i: usize) -> (r: Result<Vec<u64>, IndexError>)
        requires
            old(self).wf(),
            i < old(self).run_spec().len(),
        ensures
            final(self).wf(),
            final(self).run_spec() == old(self).run_spec(),
            final(self).n_spec() == old(self).n_spec(),
            r is Ok ==> r->Ok_0@ == old(self).run_spec()[i as int].1 && ids_sorted(r->Ok_0@),
            (r is Ok) == ids_sorted(old(self).run_spec()[i as int].1),
            r is Err ==> r->Err_0 == IndexError::CorruptIndex,
    {
        let mut c: usize = 0;
        while c < self.cache.len()
            invariant
                c <= self.cache@.len(),
            decreases self.cache@.len() - c,
        {
            if self.cache[c].0 == i {
                let hit = clone_ids(&self.cache[c].1);
                return Ok(hit);
            }
            c = c + 1;
        }
        let d_off = self.dict[i].off;
        let d_cnt = self.dict[i].cnt;
        let ghost want = old(self).run_spec()[i as int].1;
        proof {
            assert(self.run_spec()[i as int].1 == block_ids(
                self.blob@,
                d_off as int,
                d_cnt as nat,
            ));
            assert(d_off + 8 * d_cnt <= self.blob@.len());
        }
        let blob_len = self.blob.len();
        let mut ids: Vec<u64> = Vec::new();
        let mut t: usize = 0;
        while t < d_cnt
            invariant
                self == old(self),
                d_off == self.dict@[i as int].off,
                d_cnt == self.dict@[i as int].cnt,
                i < self.dict@.len(),
                blob_len == self.blob@.len(),
                d_off + 8 * d_cnt <= blob_len,
                want == block_ids(self.blob@, d_off as int, d_cnt as nat),
                t <= d_cnt,
                ids@ =~= want.take(t as int),
                ids_sorted(ids@),
            decreases d_cnt - t,
        {
            let v = read_u64_at(&self.blob, d_off + 8 * t);
            proof {
                assert(want[t as int] == v);
            }
            if t > 0 {
                let prev = ids[t - 1];
                if v <= prev {
                    proof {
                        assert(want.take(t as int)[t - 1] == want[t - 1]);
                        assert(!ids_sorted(want)) by {
                            if ids_sorted(want) {
                                assert(want[t - 1] < want[t as int]);
                            }
                        }
                    }
                    return Err(IndexError::CorruptIndex);
                }
            }
            proof {
                crate::posting::lemma_take_push(want, t as int);
            }
            ids.push(v);
            t = t + 1;
        }
        proof {
            assert(want.take(d_cnt as int) =~= want);
            assert(ids@ == want);
        }
        if self.cache.len() >= BLOCK_CACHE_CAP {
            let ghost cache0 = self.cache@;
            self.cache.remove(0);
            proof {
                assert forall|c2: int|
                    0 <= c2 < self.cache@.len() implies (#[trigger] self.cache@[c2]).0
                    < self.dict@.len() && self.cache@[c2].1@ == self.run_spec()[
                    self.cache@[c2].0 as int
                ].1 && ids_sorted(self.cache@[c2].1@) by {
                    assert(self.cache@[c2] == cache0[c2 + 1]);
                }
            }
        }
        let kept = clone_ids(&ids);
        let ghost cache1 = self.cache@;
        self.cache.push((i, kept));
        proof {
            assert forall|c2: int|
                0 <= c2 < self.cache@.len() implies (#[trigger] self.cache@[c2]).0
                < self.dict@.len() && self.cache@[c2].1@ == self.run_spec()[
                self.cache@[c2].0 as int
            ].1 && ids_sorted(self.cache@[c2].1@) by {
                if c2 < cache1.len() {
                    assert(self.cache@[c2] == cache1[c2]);
                }
            }
        }
        Ok(ids)
    }
}

/// Parses `klen` scalar values at byte position `kstart`.  Succeeds on
/// exactly the encodings of keys, and then returns the encoded key.
#[verifier::loop_isolation(false)]
fn parse_key(blob: &Vec<u8>, kstart: usize, klen: usize) -> (r: Result<Vec<char>, IndexError>)
    requires
        kstart + 4 * klen <= blob@.len(),
    ensures
        r is Ok ==> r->Ok_0@.len() == klen && chars_bytes(r->Ok_0@) == blob@.subrange(
            kstart as int,
            kstart as int + 4 * klen,
        ),
        r is Err ==> r->Err_0 == IndexError::CorruptIndex,
        forall|s: Seq<char>|
            s.len() == klen && blob@.subrange(kstart as int, kstart as int + 4 * klen)
                == #[trigger] chars_bytes(s) ==> r is Ok && r->Ok_0@ == s,
{
    proof {
        lemma_auto_spec_u32_to_from_le_bytes();
    }
    let blob_len = blob.len();
    let mut key: Vec<char> = Vec::new();
    let mut t: usize = 0;
    while t < klen
        invariant
            blob_len == blob@.len(),
            kstart + 4 * klen <= blob_len,
            t <= klen,
            key@.len() == t,
            chars_bytes(key@) == blob@.subrange(kstart as int, kstart as int + 4 * t),
            forall|s: Seq<char>|
                s.len() == klen && blob@.subrange(kstart as int, kstart as int + 4 * klen)
                    == #[trigger] chars_bytes(s) ==> key@ == s.take(t as int),
        decreases klen - t,
    {
        let w = read_u32_at(blob, kstart + 4 * t);
        let copt = char::from_u32(w);
        proof {
            lemma_auto_spec_u32_to_from_le_bytes();
            assert forall|s: Seq<char>|
                s.len() == klen && blob@.subrange(kstart as int, kstart as int + 4 * klen)
                    == #[trigger] chars_bytes(s) implies w == s[t as int] as u32 by {
                lemma_chars_split(s, t as int);
                lemma_chars_bytes_len(s.take(t as int));
                let full = blob@.subrange(kstart as int, kstart as int + 4 * klen);
                assert(blob@.subrange(kstart as int + 4 * t, kstart as int + 4 * t + 4)
                    =~= spec_u32_to_le_bytes(s[t as int] as u32)) by {
                    assert forall|x: int|
                        #![trigger spec_u32_to_le_bytes(s[t as int] as u32)[x]]
                        0 <= x < 4 implies blob@.subrange(
                        kstart as int + 4 * t,
                        kstart as int + 4 * t + 4,
                    )[x] == spec_u32_to_le_bytes(s[t as int] as u32)[x] by {
                        assert(blob@.subrange(
                            kstart as int + 4 * t,
                            kstart as int + 4 * t + 4,
                        )[x] == full[4 * t + x]);
                        assert(full == chars_bytes(s.take(t as int)) + (spec_u32_to_le_bytes(
                            s[t as int] as u32,
                        ) + chars_tail_bytes(s, t as int + 1)));
                        assert(full[4 * t + x] == (spec_u32_to_le_bytes(s[t as int] as u32)
                            + chars_tail_bytes(s, t as int + 1))[x]);
                    }
                }
            }
        }
        match copt {
            Option::None => {
                proof {
                    assert forall|s: Seq<char>|
                        !(s.len() == klen && blob@.subrange(
                            kstart as int,
                            kstart as int + 4 * klen,
                        ) == #[trigger] chars_bytes(s)) by {
                        if s.len() == klen && blob@.subrange(
                            kstart as int,
                            kstart as int + 4 * klen,
                        ) == chars_bytes(s) {
                            assert(w == s[t as int] as u32);
                            vstd::utf8::char_is_scalar(s[t as int]);
                        }
                    }
                }
                return Err(IndexError::CorruptIndex);
            },
            Option::Some(ch) => {
                proof {
                    assert(ch as u32 == w);
                    assert(key@.push(ch).drop_last() =~= key@);
                    assert(key@.push(ch).last() == ch);
                    assert(chars_bytes(key@.push(ch)) == chars_bytes(key@) + spec_u32_to_le_bytes(
                        w,
                    ));
                    assert(blob@.subrange(kstart as int, kstart as int + 4 * t)
                        + blob@.subrange(kstart as int + 4 * t, kstart as int + 4 * t + 4)
                        =~= blob@.subrange(kstart as int, kstart as int + 4 * (t + 1)));
                    assert(blob@.subrange(kstart as int + 4 * t, kstart as int + 4 * t + 4)
                        =~= spec_u32_to_le_bytes(w)) by {
                        let sub = blob@.subrange(kstart as int + 4 * t, kstart as int + 4 * t + 4);
                        assert(sub.len() == 4);
                        assert(spec_u32_to_le_bytes(vstd::bytes::spec_u32_from_le_bytes(sub))
                            == sub);
                    }
                    assert forall|s: Seq<char>|
                        s.len() == klen && blob@.subrange(kstart as int, kstart as int + 4 * klen)
                            == #[trigger] chars_bytes(s) implies key@.push(ch) == s.take(t + 1) by {
                        assert(w == s[t as int] as u32);
                        vstd::utf8::char_u32_cast(ch, w);
                        vstd::utf8::char_u32_cast(s[t as int], w);
                        assert(ch == s[t as int]);
                        assert(key@ == s.take(t as int));
                        assert(s.take(t + 1) =~= s.take(t as int).push(s[t as int]));
                    }
                }
                key.push(ch);
                t = t + 1;
            },
        }
    }
    proof {
        assert forall|s: Seq<char>|
            s.len() == klen && blob@.subrange(kstart as int, kstart as int + 4 * klen)
                == #[trigger] chars_bytes(s) implies key@ == s by {
            assert(key@ == s.take(klen as int));
            assert(s.take(klen as int) =~= s);
        }
    }
    Ok(key)
}

/// Under a genuine blob whose first `ei` entries are already parsed, the
/// bytes at the parse position decompose into the fields of entry `ei`.
proof fn lemma_genuine_at(blob: Seq<u8>, nn: u64, rn: SpecRun, pos: int, ei: int)
    requires
        blob == index_bytes(nn, rn),
        0 <= ei < rn.len(),
        pos == 24 + entries_bytes(rn.take(ei)).len(),
    ensures
        pos + entry_bytes(rn[ei]).len() <= blob.len(),
        blob.subrange(pos, pos + 8) == spec_u64_to_le_bytes(rn[ei].0.len() as u64),
        blob.subrange(pos + 8, pos + 8 + 4 * rn[ei].0.len()) == chars_bytes(rn[ei].0),
        blob.subrange(pos + 8 + 4 * rn[ei].0.len(), pos + 16 + 4 * rn[ei].0.len())
            == spec_u64_to_le_bytes(rn[ei].1.len() as u64),
        blob.subrange(
            pos + 16 + 4 * rn[ei].0.len(),
            pos + 16 + 4 * rn[ei].0.len() + 8 * rn[ei].1.len(),
        ) == ids_bytes(rn[ei].1),
        entry_bytes(rn[ei]).len() == 16 + 4 * rn[ei].0.len() + 8 * rn[ei].1.len(),
{
    lemma_auto_spec_u64_to_from_le_bytes();
    lemma_auto_spec_u32_to_from_le_bytes();
    lemma_header_fields(blob, nn, rn);
    lemma_entries_split(rn, ei);
    let e = rn[ei];
    let eb = entry_bytes(e);
    lemma_entry_bytes_len(e);
    lemma_chars_bytes_len(e.0);
    lemma_ids_bytes_len(e.1);
    let consumed = entries_bytes(rn.take(ei));
    assert(entries_tail_bytes(rn, ei) == eb + entries_tail_bytes(rn, ei + 1));
    assert(entries_bytes(rn).len() == consumed.len() + eb.len() + entries_tail_bytes(
        rn,
        ei + 1,
    ).len());
    assert(blob.len() == 24 + entries_bytes(rn).len());
    assert(pos + eb.len() <= blob.len());
    assert(blob.subrange(pos, pos + eb.len()) =~= eb) by {
        assert forall|x: int| #![trigger eb[x]] 0 <= x < eb.len() implies blob.subrange(
            pos,
            pos + eb.len(),
        )[x] == eb[x] by {
            assert(blob.subrange(pos, pos + eb.len())[x] == blob[pos + x]);
            assert(blob[pos + x] == blob.skip(24)[pos - 24 + x]);
            assert(entries_bytes(rn)[consumed.len() + x] == entries_tail_bytes(rn, ei)[x]);
            assert(entries_tail_bytes(rn, ei)[x] == eb[x]);
        }
    }
    let sub = blob.subrange(pos, pos + eb.len());
    assert(eb == spec_u64_to_le_bytes(e.0.len() as u64) + chars_bytes(e.0) + spec_u64_to_le_bytes(
        e.1.len() as u64,
    ) + ids_bytes(e.1));
    assert(blob.subrange(pos, pos + 8) =~= spec_u64_to_le_bytes(e.0.len() as u64)) by {
        assert forall|x: int| #![trigger spec_u64_to_le_bytes(e.0.len() as u64)[x]]
            0 <= x < 8 implies blob.subrange(pos, pos + 8)[x]
            == spec_u64_to_le_bytes(e.0.len() as u64)[x] by {
            assert(blob.subrange(pos, pos + 8)[x] == sub[x]);
            assert(sub[x] == eb[x]);
        }
    }
    assert(blob.subrange(pos + 8, pos + 8 + 4 * e.0.len()) =~= chars_bytes(e.0)) by {
        assert forall|x: int| #![trigger chars_bytes(e.0)[x]] 0 <= x < 4 * e.0.len()
            implies blob.subrange(
            pos + 8,
            pos + 8 + 4 * e.0.len(),
        )[x] == chars_bytes(e.0)[x] by {
            assert(blob.subrange(pos + 8, pos + 8 + 4 * e.0.len())[x] == sub[8 + x]);
            assert(sub[8 + x] == eb[8 + x]);
            assert(eb[8 + x] == chars_bytes(e.0)[x]);
        }
    }
    assert(blob.subrange(pos + 8 + 4 * e.0.len(), pos + 16 + 4 * e.0.len())
        =~= spec_u64_to_le_bytes(e.1.len() as u64)) by {
        assert forall|x: int| #![trigger spec_u64_to_le_bytes(e.1.len() as u64)[x]]
            0 <= x < 8 implies blob.subrange(
            pos + 8 + 4 * e.0.len(),
            pos + 16 + 4 * e.0.len(),
        )[x] == spec_u64_to_le_bytes(e.1.len() as u64)[x] by {
            assert(blob.subrange(pos + 8 + 4 * e.0.len(), pos + 16 + 4 * e.0.len())[x] == sub[8 + 4
                * e.0.len() + x]);
            assert(sub[8 + 4 * e.0.len() + x] == eb[8 + 4 * e.0.len() + x]);
            assert(eb[8 + 4 * e.0.len() + x] == spec_u64_to_le_bytes(e.1.len() as u64)[x]);
        }
    }
    assert(blob.subrange(pos + 16 + 4 * e.0.len(), pos + 16 + 4 * e.0.len() + 8 * e.1.len())
        =~= ids_bytes(e.1)) by {
        assert forall|x: int| #![trigger ids_bytes(e.1)[x]] 0 <= x < 8 * e.1.len()
            implies blob.subrange(
            pos + 16 + 4 * e.0.len(),
            pos + 16 + 4 * e.0.len() + 8 * e.1.len(),
        )[x] == ids_bytes(e.1)[x] by {
            assert(blob.subrange(
                pos + 16 + 4 * e.0.len(),
                pos + 16 + 4 * e.0.len() + 8 * e.1.len(),
            )[x] == sub[16 + 4 * e.0.len() + x]);
            assert(sub[16 + 4 * e.0.len() + x] == eb[16 + 4 * e.0.len() + x]);
            assert(eb[16 + 4 * e.0.len() + x] == ids_bytes(e.1)[x]);
        }
    }
}

/// Opens a written index blob: parses and validates the header and the
/// dictionary eagerly, rejecting a malformed header, an out-of-bounds
/// block locator, an invalid scalar value, a dictionary out of ascending
/// order or trailing bytes as corruption.  A blob is accepted exactly
/// when it encodes a sorted run, and the loaded reader then presents
/// exactly that run.
#[verifier::rlimit(100)]
#[verifier::loop_isolation(false)]
pub fn load(blob: Vec<u8>) -> (r: Result<IndexReader, IndexError>)
    ensures
        r is Ok ==> r->Ok_0.wf() && r->Ok_0.n_spec() >= 1 && run_keys_sorted(r->Ok_0.run_spec())
            && blob@ == index_bytes(r->Ok_0.n_spec(), r->Ok_0.run_spec()),
        r is Err ==> r->Err_0 == IndexError::CorruptIndex,
        forall|nn: u64, rn: SpecRun| #[trigger]
            genuine_blob(blob@, nn, rn) ==> r is Ok && r->Ok_0.n_spec() == nn
                && r->Ok_0.run_spec() == rn,
{
    proof {
        lemma_auto_spec_u64_to_from_le_bytes();
    }
    let total = blob.len();
    if total < 24 {
        proof {
            assert forall|nn: u64, rn: SpecRun| !(#[trigger] genuine_blob(blob@, nn, rn)) by {
                if genuine_blob(blob@, nn, rn) {
                    lemma_header_fields(blob@, nn, rn);
                }
            }
        }
        return Err(IndexError::CorruptIndex);
    }
    let ver = read_u64_at(&blob, 0);
    let n = read_u64_at(&blob, 8);
    let cnt64 = read_u64_at(&blob, 16);
    let limit = (total - 24) / 16;
    proof {
        assert forall|nn: u64, rn: SpecRun| #[trigger] genuine_blob(blob@, nn, rn) implies ver
            == FORMAT_VERSION && n == nn && cnt64 == rn.len() as u64 && rn.len() <= limit by {
            lemma_header_fields(blob@, nn, rn);
            lemma_entries_bytes_len(rn);
            assert(16 * rn.len() <= total - 24);
            assert(rn.len() <= (total - 24) / 16) by (nonlinear_arith)
                requires
                    16 * rn.len() <= total - 24,
            ;
        }
    }
    if ver != FORMAT_VERSION || n == 0 {
        return Err(IndexError::CorruptIndex);
    }
    if cnt64 > limit as u64 {
        return Err(IndexError::CorruptIndex);
    }
    let count = cnt64 as usize;
    let mut dict: Vec<DictEntry> = Vec::new();
    let mut pos: usize = 24;
    let mut ei: usize = 0;
    proof {
        assert(dict_run(dict@, blob@) =~= Seq::<(Seq<char>, Seq<u64>)>::empty());
        assert(blob@.take(24) =~= header_bytes(n, count as u64)) by {
            assert(blob@.subrange(0, 8).len() == 8);
            assert(blob@.subrange(8, 16).len() == 8);
            assert(blob@.subrange(16, 24).len() == 8);
            assert(spec_u64_to_le_bytes(ver) == blob@.subrange(0, 8));
            assert(spec_u64_to_le_bytes(n) == blob@.subrange(8, 16));
            assert(spec_u64_to_le_bytes(cnt64) == blob@.subrange(16, 24));
            assert(count as u64 == cnt64);
        }
        assert(blob@.take(24) == header_bytes(n, count as u64) + entries_bytes(
            dict_run(dict@, blob@),
        ));
    }
    while ei < count
        invariant
            total == blob@.len(),
            24 <= pos <= total,
            ei <= count,
            count as u64 == cnt64,
            n >= 1,
            dict@.len() == ei,
            forall|i2: int|
                0 <= i2 < ei ==> (#[trigger] dict@[i2]).off + 8 * dict@[i2].cnt <= total,
            run_keys_sorted(dict_run(dict@, blob@)),
            blob@.take(pos as int) == header_bytes(n, count as u64) + entries_bytes(
                dict_run(dict@, blob@),
            ),
            forall|nn: u64, rn: SpecRun| #[trigger]
                genuine_blob(blob@, nn, rn) ==> nn == n && rn.len() == count && dict_run(
                    dict@,
                    blob@,
                ) == rn.take(ei as int),
        decreases count - ei,
    {
        let ghost drun0 = dict_run(dict@, blob@);
        proof {
            lemma_auto_spec_u64_to_from_le_bytes();
            assert forall|nn: u64, rn: SpecRun| #[trigger] genuine_blob(blob@, nn, rn) implies pos
                == 24 + entries_bytes(rn.take(ei as int)).len() && pos + entry_bytes(
                rn[ei as int],
            ).len() <= total by {
                assert(drun0 == rn.take(ei as int));
                assert(blob@.take(pos as int).len() == pos);
                assert(header_bytes(n, count as u64).len() == 24);
                lemma_genuine_at(blob@, nn, rn, 24 + entries_bytes(rn.take(ei as int)).len() as int, ei as int);
            }
        }
        if total - pos < 8 {
            proof {
                assert forall|nn: u64, rn: SpecRun| !(#[trigger] genuine_blob(blob@, nn, rn)) by {
                    if genuine_blob(blob@, nn, rn) {
                        lemma_genuine_at(blob@, nn, rn, pos as int, ei as int);
                    }
                }
            }
            return Err(IndexError::CorruptIndex);
        }
        let klen64 = read_u64_at(&blob, pos);
        let limit2 = (total - pos - 8) / 4;
        proof {
            assert forall|nn: u64, rn: SpecRun| #[trigger] genuine_blob(blob@, nn, rn) implies
                klen64 == rn[ei as int].0.len() as u64 && rn[ei as int].0.len() <= limit2 by {
                lemma_genuine_at(blob@, nn, rn, pos as int, ei as int);
                assert(4 * rn[ei as int].0.len() <= total - pos - 8);
                assert(rn[ei as int].0.len() <= (total - pos - 8) / 4) by (nonlinear_arith)
                    requires
                        4 * rn[ei as int].0.len() <= total - pos - 8,
                ;
            }
        }
        if klen64 > limit2 as u64 {
            return Err(IndexError::CorruptIndex);
        }
        let klen = klen64 as usize;
        let kstart = pos + 8;
        proof {
            assert(4 * (limit2 as int) <= total - pos - 8) by (nonlinear_arith)
                requires
                    limit2 == (total - pos - 8) / 4,
            ;
            assert(kstart + 4 * klen <= total);
        }
        let parsed = parse_key(&blob, kstart, klen);
        let key = match parsed {
            Result::Ok(k) => k,
            Result::Err(e) => {
                proof {
                    assert forall|nn: u64, rn: SpecRun| !(#[trigger] genuine_blob(blob@, nn, rn))
                        by {
                        if genuine_blob(blob@, nn, rn) {
                            lemma_genuine_at(blob@, nn, rn, pos as int, ei as int);
                            assert(rn[ei as int].0.len() == klen);
                            assert(blob@.subrange(kstart as int, kstart as int + 4 * klen)
                                == chars_bytes(rn[ei as int].0));
                        }
                    }
                }
                return Err(IndexError::CorruptIndex);
            },
        };
        let ids_at = kstart + 4 * klen;
        if total - ids_at < 8 {
            proof {
                assert forall|nn: u64, rn: SpecRun| !(#[trigger] genuine_blob(blob@, nn, rn)) by {
                    if genuine_blob(blob@, nn, rn) {
                        lemma_genuine_at(blob@, nn, rn, pos as int, ei as int);
                        assert(rn[ei as int].0.len() == klen);
                    }
                }
            }
            return Err(IndexError::CorruptIndex);
        }
        let icnt64 = read_u64_at(&blob, ids_at);
        let limit3 = (total - ids_at - 8) / 8;
        proof {
            assert forall|nn: u64, rn: SpecRun| #[trigger] genuine_blob(blob@, nn, rn) implies
                icnt64 == rn[ei as int].1.len() as u64 && rn[ei as int].1.len() <= limit3 by {
                lemma_genuine_at(blob@, nn, rn, pos as int, ei as int);
                assert(rn[ei as int].0.len() == klen);
                assert(8 * rn[ei as int].1.len() <= total - ids_at - 8);
                assert(rn[ei as int].1.len() <= (total - ids_at - 8) / 8) by (nonlinear_arith)
                    requires
                        8 * rn[ei as int].1.len() <= total - ids_at - 8,
                ;
            }
        }
        if icnt64 > limit3 as u64 {
            return Err(IndexError::CorruptIndex);
        }
        let icnt = icnt64 as usize;
        let off = ids_at + 8;
        proof {
            assert(8 * (limit3 as int) <= total - ids_at - 8) by (nonlinear_arith)
                requires
                    limit3 == (total - ids_at - 8) / 8,
            ;
            assert(off + 8 * icnt <= total);
        }
        let newpos = off + 8 * icnt;
        if ei > 0 {
            let sorted_here = key_lt(&dict[ei - 1].key, &key);
            if !sorted_here {
                proof {
                    assert forall|nn: u64, rn: SpecRun| !(#[trigger] genuine_blob(blob@, nn, rn))
                        by {
                        if genuine_blob(blob@, nn, rn) {
                            lemma_genuine_at(blob@, nn, rn, pos as int, ei as int);
                            assert(rn[ei as int].0.len() == klen);
                            assert(blob@.subrange(kstart as int, kstart as int + 4 * klen)
                                == chars_bytes(rn[ei as int].0));
                            assert(key@ == rn[ei as int].0);
                            assert(drun0[ei - 1] == rn.take(ei as int)[ei - 1]);
                            assert(dict@[ei - 1].key@ == rn[ei - 1].0);
                            assert(lex_lt(rn[ei - 1].0, rn[ei as int].0));
                        }
                    }
                }
                return Err(IndexError::CorruptIndex);
            }
        }
        let ghost ev = (key@, block_ids(blob@, off as int, icnt as nat));
        proof {
            lemma_block_ids_roundtrip(blob@, off as int, icnt as nat);
            // The bytes consumed by this entry are exactly its encoding.
            assert(blob@.subrange(pos as int, pos as int + 8) == spec_u64_to_le_bytes(klen64));
            assert(klen64 == key@.len() as u64);
            assert(blob@.subrange(ids_at as int, ids_at as int + 8) == spec_u64_to_le_bytes(
                icnt64,
            ));
            assert(icnt64 == ev.1.len() as u64);
            assert(blob@.subrange(pos as int, newpos as int) =~= entry_bytes(ev)) by {
                assert(entry_bytes(ev) == spec_u64_to_le_bytes(ev.0.len() as u64) + chars_bytes(
                    ev.0,
                ) + spec_u64_to_le_bytes(ev.1.len() as u64) + ids_bytes(ev.1));
                lemma_chars_bytes_len(ev.0);
                lemma_ids_bytes_len(ev.1);
                assert forall|x: int| #![trigger entry_bytes(ev)[x]] 0 <= x < newpos - pos
                    implies blob@.subrange(
                    pos as int,
                    newpos as int,
                )[x] == entry_bytes(ev)[x] by {
                    if x < 8 {
                        assert(blob@.subrange(pos as int, newpos as int)[x] == blob@.subrange(
                            pos as int,
                            pos as int + 8,
                        )[x]);
                        assert(entry_bytes(ev)[x] == spec_u64_to_le_bytes(ev.0.len() as u64)[x]);
                    } else if x < 8 + 4 * klen {
                        assert(blob@.subrange(pos as int, newpos as int)[x] == blob@.subrange(
                            kstart as int,
                            kstart as int + 4 * klen,
                        )[x - 8]);
                        assert(entry_bytes(ev)[x] == chars_bytes(ev.0)[x - 8]);
                    } else if x < 16 + 4 * klen {
                        assert(blob@.subrange(pos as int, newpos as int)[x] == blob@.subrange(
                            ids_at as int,
                            ids_at as int + 8,
                        )[x - 8 - 4 * klen]);
                        assert(entry_bytes(ev)[x] == spec_u64_to_le_bytes(ev.1.len() as u64)[x - 8
                            - 4 * klen]);
                    } else {
                        assert(blob@.subrange(pos as int, newpos as int)[x] == blob@.subrange(
                            off as int,
                            off as int + 8 * icnt,
                        )[x - 16 - 4 * klen]);
                        assert(entry_bytes(ev)[x] == ids_bytes(ev.1)[x - 16 - 4 * klen]);
                    }
                }
            }
            if dict@.len() > 0 {
                assert(drun0[ei - 1].0 == dict@[ei - 1].key@);
                lemma_push_sorted(drun0, ev);
            } else {
                lemma_push_sorted(drun0, ev);
            }
        }
        let de = DictEntry { key, off, cnt: icnt };
        dict.push(de);
        pos = newpos;
        ei = ei + 1;
        proof {
            assert(dict_run(dict@, blob@) =~= drun0.push(ev));
            assert(entries_bytes(drun0.push(ev)) == entries_bytes(drun0) + entry_bytes(ev)) by {
                assert(drun0.push(ev).drop_last() =~= drun0);
                assert(drun0.push(ev).last() == ev);
            }
            assert(blob@.take(pos as int) =~= blob@.take(pos as int - 8 * icnt - 16 - 4 * klen)
                + blob@.subrange(pos as int - 8 * icnt - 16 - 4 * klen, pos as int));
            assert(blob@.take(pos as int) == header_bytes(n, count as u64) + entries_bytes(
                dict_run(dict@, blob@),
            ));
            assert forall|nn: u64, rn: SpecRun| #[trigger] genuine_blob(blob@, nn, rn) implies nn
                == n && rn.len() == count && dict_run(dict@, blob@) == rn.take(ei as int) by {
                lemma_genuine_at(blob@, nn, rn, pos as int - 8 * icnt - 16 - 4 * klen, ei - 1);
                assert(rn[ei - 1].0.len() == klen);
                assert(blob@.subrange(kstart as int, kstart as int + 4 * klen) == chars_bytes(
                    rn[ei - 1].0,
                ));
                assert(key@ == rn[ei - 1].0);
                assert(rn[ei - 1].1.len() == icnt);
                lemma_block_ids_decode(blob@, off as int, rn[ei - 1].1);
                assert(ev == rn[ei - 1]);
                assert(rn.take(ei as int) =~= rn.take(ei - 1).push(rn[ei - 1]));
            }
        }
    }
    if pos != total {
        proof {
            assert forall|nn: u64, rn: SpecRun| !(#[trigger] genuine_blob(blob@, nn, rn)) by {
                if genuine_blob(blob@, nn, rn) {
                    lemma_header_fields(blob@, nn, rn);
                    assert(dict_run(dict@, blob@) == rn.take(count as int));
                    assert(rn.take(count as int) =~= rn);
                    assert(blob@.take(pos as int).len() == pos);
                }
            }
        }
        return Err(IndexError::CorruptIndex);
    }
    let reader = IndexReader { n, blob, dict, cache: Vec::new() };
    proof {
        assert(reader.run_spec() == dict_run(reader.dict@, reader.blob@));
        assert(reader.blob@.take(total as int) =~= reader.blob@);
        assert(reader.blob@ == index_bytes(n, reader.run_spec())) by {
            assert(reader.run_spec().len() == count);
            assert(index_bytes(n, reader.run_spec()) == header_bytes(
                n,
                reader.run_spec().len() as u64,
            ) + entries_bytes(reader.run_spec()));
        }
        assert forall|i2: int|
            0 <= i2 < reader.dict@.len() implies (#[trigger] reader.dict@[i2]).off + 8
            * reader.dict@[i2].cnt <= reader.blob@.len() by {}
        assert(reader.wf());
        assert forall|nn: u64, rn: SpecRun| #[trigger] genuine_blob(reader.blob@, nn, rn) implies
            reader.n_spec() == nn && reader.run_spec() == rn by {
            assert(rn.take(count as int) =~= rn);
        }
    }
    Ok(reader)
}

} // verus!
