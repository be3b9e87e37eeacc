//! The on-disk byte layout of spill segments and the final index.
//!
//! A blob is a header (format version, n-gram length, entry count)
//! followed by the dictionary entries in ascending key order.  Each entry
//! carries its key length, the key's scalar values in fixed-width
//! little-endian form, its posting count, and the posting block: the row
//! ids in little-endian form.  The layout is a function of the logical
//! run alone, so equal contents give byte-identical blobs.

use vstd::prelude::*;
use vstd::bytes::{spec_u32_to_le_bytes, spec_u32_from_le_bytes, spec_u64_to_le_bytes,
    spec_u64_from_le_bytes, u32_from_le_bytes, u64_from_le_bytes, u64_to_le_bytes,
    u32_to_le_bytes, lemma_auto_spec_u32_to_from_le_bytes, lemma_auto_spec_u64_to_from_le_bytes};
use crate::run::{IndexEntry, SpecRun, run_view};

verus! {

/// The format version written into every blob header.
pub const FORMAT_VERSION: u64 = 1;

/// The canonical fixed-width encoding of a key's scalar values.
pub open spec fn chars_bytes(s: Seq<char>) -> Seq<u8>
    decreases s.len(),
{
    if s.len() == 0 {
        Seq::empty()
    } else {
        chars_bytes(s.drop_last()) + spec_u32_to_le_bytes(s.last() as u32)
    }
}

/// The encoding of one posting block: the row ids in order.
pub open spec fn ids_bytes(s: Seq<u64>) -> Seq<u8>
    decreases s.len(),
{
    if s.len() == 0 {
        Seq::empty()
    } else {
        ids_bytes(s.drop_last()) + spec_u64_to_le_bytes(s.last())
    }
}

/// The encoding of one dictionary entry with its posting block.
pub open spec fn entry_bytes(e: (Seq<char>, Seq<u64>)) -> Seq<u8> {
    spec_u64_to_le_bytes(e.0.len() as u64) + chars_bytes(e.0) + spec_u64_to_le_bytes(
        e.1.len() as u64,
    ) + ids_bytes(e.1)
}

/// The concatenated encodings of a run's entries.
pub open spec fn entries_bytes(rn: SpecRun) -> Seq<u8>
    decreases rn.len(),
{
    if rn.len() == 0 {
        Seq::empty()
    } else {
        entries_bytes(rn.drop_last()) + entry_bytes(rn.last())
    }
}

/// The header of a blob: version, n-gram length, entry count.
pub open spec fn header_bytes(n: u64, count: u64) -> Seq<u8> {
    spec_u64_to_le_bytes(FORMAT_VERSION) + spec_u64_to_le_bytes(n) + spec_u64_to_le_bytes(count)
}

/// The whole blob holding a run, for n-gram length `n`.
pub open spec fn index_bytes(n: u64, rn: SpecRun) -> Seq<u8> {
    header_bytes(n, rn.len() as u64) + entries_bytes(rn)
}

/// The bytes of the entries from position `p` on.
pub open spec fn entries_tail_bytes(rn: SpecRun, p: int) -> Seq<u8>
    decreases rn.len() - p,
{
    if p < 0 || p >= rn.len() {
        Seq::empty()
    } else {
        entry_bytes(rn[p]) + entries_tail_bytes(rn, p + 1)
    }
}

/// The bytes of a key's scalar values from position `t` on.
pub open spec fn chars_tail_bytes(s: Seq<char>, t: int) -> Seq<u8>
    decreases s.len() - t,
{
    if t < 0 || t >= s.len() {
        Seq::empty()
    } else {
        spec_u32_to_le_bytes(s[t] as u32) + chars_tail_bytes(s, t + 1)
    }
}

/// Key encodings are four bytes per scalar value.
pub proof fn lemma_chars_bytes_len(s: Seq<char>)
    ensures
        chars_bytes(s).len() == 4 * s.len(),
    decreases s.len(),
{
    lemma_auto_spec_u32_to_from_le_bytes();
    if s.len() > 0 {
        lemma_chars_bytes_len(s.drop_last());
    }
}

/// Posting blocks are eight bytes per row id.
pub proof fn lemma_ids_bytes_len(s: Seq<u64>)
    ensures
        ids_bytes(s).len() == 8 * s.len(),
    decreases s.len(),
{
    lemma_auto_spec_u64_to_from_le_bytes();
    if s.len() > 0 {
        lemma_ids_bytes_len(s.drop_last());
    }
}

/// Each encoded entry takes 16 bytes besides its key and posting block.
pub proof fn lemma_entry_bytes_len(e: (Seq<char>, Seq<u64>))
    ensures
        entry_bytes(e).len() == 16 + 4 * e.0.len() + 8 * e.1.len(),
{
    lemma_auto_spec_u64_to_from_le_bytes();
    lemma_chars_bytes_len(e.0);
    lemma_ids_bytes_len(e.1);
}

/// Every entry of a run costs at least 16 encoded bytes.
pub proof fn lemma_entries_bytes_len(rn: SpecRun)
    ensures
        entries_bytes(rn).len() >= 16 * rn.len(),
    decreases rn.len(),
{
    if rn.len() > 0 {
        lemma_entries_bytes_len(rn.drop_last());
        lemma_entry_bytes_len(rn.last());
    }
}

/// Splits the encoded entries at position `p`: what was consumed plus
/// what remains.
pub proof fn lemma_entries_split(rn: SpecRun, p: int)
    requires
        0 <= p <= rn.len(),
    ensures
        entries_bytes(rn) == entries_bytes(rn.take(p)) + entries_tail_bytes(rn, p),
    decreases rn.len() - p,
{
    if p == rn.len() {
        assert(rn.take(p) =~= rn);
        assert(entries_bytes(rn) + entries_tail_bytes(rn, p) =~= entries_bytes(rn));
    } else {
        lemma_entries_split(rn, p + 1);
        assert(rn.take(p + 1).drop_last() =~= rn.take(p));
        assert(rn.take(p + 1).last() == rn[p]);
        assert(entries_bytes(rn.take(p + 1)) == entries_bytes(rn.take(p)) + entry_bytes(rn[p]));
        assert(entries_bytes(rn.take(p)) + (entry_bytes(rn[p]) + entries_tail_bytes(rn, p + 1))
            =~= (entries_bytes(rn.take(p)) + entry_bytes(rn[p])) + entries_tail_bytes(rn, p + 1));
    }
}

/// Splits a key's encoding at scalar position `t`.
pub proof fn lemma_chars_split(s: Seq<char>, t: int)
    requires
        0 <= t <= s.len(),
    ensures
        chars_bytes(s) == chars_bytes(s.take(t)) + chars_tail_bytes(s, t),
    decreases s.len() - t,
{
    if t == s.len() {
        assert(s.take(t) =~= s);
        assert(chars_bytes(s) + chars_tail_bytes(s, t) =~= chars_bytes(s));
    } else {
        lemma_chars_split(s, t + 1);
        assert(s.take(t + 1).drop_last() =~= s.take(t));
        assert(s.take(t + 1).last() == s[t]);
        assert(chars_bytes(s.take(t + 1)) == chars_bytes(s.take(t)) + spec_u32_to_le_bytes(
            s[t] as u32,
        ));
        assert(chars_bytes(s.take(t)) + (spec_u32_to_le_bytes(s[t] as u32) + chars_tail_bytes(
            s,
            t + 1,
        )) =~= (chars_bytes(s.take(t)) + spec_u32_to_le_bytes(s[t] as u32)) + chars_tail_bytes(
            s,
            t + 1,
        ));
    }
}

/// The row ids decoded from a posting block at `off` holding `cnt` ids.
pub open spec fn block_ids(blob: Seq<u8>, off: int, cnt: nat) -> Seq<u64> {
    Seq::new(cnt, |t: int| spec_u64_from_le_bytes(blob.subrange(off + 8 * t, off + 8 * t + 8)))
}

/// A decoded posting block re-encodes to exactly its bytes.
pub proof fn lemma_block_ids_roundtrip(blob: Seq<u8>, off: int, cnt: nat)
    requires
        0 <= off,
        off + 8 * cnt <= blob.len(),
    ensures
        ids_bytes(block_ids(blob, off, cnt)) == blob.subrange(off, off + 8 * cnt),
    decreases cnt,
{
    lemma_auto_spec_u64_to_from_le_bytes();
    let s = block_ids(blob, off, cnt);
    if cnt == 0 {
        assert(ids_bytes(s) =~= blob.subrange(off, off));
    } else {
        assert(s.drop_last() =~= block_ids(blob, off, (cnt - 1) as nat));
        lemma_block_ids_roundtrip(blob, off, (cnt - 1) as nat);
        let tailpos = off + 8 * (cnt - 1);
        assert(s.last() == spec_u64_from_le_bytes(blob.subrange(tailpos, tailpos + 8)));
        assert(blob.subrange(tailpos, tailpos + 8).len() == 8);
        assert(spec_u64_to_le_bytes(s.last()) == blob.subrange(tailpos, tailpos + 8));
        assert(blob.subrange(off, tailpos) + blob.subrange(tailpos, tailpos + 8) =~= blob.subrange(
            off,
            off + 8 * cnt as int,
        ));
    }
}

/// A posting block that encodes a given id sequence decodes back to it.
pub proof fn lemma_block_ids_decode(blob: Seq<u8>, off: int, s: Seq<u64>)
    requires
        0 <= off,
        off + 8 * s.len() <= blob.len(),
        blob.subrange(off, off + 8 * s.len()) == ids_bytes(s),
    ensures
        block_ids(blob, off, s.len()) == s,
    decreases s.len(),
{
    lemma_auto_spec_u64_to_from_le_bytes();
    if s.len() == 0 {
        assert(block_ids(blob, off, s.len()) =~= s);
    } else {
        lemma_ids_bytes_len(s.drop_last());
        let tailpos = off + 8 * (s.len() - 1);
        assert(ids_bytes(s) == ids_bytes(s.drop_last()) + spec_u64_to_le_bytes(s.last()));
        assert(blob.subrange(off, tailpos) =~= ids_bytes(s.drop_last())) by {
            assert forall|x: int| 0 <= x < 8 * (s.len() - 1) implies blob.subrange(
                off,
                tailpos,
            )[x] == ids_bytes(s.drop_last())[x] by {
                assert(blob.subrange(off, tailpos)[x] == blob.subrange(
                    off,
                    off + 8 * s.len() as int,
                )[x]);
            }
        }
        lemma_block_ids_decode(blob, off, s.drop_last());
        assert(blob.subrange(tailpos, tailpos + 8) =~= spec_u64_to_le_bytes(s.last())) by {
            lemma_ids_bytes_len(s);
            assert forall|x: int| 0 <= x < 8 implies blob.subrange(tailpos, tailpos + 8)[x]
                == spec_u64_to_le_bytes(s.last())[x] by {
                assert(blob.subrange(tailpos, tailpos + 8)[x] == blob.subrange(
                    off,
                    off + 8 * s.len() as int,
                )[8 * (s.len() - 1) + x]);
                assert(ids_bytes(s)[8 * (s.len() - 1) + x] == spec_u64_to_le_bytes(s.last())[x]);
            }
        }
        assert(block_ids(blob, off, s.len()) =~= s) by {
            assert forall|t: int| 0 <= t < s.len() implies block_ids(blob, off, s.len())[t] == s[t]
                by {
                if t < s.len() - 1 {
                    assert(block_ids(blob, off, (s.len() - 1) as nat)[t] == s.drop_last()[t]);
                    assert(blob.subrange(off + 8 * t, off + 8 * t + 8) == blob.subrange(
                        off + 8 * t,
                        off + 8 * t + 8,
                    ));
                } else {
                    assert(block_ids(blob, off, s.len())[t] == spec_u64_from_le_bytes(
                        blob.subrange(tailpos, tailpos + 8),
                    ));
                }
            }
        }
    }
}

/// A blob that encodes a run decomposes into its header fields and its
/// entry bytes.
pub proof fn lemma_header_fields(blob: Seq<u8>, nn: u64, rn: SpecRun)
    requires
        blob == index_bytes(nn, rn),
    ensures
        blob.len() == 24 + entries_bytes(rn).len(),
        blob.len() >= 24 + 16 * rn.len(),
        blob.subrange(0, 8) == spec_u64_to_le_bytes(FORMAT_VERSION),
        blob.subrange(8, 16) == spec_u64_to_le_bytes(nn),
        blob.subrange(16, 24) == spec_u64_to_le_bytes(rn.len() as u64),
        blob.skip(24) == entries_bytes(rn),
{
    lemma_auto_spec_u64_to_from_le_bytes();
    lemma_entries_bytes_len(rn);
    assert(blob.subrange(0, 8) =~= spec_u64_to_le_bytes(FORMAT_VERSION));
    assert(blob.subrange(8, 16) =~= spec_u64_to_le_bytes(nn));
    assert(blob.subrange(16, 24) =~= spec_u64_to_le_bytes(rn.len() as u64));
    assert(blob.skip(24) =~= entries_bytes(rn));
}

/// Relies on char::from_u32: it returns `Some` exactly for valid Unicode
/// scalar values (below the surrogate range, or between it and the
/// maximum code point), and the returned char has the given value.
pub assume_specification[ char::from_u32 ](v: u32) -> (r: Option<char>)
    ensures
        r.is_some() == (v < 0xD800 || (0xE000 <= v && v <= 0x10FFFF)),
        r.is_some() ==> r.unwrap() as u32 == v,
;

/// Reads the little-endian u64 at byte position `pos`.
pub fn read_u64_at(blob: &Vec<u8>, pos: usize) -> (r: u64)
    requires
        pos + 8 <= blob@.len(),
    ensures
        r == spec_u64_from_le_bytes(blob@.subrange(pos as int, pos as int + 8)),
{
    let end = blob.len();
    proof {
        assert(pos + 8 <= end);
    }
    let s = vstd::slice::slice_subrange(blob.as_slice(), pos, pos + 8);
    u64_from_le_bytes(s)
}

/// Reads the little-endian u32 at byte position `pos`.
pub fn read_u32_at(blob: &Vec<u8>, pos: usize) -> (r: u32)
    requires
        pos + 4 <= blob@.len(),
    ensures
        r == spec_u32_from_le_bytes(blob@.subrange(pos as int, pos as int + 4)),
{
    let end = blob.len();
    proof {
        assert(pos + 4 <= end);
    }
    let s = vstd::slice::slice_subrange(blob.as_slice(), pos, pos + 4);
    u32_from_le_bytes(s)
}

/// Appends the little-endian encoding of `x`.
pub fn push_u64(out: &mut Vec<u8>, x: u64)
    ensures
        final(out)@ == old(out)@ + spec_u64_to_le_bytes(x),
{
    let mut b = u64_to_le_bytes(x);
    out.append(&mut b);
}

/// Appends the little-endian encoding of `x`.
pub fn push_u32(out: &mut Vec<u8>, x: u32)
    ensures
        final(out)@ == old(out)@ + spec_u32_to_le_bytes(x),
{
    let mut b = u32_to_le_bytes(x);
    out.append(&mut b);
}

/// Serializes a run into one blob: the header followed by the entries in
/// order.  The bytes are a function of `n` and the run's logical content
/// alone.
pub fn encode_index(n: u64, entries: &Vec<IndexEntry>) -> (r: Vec<u8>)
    ensures
        r@ == index_bytes(n, run_view(entries@)),
{
    let ghost rn = run_view(entries@);
    let mut out: Vec<u8> = Vec::new();
    push_u64(&mut out, FORMAT_VERSION);
    push_u64(&mut out, n);
    push_u64(&mut out, entries.len() as u64);
    proof {
        assert(out@ =~= header_bytes(n, rn.len() as u64));
        assert(rn.take(0) =~= Seq::<(Seq<char>, Seq<u64>)>::empty());
        assert(out@ =~= header_bytes(n, rn.len() as u64) + entries_bytes(rn.take(0)));
    }
    let mut ei: usize = 0;
    while ei < entries.len()
        invariant
            rn == run_view(entries@),
            ei <= rn.len(),
            out@ == header_bytes(n, rn.len() as u64) + entries_bytes(rn.take(ei as int)),
        decreases rn.len() - ei,
    {
        let ghost out_entry_start = out@;
        let e = &entries[ei];
        proof {
            assert(rn[ei as int] == entries@[ei as int]@);
        }
        push_u64(&mut out, e.key.len() as u64);
        let mut t: usize = 0;
        while t < e.key.len()
            invariant
                t <= e.key@.len(),
                out@ == out_entry_start + spec_u64_to_le_bytes(e.key@.len() as u64) + chars_bytes(
                    e.key@.take(t as int),
                ),
            decreases e.key@.len() - t,
        {
            push_u32(&mut out, e.key[t] as u32);
            proof {
                assert(e.key@.take(t + 1).drop_last() =~= e.key@.take(t as int));
                assert(e.key@.take(t + 1).last() == e.key@[t as int]);
                assert(chars_bytes(e.key@.take(t + 1)) == chars_bytes(e.key@.take(t as int))
                    + spec_u32_to_le_bytes(e.key@[t as int] as u32));
                assert((out_entry_start + spec_u64_to_le_bytes(e.key@.len() as u64) + chars_bytes(
                    e.key@.take(t as int),
                )) + spec_u32_to_le_bytes(e.key@[t as int] as u32) =~= out_entry_start
                    + spec_u64_to_le_bytes(e.key@.len() as u64) + chars_bytes(
                    e.key@.take(t + 1),
                ));
            }
            t = t + 1;
        }
        proof {
            assert(e.key@.take(e.key@.len() as int) =~= e.key@);
        }
        push_u64(&mut out, e.ids.len() as u64);
        let ghost out_ids_start = out@;
        let mut t2: usize = 0;
        while t2 < e.ids.len()
            invariant
                t2 <= e.ids@.len(),
                out@ == out_ids_start + ids_bytes(e.ids@.take(t2 as int)),
            decreases e.ids@.len() - t2,
        {
            push_u64(&mut out, e.ids[t2]);
            proof {
                assert(e.ids@.take(t2 + 1).drop_last() =~= e.ids@.take(t2 as int));
                assert(e.ids@.take(t2 + 1).last() == e.ids@[t2 as int]);
                assert(ids_bytes(e.ids@.take(t2 + 1)) == ids_bytes(e.ids@.take(t2 as int))
                    + spec_u64_to_le_bytes(e.ids@[t2 as int]));
                assert((out_ids_start + ids_bytes(e.ids@.take(t2 as int))) + spec_u64_to_le_bytes(
                    e.ids@[t2 as int],
                ) =~= out_ids_start + ids_bytes(e.ids@.take(t2 + 1)));
            }
            t2 = t2 + 1;
        }
        proof {
            assert(e.ids@.take(e.ids@.len() as int) =~= e.ids@);
            assert(out@ =~= out_entry_start + entry_bytes(rn[ei as int]));
            assert(rn.take(ei + 1).drop_last() =~= rn.take(ei as int));
            assert(rn.take(ei + 1).last() == rn[ei as int]);
            assert(entries_bytes(rn.take(ei + 1)) == entries_bytes(rn.take(ei as int))
                + entry_bytes(rn[ei as int]));
            assert((header_bytes(n, rn.len() as u64) + entries_bytes(rn.take(ei as int)))
                + entry_bytes(rn[ei as int]) =~= header_bytes(n, rn.len() as u64) + entries_bytes(
                rn.take(ei + 1),
            ));
        }
        ei = ei + 1;
    }
    proof {
        assert(rn.take(rn.len() as int) =~= rn);
    }
    out
}

} // verus!
