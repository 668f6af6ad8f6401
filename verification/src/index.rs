//! The sparse index at the tail of an SSTable.
//!
//! An index block maps the first key of each data block to that
//! block's byte offset within the SSTable image.  Entries are strictly
//! increasing in both key and offset.  `get_offset_for` answers point
//! lookups by binary search: the offset of the entry with the greatest
//! key not above the probe, or nothing if the probe precedes all
//! entries.
//!
//! On disk an index block is encoded exactly like a data block whose
//! values are the fixed-width offsets, so the block codec serves both.

use vstd::prelude::*;
use vstd::bytes::{spec_u64_from_le_bytes, u64_to_le_bytes, u64_from_le_bytes,
lemma_auto_spec_u64_to_from_le_bytes};
use vstd::slice::slice_to_vec;
use crate::keys::{lex_lt, lemma_lex_trichotomy, lemma_lex_transitive, key_cmp, KeyOrder};
use crate::kv::{KVPair, enc_u64};
use crate::block::{Block, dec_block, enc_block, size_of, encode_block, decode_block};
use crate::Error;

verus! {

/// One index entry: the first key of a block and the block's byte
/// offset in the SSTable image.
pub struct IndexEntry {
    pub key: Vec<u8>,
    pub off: u64,
}

/// The sparse first-key index over an SSTable's blocks.
pub struct IndexBlock {
    pub content: Vec<IndexEntry>,
}

impl View for IndexBlock {
    type V = Seq<(Seq<u8>, u64)>;

    open spec fn view(&self) -> Seq<(Seq<u8>, u64)> {
        self.content@.map(|i: int, e: IndexEntry| (e.key@, e.off))
    }
}

/// Index entries are strictly increasing in both key and offset.
pub open spec fn entries_sorted(s: Seq<(Seq<u8>, u64)>) -> bool {
    forall|i: int, j: int|
        0 <= i < j < s.len() ==> lex_lt(s[i].0, s[j].0) && s[i].1 < s[j].1
}

/// Index of the last entry whose key is not above `k`, or -1 when `k`
/// precedes every entry.
pub open spec fn lookup_pos(s: Seq<(Seq<u8>, u64)>, k: Seq<u8>) -> int
    decreases s.len(),
{
    if s.len() == 0 {
        -1
    } else if !lex_lt(k, s.last().0) {
        s.len() - 1
    } else {
        lookup_pos(s.drop_last(), k)
    }
}

/// What `lookup_pos` yields: a position within bounds, whose key is
/// not above `k`, with every later key strictly above `k`.
pub proof fn lemma_lookup_pos_props(s: Seq<(Seq<u8>, u64)>, k: Seq<u8>)
    ensures
        -1 <= lookup_pos(s, k) < s.len(),
        lookup_pos(s, k) >= 0 ==> !lex_lt(k, s[lookup_pos(s, k)].0),
        forall|i: int| lookup_pos(s, k) < i < s.len() ==> lex_lt(k, s[i].0),
    decreases s.len(),
{
    if s.len() > 0 {
        if lex_lt(k, s.last().0) {
            lemma_lookup_pos_props(s.drop_last(), k);
            assert forall|i: int| lookup_pos(s, k) < i < s.len() implies lex_lt(k, s[i].0) by {
                if i < s.len() - 1 {
                    assert(s.drop_last()[i] == s[i]);
                }
            }
        }
    }
}

/// Binary-search bounds pin `lookup_pos` down: if keys below `ub` are
/// not above `k` and keys from `ub` on are above `k`, the answer is
/// `ub - 1`.
pub proof fn lemma_lookup_pos_from_bounds(s: Seq<(Seq<u8>, u64)>, k: Seq<u8>, ub: int)
    requires
        0 <= ub <= s.len(),
        forall|i: int| 0 <= i < ub ==> !lex_lt(k, s[i].0),
        forall|i: int| ub <= i < s.len() ==> lex_lt(k, s[i].0),
    ensures
        lookup_pos(s, k) == ub - 1,
    decreases s.len(),
{
    if s.len() > 0 {
        if ub == s.len() {
        } else {
            assert forall|i: int| 0 <= i < s.drop_last().len() implies (i < ub ==> !lex_lt(
                k,
                s.drop_last()[i].0,
            )) && (ub <= i ==> lex_lt(k, s.drop_last()[i].0)) by {
                assert(s.drop_last()[i] == s[i]);
            }
            lemma_lookup_pos_from_bounds(s.drop_last(), k, ub);
        }
    }
}

impl IndexBlock {
    /// An index is well formed when its entries are strictly
    /// increasing in key and offset.
    pub open spec fn wf(&self) -> bool {
        entries_sorted(self@)
    }

    /// An empty index.
    pub fn new() -> (r: IndexBlock)
        ensures
            r.wf(),
            r@ == Seq::<(Seq<u8>, u64)>::empty(),
    {
        let r = IndexBlock { content: Vec::new() };
        proof {
            assert(r@ =~= Seq::<(Seq<u8>, u64)>::empty());
        }
        r
    }

    /// Appends an entry; the caller guarantees that both the key and
    /// the offset exceed every entry already present.
    pub fn insert(&mut self, key: Vec<u8>, off: u64)
        requires
            old(self).wf(),
            old(self)@.len() > 0 ==> lex_lt(old(self)@.last().0, key@) && old(self)@.last().1
                < off,
        ensures
            final(self).wf(),
            final(self)@ == old(self)@.push((key@, off)),
    {
        let ghost s = self@;
        let ghost kk = key@;
        self.content.push(IndexEntry { key, off });
        proof {
            assert(self@ =~= s.push((kk, off)));
            assert forall|i: int, j: int| 0 <= i < j < self@.len() implies lex_lt(
                self@[i].0,
                self@[j].0,
            ) && self@[i].1 < self@[j].1 by {
                if j == self@.len() - 1 && i < s.len() - 1 {
                    lemma_lex_transitive(s[i].0, s.last().0, kk);
                }
            }
        }
    }

    /// The offset of the block that may hold `k`: that of the entry
    /// with the greatest key not above `k`, found by binary search.
    /// Nothing when `k` precedes every entry.
    pub fn get_offset_for(&self, k: &[u8]) -> (r: Option<u64>)
        requires
            self.wf(),
        ensures
            r == if lookup_pos(self@, k@) < 0 {
                None::<u64>
            } else {
                Some(self@[lookup_pos(self@, k@)].1)
            },
    {
        let ghost s = self@;
        let mut lo: usize = 0;
        let mut hi: usize = self.content.len();
        while lo < hi
            invariant
                self.wf(),
                s == self@,
                lo <= hi <= s.len(),
                forall|i: int| 0 <= i < lo ==> !lex_lt(k@, s[i].0),
                forall|i: int| hi <= i < s.len() ==> lex_lt(k@, s[i].0),
            decreases hi - lo,
        {
            let mid = lo + (hi - lo) / 2;
            match key_cmp(self.content[mid].key.as_slice(), k) {
                KeyOrder::Greater => {
                    proof {
                        assert forall|i: int| mid <= i < s.len() implies lex_lt(k@, s[i].0) by {
                            if i > mid {
                                lemma_lex_transitive(k@, s[mid as int].0, s[i].0);
                            }
                        }
                    }
                    hi = mid;
                },
                _ => {
                    proof {
                        assert forall|i: int| 0 <= i < mid + 1 implies !lex_lt(k@, s[i].0) by {
                            lemma_lex_trichotomy(s[mid as int].0, k@);
                            if i < mid && lex_lt(k@, s[i].0) {
                                lemma_lex_transitive(k@, s[i].0, s[mid as int].0);
                                lemma_lex_trichotomy(s[mid as int].0, k@);
                            }
                        }
                    }
                    lo = mid + 1;
                },
            }
        }
        proof {
            lemma_lookup_pos_from_bounds(s, k@, lo as int);
        }
        if lo == 0 {
            None
        } else {
            Some(self.content[lo - 1].off)
        }
    }
}

/// An index entry as the record the block codec writes: the key, and
/// the offset as fixed-width bytes.
pub open spec fn index_recs(s: Seq<(Seq<u8>, u64)>) -> Seq<(Seq<u8>, Seq<u8>)> {
    s.map(|i: int, e: (Seq<u8>, u64)| (e.0, enc_u64(e.1)))
}

/// The record an index entry decodes from.
pub open spec fn entry_of_rec(r: (Seq<u8>, Seq<u8>)) -> (Seq<u8>, u64) {
    (r.0, spec_u64_from_le_bytes(r.1))
}

/// The serialized form of an index block.
pub open spec fn enc_index(s: Seq<(Seq<u8>, u64)>) -> Seq<u8> {
    enc_block(index_recs(s))
}

/// Turning entries into records and back yields the same entries.
pub proof fn lemma_index_recs_roundtrip(s: Seq<(Seq<u8>, u64)>)
    ensures
        index_recs(s).map(|i: int, r: (Seq<u8>, Seq<u8>)| entry_of_rec(r)) =~~= s,
        forall|i: int| 0 <= i < s.len() ==> (#[trigger] index_recs(s)[i]).1.len() == 8,
{
    lemma_auto_spec_u64_to_from_le_bytes();
}

/// Appends the serialized form of the index to `out`.
pub fn encode_index(ib: &IndexBlock, out: &mut Vec<u8>)
    ensures
        final(out)@ == old(out)@ + enc_index(ib@),
{
    let mut tmp: Vec<KVPair> = Vec::new();
    let mut i: usize = 0;
    while i < ib.content.len()
        invariant
            i <= ib.content@.len(),
            tmp@.map(|j: int, p: KVPair| (p.k@, p.v@)) =~~= index_recs(ib@).subrange(0, i as int),
        decreases ib.content@.len() - i,
    {
        let key = slice_to_vec(ib.content[i].key.as_slice());
        let off = u64_to_le_bytes(ib.content[i].off);
        let ghost prev = tmp@;
        let ghost kk = key@;
        let ghost ob = off@;
        tmp.push(KVPair { k: key, v: off });
        proof {
            let c = |j: int, p: KVPair| (p.k@, p.v@);
            assert(tmp@ == prev.push(KVPair { k: key, v: off }));
            assert(tmp@.map(c) =~~= prev.map(c).push((kk, ob)));
            assert(ib@[i as int] == (ib.content@[i as int].key@, ib.content@[i as int].off));
            assert(index_recs(ib@)[i as int] == (kk, ob));
            assert(tmp@.map(c) =~~= index_recs(ib@).subrange(0, i + 1));
        }
        i = i + 1;
    }
    let blk = Block { len: 0, content: tmp };
    proof {
        assert(blk@ =~~= index_recs(ib@));
    }
    encode_block(&blk, out);
}

/// Decodes an index block at position `pos` of `data`: a data block
/// whose every value must be a fixed-width offset.
pub fn decode_index(data: &[u8], pos: usize) -> (r: Result<(IndexBlock, usize), Error>)
    requires
        pos <= data@.len(),
    ensures
        match r {
            Ok(p) => match dec_block(data@, pos as int) {
                Some(q) => {
                    &&& q.1 == p.1 as int
                    &&& pos < p.1 <= data@.len()
                    &&& forall|i: int| 0 <= i < q.0.len() ==> (#[trigger] q.0[i]).1.len() == 8
                    &&& p.0@ == q.0.map(|i: int, rr: (Seq<u8>, Seq<u8>)| entry_of_rec(rr))
                },
                None => false,
            },
            Err(e) => {
                &&& e == Error::Codec
                &&& match dec_block(data@, pos as int) {
                    None => true,
                    Some(q) => size_of(q.0) > usize::MAX || exists|i: int|
                        0 <= i < q.0.len() && (#[trigger] q.0[i]).1.len() != 8,
                }
            },
        },
{
    let decoded = decode_block(data, pos);
    match decoded {
        Err(e) => Err(e),
        Ok(p) => {
            let (blk, end) = p;
            let ghost rs = blk@;
            let mut content: Vec<IndexEntry> = Vec::new();
            let mut i: usize = 0;
            while i < blk.content.len()
                invariant
                    pos <= data@.len(),
                    i <= blk.content@.len(),
                    rs == blk@,
                    dec_block(data@, pos as int) == Some((rs, end as int)),
                    pos < end <= data@.len(),
                    rs.len() == blk.content@.len(),
                    forall|j: int| 0 <= j < i ==> (#[trigger] rs[j]).1.len() == 8,
                    content@.map(|j: int, e: IndexEntry| (e.key@, e.off)) =~~= rs.subrange(
                        0,
                        i as int,
                    ).map(|j: int, rr: (Seq<u8>, Seq<u8>)| entry_of_rec(rr)),
                decreases blk.content@.len() - i,
            {
                if blk.content[i].v.len() != 8 {
                    proof {
                        assert(rs[i as int] == (blk.content@[i as int].k@, blk.content@[i as int].v@));
                        assert(rs[i as int].1.len() != 8);
                        assert(exists|j: int| 0 <= j < rs.len() && (#[trigger] rs[j]).1.len() != 8);
                        assert(match dec_block(data@, pos as int) {
                            None => true,
                            Some(q) => size_of(q.0) > usize::MAX || exists|j: int|
                                0 <= j < q.0.len() && (#[trigger] q.0[j]).1.len() != 8,
                        });
                    }
                    return Err(Error::Codec);
                }
                let off = u64_from_le_bytes(blk.content[i].v.as_slice());
                let key = slice_to_vec(blk.content[i].k.as_slice());
                let ghost prev = content@;
                let ghost kk = key@;
                let ghost oo = off;
                content.push(IndexEntry { key, off });
                proof {
                    let c = |j: int, e: IndexEntry| (e.key@, e.off);
                    let d = |j: int, rr: (Seq<u8>, Seq<u8>)| entry_of_rec(rr);
                    assert(content@ == prev.push(IndexEntry { key, off }));
                    assert(content@.map(c) =~~= prev.map(c).push((kk, oo)));
                    assert(rs[i as int] == (blk.content@[i as int].k@, blk.content@[i as int].v@));
                    assert(entry_of_rec(rs[i as int]) == (kk, oo));
                    assert(content@.map(c) =~~= rs.subrange(0, i + 1).map(d));
                }
                i = i + 1;
            }
            let ib = IndexBlock { content };
            proof {
                assert(rs.subrange(0, rs.len() as int) =~~= rs);
                assert(ib@ =~~= rs.map(|j: int, rr: (Seq<u8>, Seq<u8>)| entry_of_rec(rr)));
            }
            Ok((ib, end))
        },
    }
}

} // verus!
