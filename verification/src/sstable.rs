//! Immutable sorted-string tables.
//!
//! An SSTable image is laid out as: the data blocks back to back, then
//! the serialized index block, then a fixed-width 8-byte trailer
//! holding the index block's serialized size (a signed value; an
//! oversized index cannot be written).  The image is rebuilt for
//! reading by taking the trailer from the end, seeking back over the
//! index, and using the index entries to locate data blocks.
//!
//! The ghost `parts` field carries the partition of records into
//! blocks that the image was written from; well-formedness ties the
//! bytes to that partition exactly.

use vstd::prelude::*;
use vstd::bytes::{u64_to_le_bytes, u64_from_le_bytes, lemma_auto_spec_u64_to_from_le_bytes};
use vstd::slice::slice_subrange;
use crate::keys::{lex_lt, lemma_lex_trichotomy, lemma_lex_transitive};
use crate::kv::{enc_u64, enc_recs, map_of, sorted_strict, lemma_map_of_concat,
lemma_map_of_contains};
use crate::block::{Block, enc_block, size_of, lemma_size_of_nonneg, encode_block, decode_block,
lemma_dec_block_of_enc};
use crate::index::{IndexBlock, entries_sorted, lookup_pos, lemma_lookup_pos_props, index_recs,
enc_index, lemma_index_recs_roundtrip, encode_index, decode_index};
use crate::memtable::concat_recs;
use crate::Error;

verus! {

/// The widest index size the signed trailer can carry.
pub open spec fn max_index_size() -> int {
    0x7fff_ffff_ffff_ffff
}

/// The byte run of the data-block region: each partition member
/// serialized as one block, back to back.
pub open spec fn blocks_bytes(parts: Seq<Seq<(Seq<u8>, Seq<u8>)>>) -> Seq<u8>
    decreases parts.len(),
{
    if parts.len() == 0 {
        Seq::empty()
    } else {
        blocks_bytes(parts.drop_last()) + enc_block(parts.last())
    }
}

/// The byte offset at which block `j` begins within the image.
pub open spec fn block_off(parts: Seq<Seq<(Seq<u8>, Seq<u8>)>>, j: int) -> int {
    blocks_bytes(parts.take(j)).len() as int
}

/// The index entries the image carries: each block's first key and
/// its byte offset.
pub open spec fn index_entries(parts: Seq<Seq<(Seq<u8>, Seq<u8>)>>) -> Seq<(Seq<u8>, u64)> {
    Seq::new(parts.len(), |j: int| (parts[j][0].0, block_off(parts, j) as u64))
}

/// The whole SSTable image: blocks, then the index, then the trailer
/// holding the index's serialized size.
pub open spec fn sst_image(parts: Seq<Seq<(Seq<u8>, Seq<u8>)>>) -> Seq<u8> {
    blocks_bytes(parts) + enc_index(index_entries(parts)) + enc_u64(
        enc_index(index_entries(parts)).len() as u64,
    )
}

/// A well-formed partition: non-empty blocks of representable sizes,
/// sorted within each block, and wholly ordered across blocks.
pub open spec fn parts_wf(parts: Seq<Seq<(Seq<u8>, Seq<u8>)>>) -> bool {
    &&& parts.len() <= usize::MAX
    &&& forall|j: int| 0 <= j < parts.len() ==> (#[trigger] parts[j]).len() > 0
    &&& forall|j: int| 0 <= j < parts.len() ==> (#[trigger] parts[j]).len() <= usize::MAX
    &&& forall|j: int| 0 <= j < parts.len() ==> size_of(#[trigger] parts[j]) <= usize::MAX
    &&& forall|j: int, l: int|
        0 <= j < parts.len() && 0 <= l < parts[j].len() ==> (#[trigger] parts[j][l]).0.len()
            <= usize::MAX && parts[j][l].1.len() <= usize::MAX
    &&& forall|j: int, l1: int, l2: int|
        0 <= j < parts.len() && 0 <= l1 < l2 < parts[j].len() ==> lex_lt(
            (#[trigger] parts[j][l1]).0,
            (#[trigger] parts[j][l2]).0,
        )
    &&& forall|j1: int, l1: int, j2: int, l2: int|
        0 <= j1 < j2 < parts.len() && 0 <= l1 < parts[j1].len() && 0 <= l2 < parts[j2].len()
            ==> lex_lt((#[trigger] parts[j1][l1]).0, (#[trigger] parts[j2][l2]).0)
}

/// One step of the concatenations: taking one more block appends that
/// block's records, and its bytes.
pub proof fn lemma_take_succ(parts: Seq<Seq<(Seq<u8>, Seq<u8>)>>, j: int)
    requires
        0 <= j < parts.len(),
    ensures
        concat_recs(parts.take(j + 1)) == concat_recs(parts.take(j)) + parts[j],
        blocks_bytes(parts.take(j + 1)) == blocks_bytes(parts.take(j)) + enc_block(parts[j]),
{
    assert(parts.take(j + 1).drop_last() =~~= parts.take(j));
    assert(parts.take(j + 1).last() == parts[j]);
}

/// Block offsets never decrease along the image.
pub proof fn lemma_block_off_mono(parts: Seq<Seq<(Seq<u8>, Seq<u8>)>>, a: int, b: int)
    requires
        0 <= a <= b <= parts.len(),
    ensures
        block_off(parts, a) <= block_off(parts, b),
    decreases b - a,
{
    if a < b {
        lemma_take_succ(parts, b - 1);
        lemma_block_off_mono(parts, a, b - 1);
    }
}

/// Each block's bytes sit at its recorded offset within the block
/// region.
pub proof fn lemma_block_region(parts: Seq<Seq<(Seq<u8>, Seq<u8>)>>, j: int)
    requires
        0 <= j < parts.len(),
    ensures
        block_off(parts, j) + enc_block(parts[j]).len() <= blocks_bytes(parts).len(),
        blocks_bytes(parts).subrange(
            block_off(parts, j),
            block_off(parts, j) + enc_block(parts[j]).len(),
        ) == enc_block(parts[j]),
    decreases parts.len(),
{
    if j == parts.len() - 1 {
        assert(parts.take(j) =~~= parts.drop_last());
        assert(blocks_bytes(parts).subrange(
            block_off(parts, j),
            block_off(parts, j) + enc_block(parts[j]).len(),
        ) =~= enc_block(parts[j]));
    } else {
        assert(parts.drop_last().take(j) =~~= parts.take(j));
        assert(parts.drop_last()[j] == parts[j]);
        lemma_block_region(parts.drop_last(), j);
        assert(blocks_bytes(parts).subrange(
            block_off(parts, j),
            block_off(parts, j) + enc_block(parts[j]).len(),
        ) =~= blocks_bytes(parts.drop_last()).subrange(
            block_off(parts, j),
            block_off(parts, j) + enc_block(parts[j]).len(),
        ));
    }
}

/// A serialized block is never shorter than its count field.
pub proof fn lemma_enc_block_min_len(recs: Seq<(Seq<u8>, Seq<u8>)>)
    ensures
        enc_block(recs).len() >= 8,
{
    lemma_auto_spec_u64_to_from_le_bytes();
}

/// Index monotonicity: within any image the index entries are
/// strictly increasing in both first key and offset.
pub proof fn lemma_index_entries_sorted(parts: Seq<Seq<(Seq<u8>, Seq<u8>)>>)
    requires
        parts_wf(parts),
        blocks_bytes(parts).len() <= usize::MAX,
    ensures
        entries_sorted(index_entries(parts)),
{
    let es = index_entries(parts);
    assert forall|i: int, j: int| 0 <= i < j < es.len() implies lex_lt(es[i].0, es[j].0)
        && es[i].1 < es[j].1 by {
        assert(lex_lt(parts[i][0].0, parts[j][0].0));
        lemma_take_succ(parts, i);
        lemma_enc_block_min_len(parts[i]);
        lemma_block_off_mono(parts, i + 1, j);
        lemma_block_off_mono(parts, j, parts.len() as int);
        assert(parts.take(parts.len() as int) =~~= parts);
        assert(block_off(parts, i) < block_off(parts, j));
        assert(block_off(parts, j) <= blocks_bytes(parts).len());
    }
}

/// Every record of the concatenation comes from some block.
pub proof fn lemma_concat_elem(parts: Seq<Seq<(Seq<u8>, Seq<u8>)>>, i: int)
    requires
        0 <= i < concat_recs(parts).len(),
    ensures
        exists|j: int, l: int|
            0 <= j < parts.len() && 0 <= l < parts[j].len() && concat_recs(parts)[i]
                == (#[trigger] parts[j][l]),
    decreases parts.len(),
{
    if parts.len() > 0 {
        let head = concat_recs(parts.drop_last());
        if i < head.len() {
            lemma_concat_elem(parts.drop_last(), i);
            let (j, l) = choose|j: int, l: int|
                0 <= j < parts.drop_last().len() && 0 <= l < parts.drop_last()[j].len()
                    && concat_recs(parts.drop_last())[i] == (#[trigger] parts.drop_last()[j][l]);
            assert(parts[j] == parts.drop_last()[j]);
            assert(concat_recs(parts)[i] == parts[j][l]);
        } else {
            let j = parts.len() - 1;
            let l = i - head.len();
            assert(concat_recs(parts)[i] == parts[j][l]);
        }
    }
}

/// If the probe key precedes every block's first key, it is absent
/// from the table.
pub proof fn lemma_parts_lookup_none(parts: Seq<Seq<(Seq<u8>, Seq<u8>)>>, k: Seq<u8>)
    requires
        parts_wf(parts),
        parts.len() > 0 ==> lex_lt(k, parts[0][0].0),
    ensures
        !map_of(concat_recs(parts)).contains_key(k),
{
    let cc = concat_recs(parts);
    lemma_map_of_contains(cc, k);
    assert forall|i: int| 0 <= i < cc.len() implies cc[i].0 != k by {
        lemma_concat_elem(parts, i);
        let (j, l) = choose|j: int, l: int|
            0 <= j < parts.len() && 0 <= l < parts[j].len() && cc[i] == (#[trigger] parts[j][l]);
        if j > 0 || l > 0 {
            if j > 0 {
                assert(lex_lt(parts[0][0].0, parts[j][l].0));
            } else {
                assert(lex_lt(parts[0][0].0, parts[0][l].0));
            }
            lemma_lex_transitive(k, parts[0][0].0, parts[j][l].0);
            lemma_lex_trichotomy(k, parts[j][l].0);
        } else {
            lemma_lex_trichotomy(k, parts[0][0].0);
        }
    }
}

/// If block `p` is the one the index points at for key `k` — its
/// first key is not above `k`, the next block's first key (if any) is
/// above `k` — then the whole table binds `k` exactly as block `p`
/// does.
pub proof fn lemma_parts_lookup(parts: Seq<Seq<(Seq<u8>, Seq<u8>)>>, k: Seq<u8>, p: int)
    requires
        parts_wf(parts),
        0 <= p < parts.len(),
        !lex_lt(k, parts[p][0].0),
        p + 1 < parts.len() ==> lex_lt(k, parts[p + 1][0].0),
    ensures
        map_of(concat_recs(parts)).contains_key(k) <==> map_of(parts[p]).contains_key(k),
        map_of(parts[p]).contains_key(k) ==> map_of(concat_recs(parts))[k] == map_of(parts[p])[k],
    decreases parts.len(),
{
    let cc = concat_recs(parts);
    let head = parts.drop_last();
    if p == parts.len() - 1 {
        lemma_map_of_concat(concat_recs(head), parts[p]);
        assert(cc == concat_recs(head) + parts[p]);
        if !map_of(parts[p]).contains_key(k) {
            lemma_map_of_contains(concat_recs(head), k);
            assert forall|i: int| 0 <= i < concat_recs(head).len() implies concat_recs(head)[i].0
                != k by {
                lemma_concat_elem(head, i);
                let (j, l) = choose|j: int, l: int|
                    0 <= j < head.len() && 0 <= l < head[j].len() && concat_recs(head)[i]
                        == (#[trigger] head[j][l]);
                assert(head[j] == parts[j]);
                assert(lex_lt(parts[j][l].0, parts[p][0].0));
                if parts[j][l].0 == k {
                    assert(lex_lt(k, parts[p][0].0));
                }
            }
        }
    } else {
        let last = parts.last();
        let q = parts.len() - 1;
        lemma_map_of_concat(concat_recs(head), last);
        assert(cc == concat_recs(head) + last);
        assert forall|l: int| 0 <= l < last.len() implies last[l].0 != k by {
            assert(last == parts[q]);
            if p + 1 < q {
                assert(lex_lt(parts[p + 1][0].0, parts[q][l].0));
                lemma_lex_transitive(k, parts[p + 1][0].0, parts[q][l].0);
            } else {
                if l > 0 {
                    assert(lex_lt(parts[q][0].0, parts[q][l].0));
                    lemma_lex_transitive(k, parts[q][0].0, parts[q][l].0);
                }
            }
            lemma_lex_trichotomy(k, parts[q][l].0);
        }
        lemma_map_of_contains(last, k);
        assert(!map_of(last).contains_key(k));
        assert forall|j: int| 0 <= j < head.len() implies (#[trigger] head[j]) == parts[j] by {}
        lemma_parts_lookup(head, k, p);
    }
}

/// An SSTable: the on-disk image and, once loaded, the cached index.
pub struct SSTable {
    pub data: Vec<u8>,
    pub idx: Option<IndexBlock>,
    pub parts: Ghost<Seq<Seq<(Seq<u8>, Seq<u8>)>>>,
}

impl View for SSTable {
    type V = Map<Seq<u8>, Seq<u8>>;

    open spec fn view(&self) -> Map<Seq<u8>, Seq<u8>> {
        map_of(concat_recs(self.parts@))
    }
}

impl SSTable {
    /// An SSTable is well formed when its bytes are exactly the image
    /// of its partition, the index fits the signed trailer, and any
    /// cached index matches the image's.
    pub open spec fn wf(&self) -> bool {
        &&& parts_wf(self.parts@)
        &&& self.data@ == sst_image(self.parts@)
        &&& enc_index(index_entries(self.parts@)).len() <= max_index_size()
        &&& match self.idx {
            Some(ib) => ib@ == index_entries(self.parts@),
            None => true,
        }
    }

    /// Serializes the blocks of one flush into a fresh SSTable image:
    /// every block's first key and offset is recorded in the index,
    /// the blocks are written back to back, then the index, then the
    /// trailer.  Fails only when the index is too large for the
    /// signed trailer.  The caller hands over only non-empty blocks —
    /// the memtable's packing never yields an empty one — so there is
    /// no block without a first key to skip.
    pub fn build(blocks: &Vec<Block>) -> (r: Result<SSTable, Error>)
        requires
            forall|i: int| 0 <= i < blocks@.len() ==> (#[trigger] blocks@[i]).wf(),
            forall|i: int| 0 <= i < blocks@.len() ==> (#[trigger] blocks@[i])@.len() > 0,
            sorted_strict(concat_recs(blocks@.map(|i: int, b: Block| b@))),
        ensures
            match r {
                Ok(t) => {
                    &&& t.wf()
                    &&& t.parts@ == blocks@.map(|i: int, b: Block| b@)
                    &&& t@ == map_of(concat_recs(blocks@.map(|i: int, b: Block| b@)))
                },
                Err(e) => {
                    &&& e == Error::Codec
                    &&& enc_index(index_entries(blocks@.map(|i: int, b: Block| b@))).len()
                        > max_index_size()
                },
            },
    {
        let ghost parts = blocks@.map(|i: int, b: Block| b@);
        proof {
            lemma_sorted_concat_pairwise(parts);
            assert(parts.take(0) =~~= Seq::<Seq<(Seq<u8>, Seq<u8>)>>::empty());
            vstd::std_specs::vec::axiom_spec_len(blocks);
            assert forall|j: int| 0 <= j < parts.len() implies (#[trigger] parts[j]).len()
                <= usize::MAX && size_of(parts[j]) <= usize::MAX && parts[j].len() > 0 by {
                assert(parts[j] == blocks@[j]@);
                vstd::std_specs::vec::axiom_spec_len(&blocks@[j].content);
                assert(blocks@[j]@.len() == blocks@[j].content@.len());
                assert(blocks@[j].wf());
            }
            assert forall|j: int, l: int|
                0 <= j < parts.len() && 0 <= l < parts[j].len() implies (#[trigger] parts[j][l]).0.len()
                <= usize::MAX && parts[j][l].1.len() <= usize::MAX by {
                assert(parts[j] == blocks@[j]@);
                assert(parts[j][l] == (blocks@[j].content@[l].k@, blocks@[j].content@[l].v@));
                vstd::std_specs::vec::axiom_spec_len(&blocks@[j].content@[l].k);
                vstd::std_specs::vec::axiom_spec_len(&blocks@[j].content@[l].v);
            }
            assert(parts_wf(parts));
        }
        let mut idx = IndexBlock::new();
        let mut out: Vec<u8> = Vec::new();
        let mut i: usize = 0;
        while i < blocks.len()
            invariant
                forall|j: int| 0 <= j < blocks@.len() ==> (#[trigger] blocks@[j]).wf(),
                forall|j: int| 0 <= j < blocks@.len() ==> (#[trigger] blocks@[j])@.len() > 0,
                parts == blocks@.map(|j: int, b: Block| b@),
                parts_wf(parts),
                i <= blocks@.len(),
                out@ == blocks_bytes(parts.take(i as int)),
                idx.wf(),
                idx@ =~~= index_entries(parts).subrange(0, i as int),
            decreases blocks@.len() - i,
        {
            let off = out.len();
            proof {
                assert(parts[i as int] == blocks@[i as int]@);
                lemma_take_succ(parts, i as int);
                lemma_enc_block_min_len(parts[i as int]);
                if i > 0 {
                    lemma_take_succ(parts, i - 1);
                    lemma_enc_block_min_len(parts[i - 1]);
                    assert(idx@.last() == (parts[i - 1][0].0, block_off(parts, i - 1) as u64));
                    assert(block_off(parts, i - 1) + 8 <= block_off(parts, i as int));
                    assert(lex_lt(parts[i - 1][0].0, parts[i as int][0].0));
                }
            }
            match blocks[i].first_key() {
                Some(fk) => {
                    idx.insert(fk, off as u64);
                },
                None => {
                    proof {
                        assert(false);
                    }
                },
            }
            encode_block(&blocks[i], &mut out);
            proof {
                assert(idx@ =~~= index_entries(parts).subrange(0, i + 1));
            }
            i = i + 1;
        }
        proof {
            assert(parts.take(parts.len() as int) =~~= parts);
            assert(idx@ =~~= index_entries(parts));
        }
        let ib_start = out.len();
        encode_index(&idx, &mut out);
        let isize = out.len() - ib_start;
        if isize as u64 > 0x7fff_ffff_ffff_ffffu64 {
            return Err(Error::Codec);
        }
        let trailer = u64_to_le_bytes(isize as u64);
        out.extend_from_slice(trailer.as_slice());
        proof {
            assert(out@ =~= sst_image(parts));
        }
        Ok(SSTable { data: out, idx: None, parts: Ghost(parts) })
    }

    /// Looks `key` up in the image: loads and caches the index on
    /// first use, locates the candidate block through the index, and
    /// binary-searches that block.  `NotFound` exactly when the key is
    /// absent.
    pub fn get(&mut self, key: &[u8]) -> (r: Result<Vec<u8>, Error>)
        requires
            old(self).wf(),
        ensures
            final(self).wf(),
            final(self).parts == old(self).parts,
            final(self).data == old(self).data,
            match r {
                Ok(v) => old(self)@.contains_key(key@) && v@ == old(self)@[key@],
                Err(e) => e == Error::NotFound && !old(self)@.contains_key(key@),
            },
    {
        let ghost parts = self.parts@;
        let ghost entries = index_entries(parts);
        let ghost ibytes = enc_index(entries);
        let n = self.data.len();
        proof {
            lemma_auto_spec_u64_to_from_le_bytes();
            assert(blocks_bytes(parts).len() <= n);
            assert(ibytes.len() <= n);
            lemma_index_entries_sorted(parts);
        }
        if self.idx.is_none() {
            proof {
                assert(self.data@.subrange(n - 8, n as int) =~= enc_u64(ibytes.len() as u64));
            }
            let tr = u64_from_le_bytes(slice_subrange(self.data.as_slice(), n - 8, n));
            let isize = tr as usize;
            let istart = n - 8 - isize;
            proof {
                assert(self.data@.subrange(istart as int, istart + ibytes.len()) =~= ibytes);
                lemma_index_recs_roundtrip(entries);
                lemma_enc_recs_size(index_recs(entries));
                lemma_dec_block_of_enc(self.data@, istart as int, index_recs(entries));
            }
            match decode_index(self.data.as_slice(), istart) {
                Ok(p) => {
                    let (ib, _end) = p;
                    proof {
                        assert(ib@ =~~= entries);
                    }
                    self.idx = Some(ib);
                },
                Err(_) => {
                    proof {
                        assert(false);
                    }
                    return Err(Error::NotFound);
                },
            }
        }
        let off_opt = match &self.idx {
            Some(ib) => ib.get_offset_for(key),
            None => {
                proof {
                    assert(false);
                }
                return Err(Error::NotFound);
            },
        };
        proof {
            lemma_lookup_pos_props(entries, key@);
        }
        let ghost p = lookup_pos(entries, key@);
        match off_opt {
            None => {
                proof {
                    if parts.len() > 0 {
                        assert(lex_lt(key@, entries[0].0));
                    }
                    lemma_parts_lookup_none(parts, key@);
                }
                Err(Error::NotFound)
            },
            Some(off) => {
                proof {
                    assert(off == entries[p].1);
                    assert(!lex_lt(key@, parts[p][0].0));
                    if p + 1 < parts.len() {
                        assert(lex_lt(key@, entries[p + 1].0));
                    }
                    lemma_block_region(parts, p);
                    assert(block_off(parts, p) <= blocks_bytes(parts).len() <= usize::MAX);
                    assert(off == block_off(parts, p) as u64);
                    assert(self.data@.subrange(
                        block_off(parts, p),
                        block_off(parts, p) + enc_block(parts[p]).len(),
                    ) =~= enc_block(parts[p]));
                    lemma_dec_block_of_enc(self.data@, block_off(parts, p), parts[p]);
                    lemma_parts_lookup(parts, key@, p);
                }
                let bres = decode_block(self.data.as_slice(), off as usize);
                match bres {
                    Ok(bp) => {
                        let (blk, _end) = bp;
                        proof {
                            assert(blk@ == parts[p]);
                            assert(blk.wf());
                        }
                        match blk.get(key) {
                            Some(v) => Ok(v),
                            None => Err(Error::NotFound),
                        }
                    },
                    Err(_) => {
                        proof {
                            lemma_size_of_nonneg(parts[p]);
                            assert(false);
                        }
                        Err(Error::NotFound)
                    },
                }
            },
        }
    }
}

/// The concatenated encoding of records is at least as long as their
/// accounted size, so a representable encoding bounds the size.
pub proof fn lemma_enc_recs_size(s: Seq<(Seq<u8>, Seq<u8>)>)
    ensures
        enc_recs(s).len() == 16 * s.len() + size_of(s),
        s.len() <= enc_recs(s).len(),
        size_of(s) <= enc_recs(s).len(),
    decreases s.len(),
{
    lemma_auto_spec_u64_to_from_le_bytes();
    if s.len() > 0 {
        lemma_enc_recs_size(s.drop_first());
        lemma_size_of_drop_first(s);
        lemma_size_of_nonneg(s.drop_first());
    }
}

/// The accounted size peels off the first record as well as the last.
pub proof fn lemma_size_of_drop_first(s: Seq<(Seq<u8>, Seq<u8>)>)
    requires
        s.len() > 0,
    ensures
        size_of(s) == s[0].0.len() + s[0].1.len() + size_of(s.drop_first()),
    decreases s.len(),
{
    if s.len() == 1 {
        assert(s.drop_first() =~~= Seq::<(Seq<u8>, Seq<u8>)>::empty());
        assert(s.drop_last() =~~= Seq::<(Seq<u8>, Seq<u8>)>::empty());
    } else {
        lemma_size_of_drop_first(s.drop_last());
        assert(s.drop_last()[0] == s[0]);
        assert(s.drop_last().drop_first() =~~= s.drop_first().drop_last());
        assert(s.drop_first().last() == s.last());
    }
}

/// A sorted concatenation orders its partition: records are sorted
/// within each block and wholly ordered across blocks.
pub proof fn lemma_sorted_concat_pairwise(parts: Seq<Seq<(Seq<u8>, Seq<u8>)>>)
    requires
        sorted_strict(concat_recs(parts)),
    ensures
        forall|j: int, l1: int, l2: int|
            0 <= j < parts.len() && 0 <= l1 < l2 < parts[j].len() ==> lex_lt(
                (#[trigger] parts[j][l1]).0,
                (#[trigger] parts[j][l2]).0,
            ),
        forall|j1: int, l1: int, j2: int, l2: int|
            0 <= j1 < j2 < parts.len() && 0 <= l1 < parts[j1].len() && 0 <= l2 < parts[j2].len()
                ==> lex_lt((#[trigger] parts[j1][l1]).0, (#[trigger] parts[j2][l2]).0),
{
    let cc = concat_recs(parts);
    assert forall|j: int, l1: int, l2: int|
        0 <= j < parts.len() && 0 <= l1 < l2 < parts[j].len() implies lex_lt(
        (#[trigger] parts[j][l1]).0,
        (#[trigger] parts[j][l2]).0,
    ) by {
        lemma_concat_index(parts, j, l1);
        lemma_concat_index(parts, j, l2);
    }
    assert forall|j1: int, l1: int, j2: int, l2: int|
        0 <= j1 < j2 < parts.len() && 0 <= l1 < parts[j1].len() && 0 <= l2
            < parts[j2].len() implies lex_lt(
        (#[trigger] parts[j1][l1]).0,
        (#[trigger] parts[j2][l2]).0,
    ) by {
        lemma_concat_index(parts, j1, l1);
        lemma_concat_index(parts, j2, l2);
        lemma_take_succ(parts, j1);
        lemma_part_start_mono(parts, j1 + 1, j2);
    }
}

/// Where block `j` begins within the concatenated records.
pub open spec fn part_start(parts: Seq<Seq<(Seq<u8>, Seq<u8>)>>, j: int) -> int {
    concat_recs(parts.take(j)).len() as int
}

/// Record starts never decrease along the partition.
pub proof fn lemma_part_start_mono(parts: Seq<Seq<(Seq<u8>, Seq<u8>)>>, a: int, b: int)
    requires
        0 <= a <= b <= parts.len(),
    ensures
        part_start(parts, a) <= part_start(parts, b),
    decreases b - a,
{
    if a < b {
        lemma_take_succ(parts, b - 1);
        lemma_part_start_mono(parts, a, b - 1);
    }
}

/// The record at offset `l` of block `j` sits at position
/// `part_start(j) + l` of the concatenation.
pub proof fn lemma_concat_index(parts: Seq<Seq<(Seq<u8>, Seq<u8>)>>, j: int, l: int)
    requires
        0 <= j < parts.len(),
        0 <= l < parts[j].len(),
    ensures
        part_start(parts, j) + parts[j].len() <= concat_recs(parts).len(),
        0 <= part_start(parts, j) + l < concat_recs(parts).len(),
        concat_recs(parts)[part_start(parts, j) + l] == parts[j][l],
    decreases parts.len(),
{
    lemma_concat_nonneg(parts.take(j));
    if j == parts.len() - 1 {
        assert(parts.take(j) =~~= parts.drop_last());
    } else {
        assert(parts.drop_last().take(j) =~~= parts.take(j));
        assert(parts.drop_last()[j] == parts[j]);
        lemma_concat_index(parts.drop_last(), j, l);
    }
}

/// Concatenation lengths are not negative.
pub proof fn lemma_concat_nonneg(parts: Seq<Seq<(Seq<u8>, Seq<u8>)>>)
    ensures
        concat_recs(parts).len() >= 0,
{
}

} // verus!
