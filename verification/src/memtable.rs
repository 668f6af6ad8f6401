//! The in-memory table that absorbs writes.
//!
//! A memtable is an ordered map from key bytes to value bytes with a
//! running serialized-size estimate.  Insertions overwrite earlier
//! values for the same key; the estimate only grows, so it over-counts
//! on overwrites — accepted as a conservative flush trigger.
//! `to_blocks` drains the table, in ascending key order, into blocks
//! bounded by a block size.

use vstd::prelude::*;
use vstd::slice::slice_to_vec;
use crate::keys::{lex_lt, lemma_lex_trichotomy, lemma_lex_transitive, key_cmp, KeyOrder};
use crate::kv::{KVPair, map_of, sorted_strict, lemma_sorted_distinct, lemma_map_of_contains,
lemma_map_of_index, lemma_map_of_update, lemma_map_of_insert_at};
use crate::block::{Block, size_of, lemma_size_of_nonneg};

verus! {

/// The in-memory ordered table, kept as a vector of records sorted
/// strictly by key.
pub struct Memtable {
    pub table: Vec<KVPair>,
    pub len: usize,
    pub block_size: usize,
}

/// The records a sequence of pairs holds, as views.
pub open spec fn recs_of(t: Seq<KVPair>) -> Seq<(Seq<u8>, Seq<u8>)> {
    t.map(|i: int, p: KVPair| (p.k@, p.v@))
}

/// The concatenation of a sequence of record runs.
pub open spec fn concat_recs(parts: Seq<Seq<(Seq<u8>, Seq<u8>)>>) -> Seq<(Seq<u8>, Seq<u8>)>
    decreases parts.len(),
{
    if parts.len() == 0 {
        Seq::empty()
    } else {
        concat_recs(parts.drop_last()) + parts.last()
    }
}

impl View for Memtable {
    type V = Map<Seq<u8>, Seq<u8>>;

    open spec fn view(&self) -> Map<Seq<u8>, Seq<u8>> {
        map_of(self.entries())
    }
}

impl Memtable {
    /// The table's records in ascending key order.
    pub open spec fn entries(&self) -> Seq<(Seq<u8>, Seq<u8>)> {
        recs_of(self.table@)
    }

    /// A memtable is well formed when its records are strictly sorted
    /// by key and each record's length is representable.
    pub open spec fn wf(&self) -> bool {
        &&& sorted_strict(self.entries())
        &&& forall|i: int|
            0 <= i < self.entries().len() ==> self.entries()[i].0.len()
                + self.entries()[i].1.len() <= usize::MAX
    }

    /// An empty memtable that will pack flushed records into blocks of
    /// at most `block_size` bytes.
    pub fn new(block_size: usize) -> (r: Memtable)
        ensures
            r.wf(),
            r@ == Map::<Seq<u8>, Seq<u8>>::empty(),
            r.entries() == Seq::<(Seq<u8>, Seq<u8>)>::empty(),
            r.len == 0,
            r.block_size == block_size,
    {
        let r = Memtable { table: Vec::new(), len: 0, block_size };
        proof {
            assert(r.entries() =~= Seq::<(Seq<u8>, Seq<u8>)>::empty());
        }
        r
    }

    /// Position of the first record whose key is not below `key`.
    fn lower_bound(&self, key: &[u8]) -> (r: usize)
        requires
            self.wf(),
        ensures
            r <= self.entries().len(),
            forall|i: int| 0 <= i < r ==> lex_lt(self.entries()[i].0, key@),
            forall|i: int| r <= i < self.entries().len() ==> !lex_lt(self.entries()[i].0, key@),
    {
        let ghost s = self.entries();
        let mut lo: usize = 0;
        let mut hi: usize = self.table.len();
        while lo < hi
            invariant
                self.wf(),
                s == self.entries(),
                lo <= hi <= s.len(),
                forall|i: int| 0 <= i < lo ==> lex_lt(s[i].0, key@),
                forall|i: int| hi <= i < s.len() ==> !lex_lt(s[i].0, key@),
            decreases hi - lo,
        {
            let mid = lo + (hi - lo) / 2;
            match key_cmp(self.table[mid].k.as_slice(), key) {
                KeyOrder::Less => {
                    proof {
                        assert forall|i: int| 0 <= i < mid + 1 implies lex_lt(s[i].0, key@) by {
                            if i < mid {
                                lemma_lex_transitive(s[i].0, s[mid as int].0, key@);
                            }
                        }
                    }
                    lo = mid + 1;
                },
                _ => {
                    proof {
                        assert forall|i: int| mid <= i < s.len() implies !lex_lt(s[i].0, key@) by {
                            lemma_lex_trichotomy(s[mid as int].0, key@);
                            if i > mid {
                                lemma_lex_trichotomy(s[i].0, key@);
                                if lex_lt(s[i].0, key@) {
                                    lemma_lex_transitive(s[mid as int].0, s[i].0, key@);
                                }
                            }
                        }
                    }
                    hi = mid;
                },
            }
        }
        lo
    }

    /// Inserts `key → value`, overwriting any earlier value for the
    /// key, and grows the size estimate by the record's length,
    /// saturating at the largest representable size.  Returns the
    /// value the key was bound to before, if any.
    pub fn insert(&mut self, k: &[u8], v: &[u8]) -> (r: Option<Vec<u8>>)
        requires
            old(self).wf(),
            k@.len() + v@.len() <= usize::MAX,
        ensures
            final(self).wf(),
            final(self)@ == old(self)@.insert(k@, v@),
            final(self).block_size == old(self).block_size,
            final(self).len == if old(self).len + k@.len() + v@.len() <= usize::MAX {
                old(self).len + k@.len() + v@.len()
            } else {
                usize::MAX as int
            },
            match r {
                Some(w) => old(self)@.contains_key(k@) && w@ == old(self)@[k@],
                None => !old(self)@.contains_key(k@),
            },
    {
        let ghost s = self.entries();
        let pos = self.lower_bound(k);
        let pair_len = k.len() + v.len();
        if self.len > usize::MAX - pair_len {
            self.len = usize::MAX;
        } else {
            self.len = self.len + pair_len;
        }
        let mut found = false;
        if pos < self.table.len() {
            match key_cmp(self.table[pos].k.as_slice(), k) {
                KeyOrder::Equal => {
                    found = true;
                },
                _ => {},
            }
        }
        if found {
            let prior = self.table.remove(pos);
            self.table.insert(pos, KVPair::new(k, v));
            proof {
                lemma_sorted_distinct(s);
                assert(self.entries() =~= s.update(pos as int, (k@, v@)));
                lemma_map_of_update(s, pos as int, k@, v@);
                lemma_map_of_index(s, pos as int);
                assert forall|i: int, j: int|
                    0 <= i < j < self.entries().len() implies lex_lt(
                    self.entries()[i].0,
                    self.entries()[j].0,
                ) by {
                    assert(s[i].0 == self.entries()[i].0 || i == pos);
                    assert(s[j].0 == self.entries()[j].0 || j == pos);
                }
            }
            Some(prior.v)
        } else {
            proof {
                assert forall|j: int| 0 <= j < s.len() implies s[j].0 != k@ by {
                    lemma_lex_trichotomy(s[j].0, k@);
                    if j >= pos && s[j].0 == k@ {
                        assert(j != pos);
                        assert(lex_lt(s[pos as int].0, s[j].0));
                    }
                }
                lemma_map_of_contains(s, k@);
            }
            self.table.insert(pos, KVPair::new(k, v));
            proof {
                assert(self.entries() =~= s.insert(pos as int, (k@, v@)));
                lemma_map_of_insert_at(s, pos as int, k@, v@);
                assert forall|i: int, j: int|
                    0 <= i < j < self.entries().len() implies lex_lt(
                    self.entries()[i].0,
                    self.entries()[j].0,
                ) by {
                    let t = self.entries();
                    if i == pos {
                        assert(t[j] == s[j - 1]);
                        assert(!lex_lt(s[j - 1].0, k@));
                        lemma_lex_trichotomy(s[j - 1].0, k@);
                    } else if j == pos {
                        assert(t[i] == s[i]);
                    } else if i < pos && j > pos {
                        assert(t[i] == s[i]);
                        assert(t[j] == s[j - 1]);
                    } else if j < pos {
                        assert(t[i] == s[i]);
                        assert(t[j] == s[j]);
                    } else {
                        assert(t[i] == s[i - 1]);
                        assert(t[j] == s[j - 1]);
                    }
                }
            }
            None
        }
    }

    /// Looks the key up.
    pub fn get(&self, key: &[u8]) -> (r: Option<Vec<u8>>)
        requires
            self.wf(),
        ensures
            match r {
                Some(v) => self@.contains_key(key@) && v@ == self@[key@],
                None => !self@.contains_key(key@),
            },
    {
        let ghost s = self.entries();
        let pos = self.lower_bound(key);
        if pos < self.table.len() {
            match key_cmp(self.table[pos].k.as_slice(), key) {
                KeyOrder::Equal => {
                    proof {
                        lemma_sorted_distinct(s);
                        lemma_map_of_index(s, pos as int);
                    }
                    return Some(slice_to_vec(self.table[pos].v.as_slice()));
                },
                _ => {},
            }
        }
        proof {
            lemma_map_of_contains(s, key@);
            assert forall|i: int| 0 <= i < s.len() implies s[i].0 != key@ by {
                lemma_lex_trichotomy(s[i].0, key@);
                if i >= pos && s[i].0 == key@ {
                    assert(i != pos);
                    assert(lex_lt(s[pos as int].0, s[i].0));
                }
            }
        }
        None
    }

    /// Drains the table, in ascending key order, into non-empty blocks:
    /// a new block starts when adding the next record would push the
    /// current block's size past `block_size`.  Every produced block
    /// stays within `block_size` unless a single record alone exceeds
    /// it, in which case that record sits alone in its block.
    pub fn to_blocks(&self) -> (r: Vec<Block>)
        requires
            self.wf(),
        ensures
            r@.map(|i: int, b: Block| b@) == pack(self.entries(), self.block_size as int),
            concat_recs(r@.map(|i: int, b: Block| b@)) == self.entries(),
            forall|i: int| 0 <= i < r@.len() ==> (#[trigger] r@[i]).wf(),
            forall|i: int| 0 <= i < r@.len() ==> (#[trigger] r@[i])@.len() > 0,
            forall|i: int|
                0 <= i < r@.len() ==> (#[trigger] r@[i]).len <= self.block_size || r@[i]@.len()
                    == 1,
    {
        let ghost s = self.entries();
        let ghost bs = self.block_size as int;
        let mut blocks: Vec<Block> = Vec::new();
        let mut b = Block::new();
        let mut j: usize = 0;
        proof {
            assert(blocks@.map(|i: int, bl: Block| bl@) =~~= Seq::<Seq<(Seq<u8>, Seq<u8>)>>::empty());
        }
        while j < self.table.len()
            invariant
                self.wf(),
                s == self.entries(),
                j <= s.len(),
                b.wf(),
                concat_recs(blocks@.map(|i: int, bl: Block| bl@)) + b@ =~~= s.subrange(
                    0,
                    j as int,
                ),
                b@.len() > 0 ==> 1 <= j && b@.last() == s[j - 1],
                b.len <= self.block_size || b@.len() == 1,
                forall|i: int| 0 <= i < blocks@.len() ==> (#[trigger] blocks@[i]).wf(),
                forall|i: int| 0 <= i < blocks@.len() ==> (#[trigger] blocks@[i])@.len() > 0,
                forall|i: int|
                    0 <= i < blocks@.len() ==> (#[trigger] blocks@[i]).len <= self.block_size
                        || blocks@[i]@.len() == 1,
                bs == self.block_size as int,
                pack(s, bs) == pack_from(s, j as int, b@, blocks@.map(|i: int, bl: Block| bl@), bs),
            decreases s.len() - j,
        {
            let ghost done = concat_recs(blocks@.map(|i: int, bl: Block| bl@));
            proof {
                assert(s[j as int] == (self.table@[j as int].k@, self.table@[j as int].v@));
                assert(s[j as int].0.len() + s[j as int].1.len() <= usize::MAX);
            }
            let pair_len = self.table[j].k.len() + self.table[j].v.len();
            if b.content.len() > 0 && (pair_len > self.block_size || b.len > self.block_size
                - pair_len) {
                let ghost prev = blocks@;
                let ghost prevm = prev.map(|i: int, bl: Block| bl@);
                let full = b;
                b = Block::new();
                blocks.push(full);
                proof {
                    assert(size_of(full@) + (s[j as int].0.len() + s[j as int].1.len())
                        > self.block_size);
                    assert(pack_from(s, j as int, full@, prevm, bs) == pack_from(
                        s,
                        j + 1,
                        seq![s[j as int]],
                        prevm.push(full@),
                        bs,
                    ));
                    assert(blocks@.map(|i: int, bl: Block| bl@) =~~= prevm.push(full@));
                    let m = blocks@.map(|i: int, bl: Block| bl@);
                    assert(m.drop_last() =~= prev.map(|i: int, bl: Block| bl@));
                    assert(m.last() == full@);
                    assert(concat_recs(m) == concat_recs(prev.map(|i: int, bl: Block| bl@))
                        + full@);
                    assert(concat_recs(m) =~~= s.subrange(0, j as int));
                }
            }
            let pair = KVPair::new(self.table[j].k.as_slice(), self.table[j].v.as_slice());
            proof {
                lemma_size_of_nonneg(b@);
                if b@.len() > 0 {
                    assert(b.len <= self.block_size);
                    assert(b@.last() == s[j - 1]);
                    assert(lex_lt(s[j - 1].0, s[j as int].0));
                }
            }
            let ghost bprev = b@;
            let ghost t = (pair.k@, pair.v@);
            b.insert(pair);
            proof {
                let cm = concat_recs(blocks@.map(|i: int, bl: Block| bl@));
                assert(b@ == bprev.push(t));
                assert(t == s[j as int]);
                assert(cm + bprev =~~= s.subrange(0, j as int));
                assert(cm + bprev.push(t) =~~= (cm + bprev).push(t));
                assert(s.subrange(0, j as int).push(s[j as int]) =~~= s.subrange(0, j + 1));
                assert(cm + b@ =~~= s.subrange(0, j + 1));
                let m = blocks@.map(|i: int, bl: Block| bl@);
                assert(b@ =~~= bprev.push(t));
                if bprev.len() == 0 {
                    assert(seq![s[j as int]] =~~= bprev.push(t));
                }
                if bprev.len() == 0 || size_of(bprev) + (s[j as int].0.len()
                    + s[j as int].1.len()) <= bs {
                    assert(pack_from(s, j as int, bprev, m, bs) == pack_from(
                        s,
                        j + 1,
                        bprev.push(t),
                        m,
                        bs,
                    ));
                }
                assert(pack(s, bs) == pack_from(s, j + 1, b@, m, bs));
            }
            j = j + 1;
        }
        if b.content.len() > 0 {
            let ghost prev = blocks@;
            let ghost bfin = b@;
            blocks.push(b);
            proof {
                assert(blocks@.map(|i: int, bl: Block| bl@).drop_last() =~= prev.map(
                    |i: int, bl: Block| bl@,
                ));
                assert(blocks@.map(|i: int, bl: Block| bl@) =~~= prev.map(
                    |i: int, bl: Block| bl@,
                ).push(bfin));
                assert(concat_recs(blocks@.map(|i: int, bl: Block| bl@)) =~~= s);
                assert(blocks@.map(|i: int, bl: Block| bl@) == pack(s, bs));
            }
        } else {
            proof {
                assert(concat_recs(blocks@.map(|i: int, bl: Block| bl@)) =~~= s);
                assert(blocks@.map(|i: int, bl: Block| bl@) == pack(s, bs));
            }
        }
        blocks
    }
}

/// The greedy packing of sorted records into blocks, mirrored as a
/// function: `cur` is the block being filled, `acc` the blocks already
/// closed.
pub open spec fn pack_from(
    entries: Seq<(Seq<u8>, Seq<u8>)>,
    i: int,
    cur: Seq<(Seq<u8>, Seq<u8>)>,
    acc: Seq<Seq<(Seq<u8>, Seq<u8>)>>,
    bs: int,
) -> Seq<Seq<(Seq<u8>, Seq<u8>)>>
    decreases entries.len() - i,
{
    if i < 0 || i >= entries.len() {
        if cur.len() > 0 {
            acc.push(cur)
        } else {
            acc
        }
    } else {
        let p = entries[i];
        let pl = p.0.len() + p.1.len();
        if cur.len() > 0 && size_of(cur) + pl > bs {
            pack_from(entries, i + 1, seq![p], acc.push(cur), bs)
        } else {
            pack_from(entries, i + 1, cur.push(p), acc, bs)
        }
    }
}

/// The partition of sorted records into blocks of at most `bs` bytes,
/// as `to_blocks` produces it.
pub open spec fn pack(entries: Seq<(Seq<u8>, Seq<u8>)>, bs: int) -> Seq<Seq<(Seq<u8>, Seq<u8>)>> {
    pack_from(entries, 0, Seq::empty(), Seq::empty(), bs)
}

} // verus!
