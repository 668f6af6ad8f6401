//! The database: write-ahead log, memtable, and the SSTable stack.
//!
//! A write is appended to the log first; then, when the memtable
//! would outgrow its threshold, the table is flushed into a fresh
//! SSTable pushed onto the stack and replaced by an empty one, and the
//! binding is laid into the memtable.  A read consults the memtable,
//! then the SSTables from newest to oldest.
//!
//! The database's view is one map: the memtable laid over the stack,
//! newer tables over older ones.  `set` makes the view gain exactly
//! one binding and `get` reads the view, whether or not flushes
//! happened in between; a flush never changes the view.  As long as
//! every logged record has been applied, the log replays to exactly
//! the view — and after the one failure a set can meet (a flush whose
//! index outgrows its trailer), the log still holds the write, so a
//! restart's replay recovers it.

use vstd::prelude::*;
use crate::kv::map_of;
use crate::memtable::{Memtable, pack};
use crate::wal::{Log, wal_records, recs_bounded};
use crate::sstable::{SSTable, index_entries, max_index_size};
use crate::index::enc_index;
use crate::Error;

verus! {

/// Configuration for one database instance.
pub struct DatabaseConfig {
    pub memtable_size: usize,
    pub block_size: usize,
    pub name: String,
    pub data_dir: String,
}

/// The stack of SSTable views folded into one map, newer tables
/// overriding older ones.
pub open spec fn stack_map(ms: Seq<Map<Seq<u8>, Seq<u8>>>) -> Map<Seq<u8>, Seq<u8>>
    decreases ms.len(),
{
    if ms.len() == 0 {
        Map::empty()
    } else {
        stack_map(ms.drop_last()).union_prefer_right(ms.last())
    }
}

/// A key no table holds is absent from the folded stack.
pub proof fn lemma_stack_map_none(ms: Seq<Map<Seq<u8>, Seq<u8>>>, k: Seq<u8>)
    requires
        forall|j: int| 0 <= j < ms.len() ==> !(#[trigger] ms[j]).contains_key(k),
    ensures
        !stack_map(ms).contains_key(k),
    decreases ms.len(),
{
    if ms.len() > 0 {
        assert forall|j: int| 0 <= j < ms.drop_last().len() implies !(
        #[trigger] ms.drop_last()[j]).contains_key(k) by {
            assert(ms.drop_last()[j] == ms[j]);
        }
        lemma_stack_map_none(ms.drop_last(), k);
    }
}

/// The newest table holding a key decides its value in the folded
/// stack.
pub proof fn lemma_stack_map_hit(ms: Seq<Map<Seq<u8>, Seq<u8>>>, k: Seq<u8>, i: int)
    requires
        0 <= i < ms.len(),
        ms[i].contains_key(k),
        forall|j: int| i < j < ms.len() ==> !(#[trigger] ms[j]).contains_key(k),
    ensures
        stack_map(ms).contains_key(k),
        stack_map(ms)[k] == ms[i][k],
    decreases ms.len(),
{
    if i == ms.len() - 1 {
    } else {
        assert(ms.drop_last()[i] == ms[i]);
        assert forall|j: int| i < j < ms.drop_last().len() implies !(
        #[trigger] ms.drop_last()[j]).contains_key(k) by {
            assert(ms.drop_last()[j] == ms[j]);
        }
        lemma_stack_map_hit(ms.drop_last(), k, i);
        assert(!ms.last().contains_key(k));
    }
}

/// The engine: log, memtable, and the SSTable stack, oldest first.
pub struct Database {
    pub conf: DatabaseConfig,
    pub logfile: Log,
    pub memtable: Memtable,
    pub sstables: Vec<SSTable>,
    /// Whether every record in the log has reached the visible state:
    /// true until a failed flush leaves a logged write unapplied; a
    /// restart's replay makes log and state agree again.
    pub applied: Ghost<bool>,
}

impl View for Database {
    type V = Map<Seq<u8>, Seq<u8>>;

    open spec fn view(&self) -> Map<Seq<u8>, Seq<u8>> {
        stack_map(self.sstables@.map(|i: int, t: SSTable| t@)).union_prefer_right(self.memtable@)
    }
}

/// Whether a write of `k`, `v` would push the memtable past its
/// threshold and so forces a flush first.
pub open spec fn flush_needed(db: &Database, k: Seq<u8>, v: Seq<u8>) -> bool {
    db.memtable.len + k.len() + v.len() > db.conf.memtable_size
}

/// Whether flushing the memtable now would produce an index too large
/// for the signed trailer — the one way a flush can fail.
pub open spec fn flush_overflows(db: &Database) -> bool {
    enc_index(index_entries(pack(db.memtable.entries(), db.conf.block_size as int))).len()
        > max_index_size()
}

impl Database {
    /// Every component in shape: a positive threshold, a well-formed
    /// memtable packing to the configured block size, a well-formed
    /// log, and well-formed SSTables.
    pub open spec fn components_wf(&self) -> bool {
        &&& self.conf.memtable_size > 0
        &&& self.memtable.wf()
        &&& self.memtable.block_size == self.conf.block_size
        &&& self.logfile.wf()
        &&& forall|i: int| 0 <= i < self.sstables@.len() ==> (#[trigger] self.sstables@[i]).wf()
    }

    /// The database invariant: the components are well formed and, as
    /// long as every logged record has been applied, the log replays
    /// to exactly the visible state.
    pub open spec fn wf(&self) -> bool {
        &&& self.components_wf()
        &&& self.applied@ ==> map_of(self.logfile.recs@) == self@
    }

    /// Opens a fresh, empty database.  Rejects a configuration with a
    /// zero memtable threshold.
    pub fn new(conf: DatabaseConfig) -> (r: Result<Database, Error>)
        ensures
            match r {
                Ok(db) => {
                    &&& conf.memtable_size > 0
                    &&& db.wf()
                    &&& db@ == Map::<Seq<u8>, Seq<u8>>::empty()
                    &&& db.conf == conf
                    &&& db.logfile.recs@ == Seq::<(Seq<u8>, Seq<u8>)>::empty()
                    &&& db.sstables@.len() == 0
                    &&& db.memtable@ == Map::<Seq<u8>, Seq<u8>>::empty()
                    &&& db.memtable.len == 0
                    &&& db.applied@ == true
                },
                Err(e) => e == Error::Config && conf.memtable_size == 0,
            },
    {
        if conf.memtable_size == 0 {
            return Err(Error::Config);
        }
        let block_size = conf.block_size;
        let db = Database {
            conf,
            logfile: Log::new(),
            memtable: Memtable::new(block_size),
            sstables: Vec::new(),
            applied: Ghost(true),
        };
        proof {
            assert(db.sstables@.map(|i: int, t: SSTable| t@) =~~= Seq::<
                Map<Seq<u8>, Seq<u8>>,
            >::empty());
            assert(db@ =~= Map::<Seq<u8>, Seq<u8>>::empty());
        }
        Ok(db)
    }

    /// Serializes the memtable into a fresh SSTable: the ordered
    /// records are packed into blocks, each block's first key and
    /// offset is recorded in the index, and blocks, index and trailer
    /// are laid out as one image.  Fails only when the index would not
    /// fit the signed trailer.
    pub fn serialize_memtable(&self) -> (r: Result<SSTable, Error>)
        requires
            self.components_wf(),
        ensures
            match r {
                Ok(t) => {
                    &&& t.wf()
                    &&& t@ == self.memtable@
                    &&& t.parts@ == pack(
                        self.memtable.entries(),
                        self.conf.block_size as int,
                    )
                    &&& !flush_overflows(self)
                },
                Err(e) => e == Error::Codec && flush_overflows(self),
            },
    {
        let blocks = self.memtable.to_blocks();
        match SSTable::build(&blocks) {
            Ok(t) => {
                proof {
                    assert(t@ =~= self.memtable@);
                }
                Ok(t)
            },
            Err(e) => Err(e),
        }
    }

    /// Flushes the memtable into a fresh SSTable pushed onto the stack
    /// and replaces the memtable with an empty one.  The visible state
    /// does not change.  On failure — only an index too large for the
    /// trailer — the database is untouched.
    pub fn flush(&mut self) -> (r: Result<(), Error>)
        requires
            old(self).components_wf(),
        ensures
            final(self).components_wf(),
            old(self).wf() ==> final(self).wf(),
            final(self)@ == old(self)@,
            final(self).conf == old(self).conf,
            final(self).logfile == old(self).logfile,
            final(self).applied == old(self).applied,
            match r {
                Ok(_) => {
                    &&& !flush_overflows(old(self))
                    &&& final(self).memtable@ == Map::<Seq<u8>, Seq<u8>>::empty()
                    &&& final(self).memtable.len == 0
                    &&& final(self).sstables@.len() == old(self).sstables@.len() + 1
                    &&& final(self).sstables@.last()@ == old(self).memtable@
                    &&& forall|i: int|
                        0 <= i < old(self).sstables@.len() ==> final(self).sstables@[i] == old(
                            self,
                        ).sstables@[i]
                },
                Err(e) => {
                    &&& e == Error::Codec
                    &&& flush_overflows(old(self))
                    &&& *final(self) == *old(self)
                },
            },
    {
        let t = match self.serialize_memtable() {
            Ok(t) => t,
            Err(e) => {
                return Err(e);
            },
        };
        let ghost oldstack = self.sstables@.map(|i: int, t2: SSTable| t2@);
        self.sstables.push(t);
        self.memtable = Memtable::new(self.conf.block_size);
        proof {
            let newstack = self.sstables@.map(|i: int, t2: SSTable| t2@);
            assert(newstack.drop_last() =~~= oldstack);
            assert(newstack.last() == t@);
            assert(self@ =~= stack_map(oldstack).union_prefer_right(t@));
            assert(self@ =~= old(self)@);
        }
        Ok(())
    }

    /// Sets `key` to `value`: the record is appended to the log
    /// first; then, when the table would outgrow its threshold, the
    /// memtable is flushed, and the binding is laid into it.  On the
    /// one failure a set can meet — a flush whose index would not fit
    /// its trailer — the error is propagated with the memtable and
    /// stack untouched: the log already holds the record, so a
    /// restart's replay recovers the write, and the next set attempts
    /// the flush again.
    pub fn set(&mut self, key: &[u8], value: &[u8]) -> (r: Result<(), Error>)
        requires
            old(self).wf(),
            key@.len() + value@.len() <= usize::MAX,
        ensures
            final(self).wf(),
            final(self).conf == old(self).conf,
            final(self).logfile.recs@ == old(self).logfile.recs@.push((key@, value@)),
            final(self).logfile.data@ == old(self).logfile.data@ + crate::kv::enc_rec(key@, value@),
            match r {
                Ok(_) => {
                    &&& final(self)@ == old(self)@.insert(key@, value@)
                    &&& final(self).applied == old(self).applied
                    &&& !(flush_needed(old(self), key@, value@) && flush_overflows(old(self)))
                    &&& if flush_needed(old(self), key@, value@) {
                        final(self).sstables@.len() == old(self).sstables@.len() + 1
                            && final(self).sstables@.last()@ == old(self).memtable@
                            && final(self).memtable@ == Map::<Seq<u8>, Seq<u8>>::empty().insert(
                            key@,
                            value@,
                        )
                    } else {
                        final(self).sstables == old(self).sstables && final(self).memtable@ == old(
                            self,
                        ).memtable@.insert(key@, value@)
                    }
                },
                Err(e) => {
                    &&& e == Error::Codec
                    &&& flush_needed(old(self), key@, value@)
                    &&& flush_overflows(old(self))
                    &&& final(self)@ == old(self)@
                    &&& final(self).memtable == old(self).memtable
                    &&& final(self).sstables == old(self).sstables
                    &&& final(self).applied@ == false
                },
            },
    {
        let pair_len = key.len() + value.len();
        let need = self.memtable.len > self.conf.memtable_size || pair_len > self.conf.memtable_size
            - self.memtable.len;
        let ghost recs0 = self.logfile.recs@;
        self.logfile.record(key, value);
        proof {
            assert(self.logfile.recs@.drop_last() =~~= recs0);
            assert(map_of(self.logfile.recs@) == map_of(recs0).insert(key@, value@));
        }
        if need {
            match self.flush() {
                Ok(_) => {},
                Err(e) => {
                    proof {
                        self.applied@ = false;
                    }
                    return Err(e);
                },
            }
        }
        let ghost stack = self.sstables@.map(|i: int, t: SSTable| t@);
        let ghost mem0 = self.memtable@;
        let ghost mid_view = self@;
        self.memtable.insert(key, value);
        proof {
            assert(self.sstables@.map(|i: int, t: SSTable| t@) =~~= stack);
            assert(self@ =~= stack_map(stack).union_prefer_right(mem0.insert(key@, value@)));
            assert(stack_map(stack).union_prefer_right(mem0.insert(key@, value@))
                =~= stack_map(stack).union_prefer_right(mem0).insert(key@, value@));
            assert(mid_view =~= stack_map(stack).union_prefer_right(mem0));
            assert(self@ == mid_view.insert(key@, value@));
            assert(self@ == old(self)@.insert(key@, value@));
            if self.applied@ {
                assert(map_of(self.logfile.recs@) == self@);
            }
            if need {
                assert(self.memtable@ =~= Map::<Seq<u8>, Seq<u8>>::empty().insert(key@, value@));
            }
        }
        Ok(())
    }

    /// Fetches `key`: from the memtable if present, else by probing
    /// the SSTables from newest to oldest.  `NotFound` exactly when no
    /// component holds the key.  Reading does not change the visible
    /// state (it may cache SSTable indexes).
    pub fn get(&mut self, key: &[u8]) -> (r: Result<Vec<u8>, Error>)
        requires
            old(self).wf(),
        ensures
            final(self).wf(),
            final(self)@ == old(self)@,
            final(self).conf == old(self).conf,
            final(self).logfile == old(self).logfile,
            final(self).memtable == old(self).memtable,
            final(self).applied == old(self).applied,
            final(self).sstables@.len() == old(self).sstables@.len(),
            forall|i: int|
                0 <= i < old(self).sstables@.len() ==> (#[trigger] final(self).sstables@[i]).parts
                    == old(self).sstables@[i].parts && final(self).sstables@[i].data == old(
                    self,
                ).sstables@[i].data,
            match r {
                Ok(v) => old(self)@.contains_key(key@) && v@ == old(self)@[key@],
                Err(e) => e == Error::NotFound && !old(self)@.contains_key(key@),
            },
    {
        let ghost oldstack = self.sstables@.map(|i: int, t: SSTable| t@);
        match self.memtable.get(key) {
            Some(v) => Ok(v),
            None => {
                let mut i = self.sstables.len();
                while i > 0
                    invariant
                        old(self).wf(),
                        i <= self.sstables@.len(),
                        self.conf == old(self).conf,
                        self.logfile == old(self).logfile,
                        self.memtable == old(self).memtable,
                        self.applied == old(self).applied,
                        self.sstables@.len() == old(self).sstables@.len(),
                        forall|j: int|
                            0 <= j < self.sstables@.len() ==> (#[trigger] self.sstables@[j]).parts
                                == old(self).sstables@[j].parts && self.sstables@[j].data == old(
                                self,
                            ).sstables@[j].data,
                        forall|j: int|
                            0 <= j < self.sstables@.len() ==> (#[trigger] self.sstables@[j]).wf(),
                        oldstack == old(self).sstables@.map(|j: int, t: SSTable| t@),
                        self.sstables@.map(|j: int, t: SSTable| t@) =~~= oldstack,
                        forall|j: int|
                            i <= j < oldstack.len() ==> !(#[trigger] oldstack[j]).contains_key(
                                key@,
                            ),
                        !old(self).memtable@.contains_key(key@),
                    decreases i,
                {
                    i = i - 1;
                    let ghost prestack = self.sstables@;
                    let mut t = self.sstables.remove(i);
                    let res = t.get(key);
                    self.sstables.insert(i, t);
                    proof {
                        assert(self.sstables@ =~~= prestack.update(i as int, self.sstables@[i as int]));
                        assert(self.sstables@.map(|j: int, t2: SSTable| t2@) =~~= oldstack);
                        assert forall|j: int|
                            0 <= j < self.sstables@.len() implies (#[trigger] self.sstables@[j]).parts
                            == old(self).sstables@[j].parts && self.sstables@[j].data == old(
                            self,
                        ).sstables@[j].data by {
                            if j != i {
                                assert(self.sstables@[j] == prestack[j]);
                            }
                        }
                    }
                    match res {
                        Ok(v) => {
                            proof {
                                assert(prestack.map(|j: int, t2: SSTable| t2@) =~~= oldstack);
                                assert(prestack[i as int]@ == oldstack[i as int]);
                                lemma_stack_map_hit(oldstack, key@, i as int);
                                assert(self@ =~= stack_map(oldstack).union_prefer_right(
                                    self.memtable@,
                                ));
                                assert(self@ =~= old(self)@);
                            }
                            return Ok(v);
                        },
                        Err(_) => {},
                    }
                }
                proof {
                    lemma_stack_map_none(oldstack, key@);
                    assert(self@ =~= stack_map(oldstack).union_prefer_right(self.memtable@));
                    assert(self@ =~= old(self)@);
                }
                Err(Error::NotFound)
            },
        }
    }

    /// Rebuilds the state after a restart: the log bytes read back
    /// from disk replace the log (a torn tail is discarded), and the
    /// memtable is reconstructed by replaying them.  Applies to a
    /// freshly opened database, before any flush.
    pub fn recover(&mut self, data: Vec<u8>)
        requires
            old(self).wf(),
            old(self).sstables@.len() == 0,
        ensures
            final(self).wf(),
            final(self).conf == old(self).conf,
            final(self).sstables@.len() == 0,
            final(self).logfile.recs@ == wal_records(data@, 0),
            final(self)@ == map_of(wal_records(data@, 0)),
            final(self).memtable@ == map_of(wal_records(data@, 0)),
    {
        self.logfile = Log::from_bytes(data);
        self.memtable = self.logfile.recover_memtable(self.conf.block_size);
        self.applied = Ghost(true);
        proof {
            assert(self.logfile.data@.subrange(0, self.logfile.data@.len() as int)
                =~= self.logfile.data@);
            crate::wal::lemma_wal_of_enc(
                self.logfile.data@,
                0,
                self.logfile.recs@,
            );
            assert(self.sstables@.map(|i: int, t: SSTable| t@) =~~= Seq::<
                Map<Seq<u8>, Seq<u8>>,
            >::empty());
            assert(self@ =~= self.memtable@);
        }
    }

    /// How many SSTables the stack holds.
    pub fn num_sstables(&self) -> (r: usize)
        ensures
            r == self.sstables@.len(),
    {
        self.sstables.len()
    }

    /// The on-disk image of the SSTable at position `i` of the stack
    /// (oldest first), for the surrounding layer to persist.
    pub fn sstable_image(&self, i: usize) -> (r: &Vec<u8>)
        requires
            i < self.sstables@.len(),
        ensures
            r@ == self.sstables@[i as int].data@,
    {
        &self.sstables[i].data
    }

    /// The log bytes as they must stand on disk.
    pub fn wal_bytes(&self) -> (r: &Vec<u8>)
        ensures
            r@ == self.logfile.data@,
    {
        &self.logfile.data
    }
}

/// Read-your-writes: after a successful `set(k, v)` the state binds
/// `k` to `v`, so `get(k)` returns `v`.
pub proof fn lemma_read_your_writes(m: Map<Seq<u8>, Seq<u8>>, k: Seq<u8>, v: Seq<u8>)
    ensures
        m.insert(k, v).contains_key(k),
        m.insert(k, v)[k] == v,
{
}

/// Last-write-wins: after `set(k, v1); set(k, v2)` the state binds `k`
/// to `v2`, whatever flushes happened in between.
pub proof fn lemma_last_write_wins(m: Map<Seq<u8>, Seq<u8>>, k: Seq<u8>, v1: Seq<u8>, v2: Seq<u8>)
    ensures
        m.insert(k, v1).insert(k, v2).contains_key(k),
        m.insert(k, v1).insert(k, v2)[k] == v2,
{
}

/// Replay equivalence: the bytes that a run of successful writes
/// appends to the log decode back to exactly those writes, so the
/// replayed memtable equals the memtable those writes would build on
/// an empty database.
pub proof fn lemma_wal_replay_equivalence(recs: Seq<(Seq<u8>, Seq<u8>)>)
    requires
        recs_bounded(recs),
    ensures
        wal_records(crate::kv::enc_recs(recs), 0) == recs,
        map_of(wal_records(crate::kv::enc_recs(recs), 0)) == map_of(recs),
{
    let data = crate::kv::enc_recs(recs);
    assert(data.subrange(0, data.len() as int) =~= data);
    crate::wal::lemma_wal_of_enc(data, 0, recs);
}

} // verus!
