//! The write-ahead log.
//!
//! The log is an append-only stream of serialized records, one per
//! successful write, in arrival order.  `wal_records` is the meaning of
//! any byte stream: records decoded from the front until the bytes run
//! out or stop parsing — a decode failure is treated as the end of the
//! log.  Replaying the records into a fresh memtable, in order,
//! reconstructs the table as it stood when the log was written.

use vstd::prelude::*;
use vstd::bytes::lemma_auto_spec_u64_to_from_le_bytes;
use crate::kv::{enc_u64, enc_rec, enc_rec_len, enc_recs, dec_rec, map_of, lemma_dec_rec_of_enc,
lemma_enc_rec_len, encode_record, decode_record};
use crate::block::{size_of, lemma_size_of_nonneg};
use crate::memtable::Memtable;

verus! {

/// Every record of `s` has a representable key and value length.
pub open spec fn recs_bounded(s: Seq<(Seq<u8>, Seq<u8>)>) -> bool {
    forall|i: int|
        0 <= i < s.len() ==> (#[trigger] s[i]).0.len() <= usize::MAX && s[i].1.len() <= usize::MAX
}

/// The records a byte stream holds from `pos` on: decode until the
/// bytes stop parsing.
pub open spec fn wal_records(data: Seq<u8>, pos: int) -> Seq<(Seq<u8>, Seq<u8>)>
    decreases data.len() - pos,
{
    match dec_rec(data, pos) {
        None => Seq::empty(),
        Some((k, v, p2)) => seq![(k, v)] + wal_records(data, p2),
    }
}

/// The position where the valid record stream from `pos` ends.
pub open spec fn wal_end(data: Seq<u8>, pos: int) -> int
    decreases data.len() - pos,
{
    match dec_rec(data, pos) {
        None => pos,
        Some((k, v, p2)) => wal_end(data, p2),
    }
}

/// A successfully decoded record occupies exactly its re-encoding.
pub proof fn lemma_enc_of_dec_rec(data: Seq<u8>, pos: int)
    requires
        0 <= pos <= data.len(),
        dec_rec(data, pos) is Some,
    ensures
        match dec_rec(data, pos) {
            Some((k, v, p2)) => data.subrange(pos, p2) == enc_rec(k, v) && p2 == pos + enc_rec_len(
                k,
                v,
            ),
            None => false,
        },
{
    lemma_auto_spec_u64_to_from_le_bytes();
    let (k, v, p2) = dec_rec(data, pos).unwrap();
    let kl = k.len() as int;
    let vl = v.len() as int;
    assert(data.subrange(pos, p2) =~= data.subrange(pos, pos + 8) + k + data.subrange(
        pos + 8 + kl,
        pos + 16 + kl,
    ) + v);
    assert(data.subrange(pos, pos + 8) =~= enc_u64(k.len() as u64));
    assert(data.subrange(pos + 8 + kl, pos + 16 + kl) =~= enc_u64(v.len() as u64));
}

/// A stream that is exactly a concatenation of record encodings
/// decodes back to those records, ending at the stream's end.
pub proof fn lemma_wal_of_enc(data: Seq<u8>, pos: int, recs: Seq<(Seq<u8>, Seq<u8>)>)
    requires
        0 <= pos,
        recs_bounded(recs),
        data.len() == pos + enc_recs(recs).len(),
        data.subrange(pos, data.len() as int) == enc_recs(recs),
    ensures
        wal_records(data, pos) == recs,
        wal_end(data, pos) == data.len(),
    decreases recs.len(),
{
    if recs.len() == 0 {
        assert(wal_records(data, pos) =~~= recs);
    } else {
        let r0 = recs[0];
        let rest = recs.drop_first();
        let e0 = enc_rec(r0.0, r0.1);
        lemma_enc_rec_len(r0.0, r0.1);
        let whole = data.subrange(pos, data.len() as int);
        assert(data.subrange(pos, pos + e0.len()) =~= whole.subrange(0, e0.len() as int));
        assert(whole.subrange(0, e0.len() as int) =~= e0);
        lemma_dec_rec_of_enc(data, pos, r0.0, r0.1);
        let p2 = pos + e0.len();
        assert(data.subrange(p2, data.len() as int) =~= whole.subrange(
            e0.len() as int,
            whole.len() as int,
        ));
        assert(whole.subrange(e0.len() as int, whole.len() as int) =~= enc_recs(rest));
        lemma_wal_of_enc(data, p2, rest);
        assert(seq![(r0.0, r0.1)] + rest =~~= recs);
    }
}

/// The write-ahead log: the bytes as they stand on disk, and (as proof
/// state) the records they encode.
pub struct Log {
    pub data: Vec<u8>,
    pub recs: Ghost<Seq<(Seq<u8>, Seq<u8>)>>,
}

impl Log {
    /// A log is well formed when its bytes are exactly the
    /// concatenated encodings of its records.
    pub open spec fn wf(&self) -> bool {
        &&& self.data@ == enc_recs(self.recs@)
        &&& recs_bounded(self.recs@)
    }

    /// An empty log.
    pub fn new() -> (r: Log)
        ensures
            r.wf(),
            r.recs@ == Seq::<(Seq<u8>, Seq<u8>)>::empty(),
            r.data@ == Seq::<u8>::empty(),
    {
        let r = Log { data: Vec::new(), recs: Ghost(Seq::empty()) };
        proof {
            assert(r.data@ =~= enc_recs(r.recs@));
        }
        r
    }

    /// Rebuilds a log from bytes read back from disk: the valid record
    /// prefix is kept and anything after the first decode failure is
    /// discarded as a torn tail.
    pub fn from_bytes(data: Vec<u8>) -> (r: Log)
        ensures
            r.wf(),
            r.recs@ == wal_records(data@, 0),
            r.data@ == data@.subrange(0, wal_end(data@, 0)),
    {
        let ghost orig = data@;
        let mut data = data;
        let mut pos: usize = 0;
        let ghost done: Seq<(Seq<u8>, Seq<u8>)> = Seq::empty();
        let mut done_exec: Ghost<Seq<(Seq<u8>, Seq<u8>)>> = Ghost(done);
        proof {
            assert(wal_records(orig, 0) =~~= done_exec@ + wal_records(orig, 0));
        }
        loop
            invariant_except_break
                data@ == orig,
                pos <= data@.len(),
                wal_records(orig, 0) == done_exec@ + wal_records(orig, pos as int),
                wal_end(orig, 0) == wal_end(orig, pos as int),
                enc_recs(done_exec@) == orig.subrange(0, pos as int),
                recs_bounded(done_exec@),
            ensures
                data@ == orig,
                pos <= data@.len(),
                done_exec@ == wal_records(orig, 0),
                pos == wal_end(orig, 0),
                enc_recs(done_exec@) == orig.subrange(0, pos as int),
                recs_bounded(done_exec@),
            decreases data@.len() - pos,
        {
            match decode_record(data.as_slice(), pos) {
                None => {
                    proof {
                        assert(wal_records(orig, pos as int) =~~= Seq::<(Seq<u8>, Seq<u8>)>::empty());
                        assert(done_exec@ + wal_records(orig, pos as int) =~~= done_exec@);
                    }
                    break;
                },
                Some(p) => {
                    let (pair, next) = p;
                    proof {
                        lemma_enc_of_dec_rec(orig, pos as int);
                        let stepped = done_exec@.push((pair.k@, pair.v@));
                        assert(wal_records(orig, pos as int) == seq![(pair.k@, pair.v@)]
                            + wal_records(orig, next as int));
                        assert(done_exec@ + wal_records(orig, pos as int) =~~= stepped
                            + wal_records(orig, next as int));
                        crate::kv::lemma_enc_recs_push(done_exec@, pair.k@, pair.v@);
                        assert(enc_recs(stepped) =~= orig.subrange(0, next as int));
                    }
                    proof {
                        done_exec@ = done_exec@.push((pair.k@, pair.v@));
                    }
                    pos = next;
                },
            }
        }
        data.truncate(pos);
        proof {
            assert(data@ =~= enc_recs(done_exec@));
        }
        Log { data, recs: done_exec }
    }

    /// Appends one record to the log bytes.
    pub fn record(&mut self, key: &[u8], value: &[u8])
        requires
            old(self).wf(),
            key@.len() + value@.len() <= usize::MAX,
        ensures
            final(self).wf(),
            final(self).recs@ == old(self).recs@.push((key@, value@)),
            final(self).data@ == old(self).data@ + enc_rec(key@, value@),
    {
        encode_record(key, value, &mut self.data);
        proof {
            crate::kv::lemma_enc_recs_push(self.recs@, key@, value@);
            self.recs@ = self.recs@.push((key@, value@));
        }
    }

    /// Replays the log into a fresh memtable: every record is inserted
    /// in arrival order, so later writes for a key win.  The table's
    /// size estimate ends at the summed record lengths, saturated.
    pub fn recover_memtable(&self, block_size: usize) -> (r: Memtable)
        ensures
            r.wf(),
            r@ == map_of(wal_records(self.data@, 0)),
            r.block_size == block_size,
            r.len == if size_of(wal_records(self.data@, 0)) <= usize::MAX {
                size_of(wal_records(self.data@, 0))
            } else {
                usize::MAX as int
            },
    {
        let ghost orig = self.data@;
        let mut memtable = Memtable::new(block_size);
        let mut pos: usize = 0;
        let ghost done: Seq<(Seq<u8>, Seq<u8>)> = Seq::empty();
        let mut done_g: Ghost<Seq<(Seq<u8>, Seq<u8>)>> = Ghost(done);
        proof {
            assert(wal_records(orig, 0) =~~= done_g@ + wal_records(orig, 0));
        }
        loop
            invariant_except_break
                pos <= self.data@.len(),
                orig == self.data@,
                wal_records(orig, 0) == done_g@ + wal_records(orig, pos as int),
                memtable.wf(),
                memtable@ == map_of(done_g@),
                memtable.block_size == block_size,
                memtable.len == if size_of(done_g@) <= usize::MAX {
                    size_of(done_g@)
                } else {
                    usize::MAX as int
                },
            ensures
                memtable.wf(),
                memtable@ == map_of(wal_records(orig, 0)),
                memtable.block_size == block_size,
                memtable.len == if size_of(wal_records(orig, 0)) <= usize::MAX {
                    size_of(wal_records(orig, 0))
                } else {
                    usize::MAX as int
                },
            decreases self.data@.len() - pos,
        {
            match decode_record(self.data.as_slice(), pos) {
                None => {
                    proof {
                        assert(wal_records(orig, pos as int) =~~= Seq::<(Seq<u8>, Seq<u8>)>::empty());
                        assert(done_g@ + wal_records(orig, pos as int) =~~= done_g@);
                    }
                    break;
                },
                Some(p) => {
                    let (pair, next) = p;
                    let ghost stepped = done_g@.push((pair.k@, pair.v@));
                    proof {
                        assert(wal_records(orig, pos as int) == seq![(pair.k@, pair.v@)]
                            + wal_records(orig, next as int));
                        assert(done_g@ + wal_records(orig, pos as int) =~~= stepped
                            + wal_records(orig, next as int));
                        assert(stepped.drop_last() =~~= done_g@);
                        lemma_size_of_nonneg(done_g@);
                    }
                    memtable.insert(pair.k.as_slice(), pair.v.as_slice());
                    proof {
                        done_g@ = stepped;
                    }
                    pos = next;
                },
            }
        }
        memtable
    }
}

} // verus!
