//! Commands and responses of the transport layer.
//!
//! A request frame is one tag byte — set or get — followed by one
//! record: the key and, for a set, the value (empty for a get).  The
//! frame codec matches the on-disk record codec.  `run_cmd` maps a
//! decoded command onto the engine.

use vstd::prelude::*;
use crate::kv::{enc_rec, dec_rec, decode_record, encode_record};
use crate::db::{Database, flush_needed, flush_overflows};
use crate::Error;

verus! {

/// A request: set a key to a value, or get a key.
pub enum Cmd {
    Put(Vec<u8>, Vec<u8>),
    Get(Vec<u8>),
}

/// A reply: the value (or echoed key) on success, a message on
/// failure.
pub enum Response {
    Done(Vec<u8>),
    Fail(String),
}

/// The serialized form of a command frame.
pub open spec fn enc_cmd(c: &Cmd) -> Seq<u8> {
    match c {
        Cmd::Put(k, v) => seq![0u8] + enc_rec(k@, v@),
        Cmd::Get(k) => seq![1u8] + enc_rec(k@, Seq::empty()),
    }
}

/// What a byte string holds as a command frame: the tag and the two
/// fields, if the bytes are one complete frame.
pub open spec fn dec_cmd(data: Seq<u8>) -> Option<(u8, Seq<u8>, Seq<u8>)> {
    if data.len() < 1 {
        None
    } else {
        match dec_rec(data, 1) {
            Some((k, v, end)) => if end == data.len() && (data[0] == 0 || (data[0] == 1 && v.len()
                == 0)) {
                Some((data[0], k, v))
            } else {
                None
            },
            None => None,
        }
    }
}

/// Appends the serialized form of the command to `out`.
pub fn encode_cmd(c: &Cmd, out: &mut Vec<u8>)
    ensures
        final(out)@ == old(out)@ + enc_cmd(c),
{
    match c {
        Cmd::Put(k, v) => {
            out.push(0u8);
            encode_record(k.as_slice(), v.as_slice(), out);
            proof {
                assert(out@ =~= old(out)@ + enc_cmd(c));
            }
        },
        Cmd::Get(k) => {
            out.push(1u8);
            let empty: Vec<u8> = Vec::new();
            encode_record(k.as_slice(), empty.as_slice(), out);
            proof {
                assert(out@ =~= old(out)@ + enc_cmd(c));
            }
        },
    }
}

/// Decodes one complete command frame, or nothing if the bytes are
/// not one.
pub fn decode_cmd(data: &[u8]) -> (r: Option<Cmd>)
    ensures
        match r {
            Some(c) => match c {
                Cmd::Put(k, v) => dec_cmd(data@) == Some((0u8, k@, v@)),
                Cmd::Get(k) => dec_cmd(data@) == Some((1u8, k@, Seq::<u8>::empty())),
            },
            None => dec_cmd(data@) is None,
        },
{
    if data.len() < 1 {
        return None;
    }
    let tag = data[0];
    match decode_record(data, 1) {
        None => None,
        Some(p) => {
            let (pair, end) = p;
            if end != data.len() {
                return None;
            }
            if tag == 0 {
                Some(Cmd::Put(pair.k, pair.v))
            } else if tag == 1 && pair.v.len() == 0 {
                proof {
                    assert(pair.v@ =~= Seq::<u8>::empty());
                }
                Some(Cmd::Get(pair.k))
            } else {
                None
            }
        },
    }
}

/// A frame decodes back to the command it was encoded from.
pub proof fn lemma_cmd_roundtrip(c: &Cmd)
    requires
        match c {
            Cmd::Put(k, v) => k@.len() + v@.len() + 17 <= usize::MAX,
            Cmd::Get(k) => k@.len() + 17 <= usize::MAX,
        },
    ensures
        match c {
            Cmd::Put(k, v) => dec_cmd(enc_cmd(c)) == Some((0u8, k@, v@)),
            Cmd::Get(k) => dec_cmd(enc_cmd(c)) == Some((1u8, k@, Seq::<u8>::empty())),
        },
{
    let data = enc_cmd(c);
    match c {
        Cmd::Put(k, v) => {
            crate::kv::lemma_enc_rec_len(k@, v@);
            assert(data.subrange(1, 1 + crate::kv::enc_rec_len(k@, v@)) =~= enc_rec(k@, v@));
            crate::kv::lemma_dec_rec_of_enc(data, 1, k@, v@);
        },
        Cmd::Get(k) => {
            crate::kv::lemma_enc_rec_len(k@, Seq::empty());
            assert(data.subrange(1, 1 + crate::kv::enc_rec_len(k@, Seq::empty())) =~= enc_rec(
                k@,
                Seq::empty(),
            ));
            crate::kv::lemma_dec_rec_of_enc(data, 1, k@, Seq::empty());
        },
    }
}

/// The reply text of a successful set: the bytes of `"set "`
/// followed by the key.
pub open spec fn set_reply(k: Seq<u8>) -> Seq<u8> {
    seq![115u8, 101u8, 116u8, 32u8] + k
}

/// Runs one command against the database: a set answers `"set "`
/// followed by the key, a get answers the value; every failure
/// becomes its description.
pub fn run_cmd(cmd: Cmd, db: &mut Database) -> (r: Response)
    requires
        old(db).wf(),
        match cmd {
            Cmd::Put(k, v) => k@.len() + v@.len() <= usize::MAX,
            Cmd::Get(_) => true,
        },
    ensures
        final(db).wf(),
        final(db).conf == old(db).conf,
        match cmd {
            Cmd::Put(k, v) => match r {
                Response::Done(m) => final(db)@ == old(db)@.insert(k@, v@) && m@ == set_reply(k@),
                Response::Fail(s) => {
                    &&& s@ == "Codec Error"@
                    &&& flush_needed(old(db), k@, v@)
                    &&& flush_overflows(old(db))
                    &&& final(db)@ == old(db)@
                    &&& final(db).logfile.recs@ == old(db).logfile.recs@.push((k@, v@))
                    &&& final(db).memtable == old(db).memtable
                    &&& final(db).sstables == old(db).sstables
                },
            },
            Cmd::Get(k) => final(db)@ == old(db)@ && match r {
                Response::Done(v) => old(db)@.contains_key(k@) && v@ == old(db)@[k@],
                Response::Fail(s) => s@ == "Key not found"@ && !old(db)@.contains_key(k@),
            },
        },
{
    match cmd {
        Cmd::Put(k, v) => match db.set(k.as_slice(), v.as_slice()) {
            Ok(_) => {
                let mut m: Vec<u8> = Vec::new();
                m.push(115u8);  // 's'
                m.push(101u8);  // 'e'
                m.push(116u8);  // 't'
                m.push(32u8);  // ' '
                m.extend_from_slice(k.as_slice());
                proof {
                    assert(m@ =~= set_reply(k@));
                }
                Response::Done(m)
            },
            Err(e) => Response::Fail(e.description().to_owned()),
        },
        Cmd::Get(k) => match db.get(k.as_slice()) {
            Ok(v) => Response::Done(v),
            Err(e) => Response::Fail(e.description().to_owned()),
        },
    }
}

} // verus!
