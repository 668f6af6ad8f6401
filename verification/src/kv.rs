//! Key-value records and their binary codec.
//!
//! Every persisted structure is built from one deterministic encoding:
//! byte strings are length-prefixed with a fixed-width 64-bit
//! little-endian integer, and a record is the encoded key followed by
//! the encoded value.  `enc_rec` is the specification of the record
//! layout; `encode_record` and `decode_record` are the executable codec,
//! proved against it.

use vstd::prelude::*;
use vstd::bytes::{spec_u64_to_le_bytes, spec_u64_from_le_bytes, u64_to_le_bytes, u64_from_le_bytes,
lemma_auto_spec_u64_to_from_le_bytes};
use vstd::slice::{slice_subrange, slice_to_vec};
use crate::keys::{lex_lt, lemma_lex_trichotomy};

verus! {

/// One key-value pair.
#[derive(Debug)]
pub struct KVPair {
    pub k: Vec<u8>,
    pub v: Vec<u8>,
}

impl KVPair {
    /// Copies the two byte strings into an owned pair.
    pub fn new(k: &[u8], v: &[u8]) -> (r: KVPair)
        ensures
            r.k@ == k@,
            r.v@ == v@,
    {
        KVPair { k: slice_to_vec(k), v: slice_to_vec(v) }
    }

    /// The pair's length for size accounting: key length plus value length.
    pub fn len(&self) -> (r: usize)
        requires
            self.k@.len() + self.v@.len() <= usize::MAX,
        ensures
            r == self.k@.len() + self.v@.len(),
    {
        self.k.len() + self.v.len()
    }
}

/// The fixed-width little-endian encoding of a 64-bit length or offset.
pub open spec fn enc_u64(n: u64) -> Seq<u8> {
    spec_u64_to_le_bytes(n)
}

/// The serialized form of one record: length-prefixed key, then
/// length-prefixed value.
pub open spec fn enc_rec(k: Seq<u8>, v: Seq<u8>) -> Seq<u8> {
    enc_u64(k.len() as u64) + k + enc_u64(v.len() as u64) + v
}

/// The serialized size of one record.
pub open spec fn enc_rec_len(k: Seq<u8>, v: Seq<u8>) -> int {
    16 + k.len() as int + v.len() as int
}

/// The concatenated serialized form of a sequence of records.
pub open spec fn enc_recs(s: Seq<(Seq<u8>, Seq<u8>)>) -> Seq<u8>
    decreases s.len(),
{
    if s.len() == 0 {
        Seq::empty()
    } else {
        enc_rec(s[0].0, s[0].1) + enc_recs(s.drop_first())
    }
}

/// The result of decoding one record at position `pos` of `data`:
/// the key, the value, and the position just past the record.
pub open spec fn dec_rec(data: Seq<u8>, pos: int) -> Option<(Seq<u8>, Seq<u8>, int)> {
    if pos + 8 <= data.len() {
        let klen = spec_u64_from_le_bytes(data.subrange(pos, pos + 8)) as int;
        if pos + 16 + klen <= data.len() {
            let k = data.subrange(pos + 8, pos + 8 + klen);
            let vlen = spec_u64_from_le_bytes(data.subrange(pos + 8 + klen, pos + 16 + klen)) as int;
            if pos + 16 + klen + vlen <= data.len() {
                Some((k, data.subrange(pos + 16 + klen, pos + 16 + klen + vlen), pos + 16 + klen
                    + vlen))
            } else {
                None
            }
        } else {
            None
        }
    } else {
        None
    }
}

/// A record's encoding occupies its stated size.
pub proof fn lemma_enc_rec_len(k: Seq<u8>, v: Seq<u8>)
    ensures
        enc_rec(k, v).len() == enc_rec_len(k, v),
{
    lemma_auto_spec_u64_to_from_le_bytes();
}

/// Decoding reads back exactly the record that was encoded: if the
/// bytes at `pos` are `enc_rec(k, v)`, the decoder yields `k`, `v`,
/// and the position just past them.
pub proof fn lemma_dec_rec_of_enc(data: Seq<u8>, pos: int, k: Seq<u8>, v: Seq<u8>)
    requires
        0 <= pos,
        k.len() <= usize::MAX,
        v.len() <= usize::MAX,
        pos + enc_rec_len(k, v) <= data.len(),
        data.subrange(pos, pos + enc_rec_len(k, v)) == enc_rec(k, v),
    ensures
        dec_rec(data, pos) == Some((k, v, pos + enc_rec_len(k, v))),
{
    lemma_auto_spec_u64_to_from_le_bytes();
    let e = enc_rec(k, v);
    let kl = k.len() as int;
    let vl = v.len() as int;
    let whole = data.subrange(pos, pos + enc_rec_len(k, v));
    assert(data.subrange(pos, pos + 8) =~= whole.subrange(0, 8));
    assert(whole.subrange(0, 8) =~= enc_u64(k.len() as u64));
    assert(spec_u64_from_le_bytes(data.subrange(pos, pos + 8)) == k.len() as u64);
    assert(data.subrange(pos + 8, pos + 8 + kl) =~= whole.subrange(8, 8 + kl));
    assert(whole.subrange(8, 8 + kl) =~= k);
    assert(data.subrange(pos + 8 + kl, pos + 16 + kl) =~= whole.subrange(8 + kl, 16 + kl));
    assert(whole.subrange(8 + kl, 16 + kl) =~= enc_u64(v.len() as u64));
    assert(spec_u64_from_le_bytes(data.subrange(pos + 8 + kl, pos + 16 + kl)) == v.len() as u64);
    assert(data.subrange(pos + 16 + kl, pos + 16 + kl + vl) =~= whole.subrange(16 + kl, 16 + kl
        + vl));
    assert(whole.subrange(16 + kl, 16 + kl + vl) =~= v);
}

/// Appending one record extends the concatenated encoding by that
/// record's bytes.
pub proof fn lemma_enc_recs_push(s: Seq<(Seq<u8>, Seq<u8>)>, k: Seq<u8>, v: Seq<u8>)
    ensures
        enc_recs(s.push((k, v))) == enc_recs(s) + enc_rec(k, v),
    decreases s.len(),
{
    if s.len() == 0 {
        reveal_with_fuel(enc_recs, 2);
        assert(s.push((k, v))[0] == (k, v));
        assert(s.push((k, v)).drop_first() =~= s);
        assert(enc_recs(s.push((k, v))) =~= enc_rec(k, v));
        assert(enc_recs(s) + enc_rec(k, v) =~= enc_rec(k, v));
    } else {
        assert(s.push((k, v)).drop_first() =~= s.drop_first().push((k, v)));
        lemma_enc_recs_push(s.drop_first(), k, v);
        assert(enc_recs(s.push((k, v))) =~= enc_recs(s) + enc_rec(k, v));
    }
}

/// Appends the serialized form of the record `(k, v)` to `out`.
pub fn encode_record(k: &[u8], v: &[u8], out: &mut Vec<u8>)
    ensures
        final(out)@ == old(out)@ + enc_rec(k@, v@),
{
    proof {
        lemma_auto_spec_u64_to_from_le_bytes();
    }
    let klen = u64_to_le_bytes(k.len() as u64);
    out.extend_from_slice(klen.as_slice());
    out.extend_from_slice(k);
    let vlen = u64_to_le_bytes(v.len() as u64);
    out.extend_from_slice(vlen.as_slice());
    out.extend_from_slice(v);
    proof {
        assert(out@ =~= old(out)@ + enc_rec(k@, v@));
    }
}

/// Decodes one record at position `pos` of `data`.  Returns the pair
/// and the position just past it, or nothing if the bytes from `pos`
/// do not hold a complete record.
pub fn decode_record(data: &[u8], pos: usize) -> (r: Option<(KVPair, usize)>)
    requires
        pos <= data@.len(),
    ensures
        match r {
            Some(p) => {
                &&& dec_rec(data@, pos as int) == Some((p.0.k@, p.0.v@, p.1 as int))
                &&& pos < p.1 <= data@.len()
            },
            None => dec_rec(data@, pos as int) is None,
        },
{
    let n = data.len();
    if n - pos < 8 {
        return None;
    }
    let klen64 = u64_from_le_bytes(slice_subrange(data, pos, pos + 8));
    let rem = n - pos - 8;
    if rem < 8 || klen64 > (rem - 8) as u64 {
        return None;
    }
    let klen = klen64 as usize;
    let k = slice_to_vec(slice_subrange(data, pos + 8, pos + 8 + klen));
    let vlen64 = u64_from_le_bytes(slice_subrange(data, pos + 8 + klen, pos + 16 + klen));
    let rem2 = n - pos - 16 - klen;
    if vlen64 > rem2 as u64 {
        return None;
    }
    let vlen = vlen64 as usize;
    let v = slice_to_vec(slice_subrange(data, pos + 16 + klen, pos + 16 + klen + vlen));
    Some((KVPair { k, v }, pos + 16 + klen + vlen))
}

/// The map a sequence of records describes when inserted in order:
/// a later record for the same key overwrites an earlier one.
pub open spec fn map_of(s: Seq<(Seq<u8>, Seq<u8>)>) -> Map<Seq<u8>, Seq<u8>>
    decreases s.len(),
{
    if s.len() == 0 {
        Map::empty()
    } else {
        map_of(s.drop_last()).insert(s.last().0, s.last().1)
    }
}

/// The keys of a record sequence are strictly increasing.
pub open spec fn sorted_strict(s: Seq<(Seq<u8>, Seq<u8>)>) -> bool {
    forall|i: int, j: int| 0 <= i < j < s.len() ==> lex_lt(s[i].0, s[j].0)
}

/// No two records of `s` carry the same key.
pub open spec fn distinct_keys(s: Seq<(Seq<u8>, Seq<u8>)>) -> bool {
    forall|i: int, j: int| 0 <= i < j < s.len() ==> s[i].0 != s[j].0
}

/// Strictly sorted records have pairwise distinct keys.
pub proof fn lemma_sorted_distinct(s: Seq<(Seq<u8>, Seq<u8>)>)
    requires
        sorted_strict(s),
    ensures
        distinct_keys(s),
{
    assert forall|i: int, j: int| 0 <= i < j < s.len() implies s[i].0 != s[j].0 by {
        lemma_lex_trichotomy(s[i].0, s[j].0);
    }
}

/// A key is in `map_of(s)` exactly when some record of `s` carries it.
pub proof fn lemma_map_of_contains(s: Seq<(Seq<u8>, Seq<u8>)>, k: Seq<u8>)
    ensures
        map_of(s).contains_key(k) <==> exists|i: int| 0 <= i < s.len() && s[i].0 == k,
    decreases s.len(),
{
    if s.len() > 0 {
        lemma_map_of_contains(s.drop_last(), k);
        if s.last().0 == k {
            assert(s[s.len() - 1].0 == k);
        } else if map_of(s).contains_key(k) {
            let i = choose|i: int| 0 <= i < s.drop_last().len() && s.drop_last()[i].0 == k;
            assert(s[i].0 == k);
        } else {
            if exists|i: int| 0 <= i < s.len() && s[i].0 == k {
                let i = choose|i: int| 0 <= i < s.len() && s[i].0 == k;
                assert(s.drop_last()[i].0 == k);
            }
        }
    }
}

/// With distinct keys, the record at index `i` gives the map's value
/// for its key.
pub proof fn lemma_map_of_index(s: Seq<(Seq<u8>, Seq<u8>)>, i: int)
    requires
        distinct_keys(s),
        0 <= i < s.len(),
    ensures
        map_of(s).contains_key(s[i].0),
        map_of(s)[s[i].0] == s[i].1,
    decreases s.len(),
{
    if i == s.len() - 1 {
    } else {
        assert(s[i].0 != s.last().0);
        assert(s.drop_last()[i] == s[i]);
        lemma_map_of_index(s.drop_last(), i);
    }
}

/// Concatenation of record sequences lays the later one's bindings
/// over the earlier one's.
pub proof fn lemma_map_of_concat(a: Seq<(Seq<u8>, Seq<u8>)>, b: Seq<(Seq<u8>, Seq<u8>)>)
    ensures
        map_of(a + b) == map_of(a).union_prefer_right(map_of(b)),
    decreases b.len(),
{
    if b.len() == 0 {
        assert(a + b =~= a);
        assert(map_of(a).union_prefer_right(Map::empty()) =~= map_of(a));
    } else {
        lemma_map_of_concat(a, b.drop_last());
        assert((a + b).drop_last() =~= a + b.drop_last());
        assert((a + b).last() == b.last());
        assert(map_of(a).union_prefer_right(map_of(b.drop_last())).insert(b.last().0, b.last().1)
            =~= map_of(a).union_prefer_right(map_of(b.drop_last()).insert(b.last().0, b.last().1)));
    }
}

/// Overwriting the record at `i` (same key, new value) updates the
/// key's binding.
pub proof fn lemma_map_of_update(s: Seq<(Seq<u8>, Seq<u8>)>, i: int, k: Seq<u8>, v: Seq<u8>)
    requires
        distinct_keys(s),
        0 <= i < s.len(),
        s[i].0 == k,
    ensures
        map_of(s.update(i, (k, v))) == map_of(s).insert(k, v),
    decreases s.len(),
{
    let u = s.update(i, (k, v));
    if i == s.len() - 1 {
        assert(u.drop_last() =~= s.drop_last());
        assert(u.last() == (k, v));
        assert(map_of(s.drop_last()).insert(k, s.last().1).insert(k, v) =~= map_of(
            s.drop_last(),
        ).insert(k, v));
    } else {
        assert(u.drop_last() =~= s.drop_last().update(i, (k, v)));
        assert(u.last() == s.last());
        assert(s.drop_last()[i] == s[i]);
        lemma_map_of_update(s.drop_last(), i, k, v);
        assert(s[i].0 != s.last().0);
        assert(map_of(s.drop_last()).insert(k, v).insert(s.last().0, s.last().1) =~= map_of(
            s.drop_last(),
        ).insert(s.last().0, s.last().1).insert(k, v));
    }
}

/// Inserting a record with a fresh key at any position adds that
/// key's binding.
pub proof fn lemma_map_of_insert_at(s: Seq<(Seq<u8>, Seq<u8>)>, pos: int, k: Seq<u8>, v: Seq<u8>)
    requires
        0 <= pos <= s.len(),
        forall|j: int| 0 <= j < s.len() ==> s[j].0 != k,
    ensures
        map_of(s.insert(pos, (k, v))) == map_of(s).insert(k, v),
    decreases s.len(),
{
    let u = s.insert(pos, (k, v));
    if pos == s.len() {
        assert(u =~= s.push((k, v)));
        assert(u.drop_last() =~= s);
    } else {
        assert(u.last() == s.last());
        assert(u.drop_last() =~= s.drop_last().insert(pos, (k, v)));
        assert forall|j: int| 0 <= j < s.drop_last().len() implies s.drop_last()[j].0 != k by {
            assert(s.drop_last()[j] == s[j]);
        }
        lemma_map_of_insert_at(s.drop_last(), pos, k, v);
        assert(s.last().0 != k);
        assert(map_of(s.drop_last()).insert(k, v).insert(s.last().0, s.last().1) =~= map_of(
            s.drop_last(),
        ).insert(s.last().0, s.last().1).insert(k, v));
    }
}

} // verus!
