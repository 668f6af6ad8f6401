//! Data blocks: sorted runs of records with byte-size accounting.
//!
//! A block is the unit of on-disk read.  Its serialized form is an
//! explicit record count followed by the records back to back.  `get`
//! binary-searches the sorted records.

use vstd::prelude::*;
use vstd::bytes::{spec_u64_from_le_bytes, u64_to_le_bytes, u64_from_le_bytes,
lemma_auto_spec_u64_to_from_le_bytes};
use vstd::slice::{slice_subrange, slice_to_vec};
use crate::keys::{lex_lt, lemma_lex_trichotomy, lemma_lex_transitive, key_cmp, KeyOrder};
use crate::kv::{KVPair, enc_u64, enc_rec, enc_recs, dec_rec, map_of, sorted_strict,
lemma_sorted_distinct, lemma_map_of_contains, lemma_map_of_index,
lemma_dec_rec_of_enc, lemma_enc_rec_len, lemma_enc_recs_push, encode_record, decode_record};
use crate::Error;

verus! {

/// An ordered run of records, strictly increasing by key, with a
/// running byte-size total.
#[derive(Debug)]
pub struct Block {
    pub len: usize,
    pub content: Vec<KVPair>,
}

impl View for Block {
    type V = Seq<(Seq<u8>, Seq<u8>)>;

    open spec fn view(&self) -> Seq<(Seq<u8>, Seq<u8>)> {
        self.content@.map(|i: int, p: KVPair| (p.k@, p.v@))
    }
}

/// The accounted size of a record run: the sum of key and value
/// lengths.
pub open spec fn size_of(s: Seq<(Seq<u8>, Seq<u8>)>) -> int
    decreases s.len(),
{
    if s.len() == 0 {
        0
    } else {
        size_of(s.drop_last()) + s.last().0.len() + s.last().1.len()
    }
}

/// The accounted size is never negative.
pub proof fn lemma_size_of_nonneg(s: Seq<(Seq<u8>, Seq<u8>)>)
    ensures
        size_of(s) >= 0,
    decreases s.len(),
{
    if s.len() > 0 {
        lemma_size_of_nonneg(s.drop_last());
    }
}

impl Block {
    /// A block is well formed when its records are strictly sorted by
    /// key and `len` is their accounted size.
    pub open spec fn wf(&self) -> bool {
        &&& self.len == size_of(self@)
        &&& sorted_strict(self@)
    }

    /// An empty block.
    pub fn new() -> (r: Block)
        ensures
            r.wf(),
            r@ == Seq::<(Seq<u8>, Seq<u8>)>::empty(),
            r.len == 0,
    {
        let r = Block { len: 0, content: Vec::new() };
        proof {
            assert(r@ =~= Seq::<(Seq<u8>, Seq<u8>)>::empty());
        }
        r
    }

    /// Appends a record whose key is strictly greater than every key
    /// already present; adds the record's length to the size total.
    pub fn insert(&mut self, p: KVPair)
        requires
            old(self).wf(),
            old(self)@.len() > 0 ==> lex_lt(old(self)@.last().0, p.k@),
            size_of(old(self)@) + p.k@.len() + p.v@.len() <= usize::MAX,
        ensures
            final(self).wf(),
            final(self)@ == old(self)@.push((p.k@, p.v@)),
            final(self).len == old(self).len + p.k@.len() + p.v@.len(),
    {
        proof {
            lemma_size_of_nonneg(self@);
        }
        let ghost olds = self@;
        let ghost pk = p.k@;
        let ghost pv = p.v@;
        self.len = self.len + p.k.len() + p.v.len();
        self.content.push(p);
        proof {
            assert(self@ =~= olds.push((pk, pv)));
            assert(self@.drop_last() =~= olds);
            assert forall|i: int, j: int| 0 <= i < j < self@.len() implies lex_lt(
                self@[i].0,
                self@[j].0,
            ) by {
                if j == self@.len() - 1 && i < olds.len() - 1 {
                    lemma_lex_transitive(olds[i].0, olds.last().0, pk);
                }
            }
        }
    }

    /// The key of the first (least) record, if the block is not empty.
    pub fn first_key(&self) -> (r: Option<Vec<u8>>)
        ensures
            match r {
                Some(k) => self@.len() > 0 && k@ == self@[0].0,
                None => self@.len() == 0,
            },
    {
        if self.content.len() == 0 {
            None
        } else {
            Some(slice_to_vec(self.content[0].k.as_slice()))
        }
    }

    /// Looks the key up by binary search over the sorted records.
    pub fn get(&self, key: &[u8]) -> (r: Option<Vec<u8>>)
        requires
            self.wf(),
        ensures
            match r {
                Some(v) => map_of(self@).contains_key(key@) && v@ == map_of(self@)[key@],
                None => !map_of(self@).contains_key(key@),
            },
    {
        let ghost s = self@;
        let mut lo: usize = 0;
        let mut hi: usize = self.content.len();
        while lo < hi
            invariant
                self.wf(),
                s == self@,
                lo <= hi <= s.len(),
                forall|i: int| 0 <= i < lo ==> lex_lt(s[i].0, key@),
                forall|i: int| hi <= i < s.len() ==> lex_lt(key@, s[i].0),
            decreases hi - lo,
        {
            let mid = lo + (hi - lo) / 2;
            match key_cmp(self.content[mid].k.as_slice(), key) {
                KeyOrder::Less => {
                    proof {
                        assert forall|i: int| 0 <= i < mid + 1 implies lex_lt(s[i].0, key@) by {
                            if i < mid {
                                lemma_lex_transitive(s[i].0, s[mid as int].0, key@);
                            }
                        }
                    }
                    lo = mid + 1;
                },
                KeyOrder::Greater => {
                    proof {
                        assert forall|i: int| mid <= i < s.len() implies lex_lt(key@, s[i].0) by {
                            if i > mid {
                                lemma_lex_transitive(key@, s[mid as int].0, s[i].0);
                            }
                        }
                    }
                    hi = mid;
                },
                KeyOrder::Equal => {
                    proof {
                        lemma_sorted_distinct(s);
                        lemma_map_of_index(s, mid as int);
                    }
                    return Some(slice_to_vec(self.content[mid].v.as_slice()));
                },
            }
        }
        proof {
            lemma_map_of_contains(s, key@);
            assert forall|i: int| 0 <= i < s.len() implies s[i].0 != key@ by {
                lemma_lex_trichotomy(s[i].0, key@);
            }
        }
        None
    }
}

/// The serialized form of a block: the record count, then the records.
pub open spec fn enc_block(recs: Seq<(Seq<u8>, Seq<u8>)>) -> Seq<u8> {
    enc_u64(recs.len() as u64) + enc_recs(recs)
}

/// Decodes `n` records starting at `pos`, yielding the records and the
/// position just past them.
pub open spec fn dec_recs_n(data: Seq<u8>, pos: int, n: nat) -> Option<
    (Seq<(Seq<u8>, Seq<u8>)>, int),
>
    decreases n,
{
    if n == 0 {
        Some((Seq::empty(), pos))
    } else {
        match dec_rec(data, pos) {
            None => None,
            Some((k, v, p2)) => match dec_recs_n(data, p2, (n - 1) as nat) {
                None => None,
                Some((s, p3)) => Some((seq![(k, v)] + s, p3)),
            },
        }
    }
}

/// Decodes one block at `pos`: the record count, then that many
/// records.
pub open spec fn dec_block(data: Seq<u8>, pos: int) -> Option<(Seq<(Seq<u8>, Seq<u8>)>, int)> {
    if pos + 8 <= data.len() {
        let n = spec_u64_from_le_bytes(data.subrange(pos, pos + 8));
        dec_recs_n(data, pos + 8, n as nat)
    } else {
        None
    }
}

/// Appends the serialized form of `b` to `out`.
pub fn encode_block(b: &Block, out: &mut Vec<u8>)
    ensures
        final(out)@ == old(out)@ + enc_block(b@),
{
    proof {
        lemma_auto_spec_u64_to_from_le_bytes();
    }
    let count = u64_to_le_bytes(b.content.len() as u64);
    out.extend_from_slice(count.as_slice());
    let ghost base = out@;
    let mut i: usize = 0;
    while i < b.content.len()
        invariant
            i <= b.content@.len(),
            base == old(out)@ + enc_u64(b@.len() as u64),
            out@ == base + enc_recs(b@.subrange(0, i as int)),
            b@.len() == b.content@.len(),
        decreases b.content@.len() - i,
    {
        let ghost prefix = b@.subrange(0, i as int);
        encode_record(b.content[i].k.as_slice(), b.content[i].v.as_slice(), out);
        proof {
            lemma_enc_recs_push(prefix, b@[i as int].0, b@[i as int].1);
            assert(b@.subrange(0, i + 1) =~= prefix.push((b@[i as int].0, b@[i as int].1)));
            assert(out@ =~= base + enc_recs(b@.subrange(0, i + 1)));
        }
        i = i + 1;
    }
    proof {
        assert(b@.subrange(0, b@.len() as int) =~= b@);
        assert(out@ =~= old(out)@ + enc_block(b@));
    }
}

/// Decodes one block at position `pos` of `data`, rebuilding its size
/// total.  Fails exactly when the bytes do not hold a complete block
/// or its accounted size cannot be represented.
pub fn decode_block(data: &[u8], pos: usize) -> (r: Result<(Block, usize), Error>)
    requires
        pos <= data@.len(),
    ensures
        match r {
            Ok(p) => {
                &&& dec_block(data@, pos as int) == Some((p.0@, p.1 as int))
                &&& p.0.len == size_of(p.0@)
                &&& pos < p.1 <= data@.len()
            },
            Err(e) => {
                &&& e == Error::Codec
                &&& match dec_block(data@, pos as int) {
                    None => true,
                    Some(p) => size_of(p.0) > usize::MAX,
                }
            },
        },
{
    let n = data.len();
    if n - pos < 8 {
        return Err(Error::Codec);
    }
    let count = u64_from_le_bytes(slice_subrange(data, pos, pos + 8));
    let ghost start = pos + 8;
    let mut content: Vec<KVPair> = Vec::new();
    let mut size: usize = 0;
    let mut cur: usize = pos + 8;
    let mut i: u64 = 0;
    while i < count
        invariant
            pos + 8 <= data@.len(),
            i <= count,
            pos < cur <= data@.len(),
            content@.len() == i,
            size == size_of(content@.map(|j: int, p: KVPair| (p.k@, p.v@))),
            dec_block(data@, pos as int) == match dec_recs_n(data@, cur as int, (count - i) as nat) {
                None => None::<(Seq<(Seq<u8>, Seq<u8>)>, int)>,
                Some(q) => Some(
                    (content@.map(|j: int, p: KVPair| (p.k@, p.v@)) + q.0, q.1),
                ),
            },
        decreases count - i,
    {
        let ghost done = content@.map(|j: int, p: KVPair| (p.k@, p.v@));
        match decode_record(data, cur) {
            None => {
                return Err(Error::Codec);
            },
            Some(p) => {
                let (pair, next) = p;
                let ghost rest = (count - i - 1) as nat;
                proof {
                    assert(dec_recs_n(data@, cur as int, (count - i) as nat) == (match dec_recs_n(
                        data@,
                        next as int,
                        rest,
                    ) {
                        None => None::<(Seq<(Seq<u8>, Seq<u8>)>, int)>,
                        Some(q) => Some((seq![(pair.k@, pair.v@)] + q.0, q.1)),
                    }));
                }
                if pair.k.len() > usize::MAX - size || pair.v.len() > usize::MAX - size
                    - pair.k.len() {
                    proof {
                        lemma_decode_block_overflow(
                            data@,
                            pos as int,
                            done,
                            next as int,
                            rest,
                            (pair.k@, pair.v@),
                            size as int,
                        );
                    }
                    return Err(Error::Codec);
                }
                size = size + pair.k.len() + pair.v.len();
                let ghost pk = pair.k@;
                let ghost pv = pair.v@;
                content.push(pair);
                proof {
                    assert(content@.map(|j: int, p: KVPair| (p.k@, p.v@)) =~= done.push((pk, pv)));
                    assert(done.push((pk, pv)).drop_last() =~= done);
                    assert forall|q: (Seq<(Seq<u8>, Seq<u8>)>, int)|
                        dec_recs_n(data@, next as int, rest) == Some(q) implies done.push((pk, pv))
                        + q.0 =~= done + (seq![(pk, pv)] + q.0) by {}
                }
                cur = next;
                i = i + 1;
            },
        }
    }
    let b = Block { len: size, content };
    proof {
        assert(dec_recs_n(data@, cur as int, 0) == Some(
            (Seq::<(Seq<u8>, Seq<u8>)>::empty(), cur as int),
        ));
        assert(b@ + Seq::<(Seq<u8>, Seq<u8>)>::empty() =~= b@);
    }
    Ok((b, cur))
}

/// If adding the next record's length to the running size overflows,
/// the whole block's accounted size cannot be represented.
proof fn lemma_decode_block_overflow(
    data: Seq<u8>,
    pos: int,
    done: Seq<(Seq<u8>, Seq<u8>)>,
    next: int,
    rest: nat,
    rec: (Seq<u8>, Seq<u8>),
    size: int,
)
    requires
        size == size_of(done),
        size + rec.0.len() + rec.1.len() > usize::MAX,
        dec_block(data, pos) == match dec_recs_n(data, next, rest) {
            None => None::<(Seq<(Seq<u8>, Seq<u8>)>, int)>,
            Some(q) => Some((done + (seq![rec] + q.0), q.1)),
        },
    ensures
        match dec_block(data, pos) {
            None => true,
            Some(p) => size_of(p.0) > usize::MAX,
        },
{
    match dec_recs_n(data, next, rest) {
        None => {},
        Some(q) => {
            let whole = done + (seq![rec] + q.0);
            lemma_size_of_prefix(whole, done.len() as int + 1);
            assert(whole.subrange(0, done.len() as int + 1) =~= done.push(rec));
            assert(done.push(rec).drop_last() =~= done);
            assert(size_of(done.push(rec)) == size + rec.0.len() + rec.1.len());
        },
    }
}

/// A prefix of a record run accounts for no more than the whole run.
pub proof fn lemma_size_of_prefix(s: Seq<(Seq<u8>, Seq<u8>)>, n: int)
    requires
        0 <= n <= s.len(),
    ensures
        size_of(s.subrange(0, n)) <= size_of(s),
    decreases s.len(),
{
    if n == s.len() {
        assert(s.subrange(0, n) =~= s);
    } else {
        assert(s.drop_last().subrange(0, n) =~= s.subrange(0, n));
        lemma_size_of_prefix(s.drop_last(), n);
    }
}

/// Decoding reads back exactly the records that `enc_recs` wrote.
pub proof fn lemma_dec_recs_n_of_enc(data: Seq<u8>, pos: int, recs: Seq<(Seq<u8>, Seq<u8>)>)
    requires
        0 <= pos,
        forall|i: int|
            0 <= i < recs.len() ==> recs[i].0.len() <= usize::MAX && recs[i].1.len() <= usize::MAX,
        pos + enc_recs(recs).len() <= data.len(),
        data.subrange(pos, pos + enc_recs(recs).len()) == enc_recs(recs),
    ensures
        dec_recs_n(data, pos, recs.len()) == Some((recs, pos + enc_recs(recs).len())),
    decreases recs.len(),
{
    if recs.len() == 0 {
        assert(recs =~= Seq::<(Seq<u8>, Seq<u8>)>::empty());
    } else {
        let r0 = recs[0];
        let rest = recs.drop_first();
        let e0 = enc_rec(r0.0, r0.1);
        lemma_enc_rec_len(r0.0, r0.1);
        let whole = data.subrange(pos, pos + enc_recs(recs).len());
        assert(data.subrange(pos, pos + e0.len()) =~= whole.subrange(0, e0.len() as int));
        assert(whole.subrange(0, e0.len() as int) =~= e0);
        lemma_dec_rec_of_enc(data, pos, r0.0, r0.1);
        let p2 = pos + e0.len();
        assert(data.subrange(p2, p2 + enc_recs(rest).len()) =~= whole.subrange(
            e0.len() as int,
            e0.len() + enc_recs(rest).len() as int,
        ));
        assert(whole.subrange(e0.len() as int, e0.len() + enc_recs(rest).len() as int) =~= enc_recs(rest));
        lemma_dec_recs_n_of_enc(data, p2, rest);
        assert(seq![(r0.0, r0.1)] + rest =~= recs);
    }
}

/// Decoding reads back exactly the block that `enc_block` wrote.
pub proof fn lemma_dec_block_of_enc(data: Seq<u8>, pos: int, recs: Seq<(Seq<u8>, Seq<u8>)>)
    requires
        0 <= pos,
        recs.len() <= usize::MAX,
        forall|i: int|
            0 <= i < recs.len() ==> recs[i].0.len() <= usize::MAX && recs[i].1.len() <= usize::MAX,
        pos + enc_block(recs).len() <= data.len(),
        data.subrange(pos, pos + enc_block(recs).len()) == enc_block(recs),
    ensures
        dec_block(data, pos) == Some((recs, pos + enc_block(recs).len())),
{
    lemma_auto_spec_u64_to_from_le_bytes();
    let whole = data.subrange(pos, pos + enc_block(recs).len());
    assert(data.subrange(pos, pos + 8) =~= whole.subrange(0, 8));
    assert(whole.subrange(0, 8) =~= enc_u64(recs.len() as u64));
    assert(spec_u64_from_le_bytes(data.subrange(pos, pos + 8)) == recs.len() as u64);
    assert(data.subrange(pos + 8, pos + 8 + enc_recs(recs).len()) =~= whole.subrange(
        8,
        8 + enc_recs(recs).len() as int,
    ));
    assert(whole.subrange(8, 8 + enc_recs(recs).len() as int) =~= enc_recs(recs));
    lemma_dec_recs_n_of_enc(data, pos + 8, recs);
}

} // verus!
