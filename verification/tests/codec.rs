//! The record codec, blocks, the index, the WAL, and SSTable images.

use fwdb::kv::{KVPair, encode_record, decode_record};
use fwdb::block::{Block, encode_block, decode_block};
use fwdb::index::IndexBlock;
use fwdb::memtable::Memtable;
use fwdb::sstable::SSTable;
use fwdb::wal::Log;
use fwdb::keys::{key_cmp, KeyOrder};
use fwdb::wire::{Cmd, encode_cmd, decode_cmd};
use fwdb::Error;

#[test]
fn record_bytes_are_length_prefixed_little_endian() {
    let mut out: Vec<u8> = Vec::new();
    encode_record(b"ab", b"c", &mut out);
    let expected: Vec<u8> = vec![
        2, 0, 0, 0, 0, 0, 0, 0, b'a', b'b', // key length, key
        1, 0, 0, 0, 0, 0, 0, 0, b'c', // value length, value
    ];
    assert_eq!(out, expected);
}

#[test]
fn record_roundtrip() {
    let mut out: Vec<u8> = Vec::new();
    encode_record(b"key", b"value", &mut out);
    encode_record(b"", b"", &mut out);
    let (p1, pos) = decode_record(&out, 0).unwrap();
    assert_eq!(p1.k, b"key".to_vec());
    assert_eq!(p1.v, b"value".to_vec());
    let (p2, end) = decode_record(&out, pos).unwrap();
    assert_eq!(p2.k, Vec::<u8>::new());
    assert_eq!(p2.v, Vec::<u8>::new());
    assert_eq!(end, out.len());
    assert!(decode_record(&out, end).is_none());
}

#[test]
fn truncated_record_fails_to_decode() {
    let mut out: Vec<u8> = Vec::new();
    encode_record(b"abc", b"def", &mut out);
    out.truncate(out.len() - 1);
    assert!(decode_record(&out, 0).is_none());
    assert!(decode_record(&[7, 0, 0], 0).is_none());
}

#[test]
fn kvpair_len_counts_both_sides() {
    let p = KVPair::new(b"ab", b"cde");
    assert_eq!(p.len(), 5);
}

#[test]
fn block_insert_first_key_get() {
    let mut b = Block::new();
    assert!(b.first_key().is_none());
    b.insert(KVPair::new(b"a", b"1"));
    b.insert(KVPair::new(b"b", b"2"));
    b.insert(KVPair::new(b"c", b"3"));
    assert_eq!(b.first_key().unwrap(), b"a".to_vec());
    assert_eq!(b.len, 6);
    assert_eq!(b.get(b"b").unwrap(), b"2".to_vec());
    assert!(b.get(b"bb").is_none());
    assert!(b.get(b"0").is_none());
    assert!(b.get(b"z").is_none());
}

#[test]
fn block_roundtrip() {
    let mut b = Block::new();
    b.insert(KVPair::new(b"k1", b"v1"));
    b.insert(KVPair::new(b"k2", b"v2"));
    let mut out: Vec<u8> = Vec::new();
    encode_block(&b, &mut out);
    let (b2, end) = decode_block(&out, 0).unwrap();
    assert_eq!(end, out.len());
    assert_eq!(b2.len, b.len);
    assert_eq!(b2.content.len(), 2);
    assert_eq!(b2.get(b"k1").unwrap(), b"v1".to_vec());
    assert_eq!(b2.get(b"k2").unwrap(), b"v2".to_vec());
}

#[test]
fn garbage_block_is_codec_error() {
    let garbage: Vec<u8> = vec![0xff, 0xff, 0xff];
    assert_eq!(decode_block(&garbage, 0).unwrap_err(), Error::Codec);
}

#[test]
fn memtable_insert_overwrites_and_reports_prior() {
    let mut m = Memtable::new(16);
    assert!(m.insert(b"k", b"1").is_none());
    assert_eq!(m.insert(b"k", b"2").unwrap(), b"1".to_vec());
    assert_eq!(m.get(b"k").unwrap(), b"2".to_vec());
    assert!(m.get(b"other").is_none());
    // The estimate counts both inserts.
    assert_eq!(m.len, 4);
}

#[test]
fn to_blocks_packs_to_block_size() {
    let mut m = Memtable::new(16);
    m.insert(b"a", b"0123456"); // 8 bytes
    m.insert(b"b", b"0123456"); // 8 bytes
    m.insert(b"c", b"0123456"); // 8 bytes
    let blocks = m.to_blocks();
    assert_eq!(blocks.len(), 2);
    assert_eq!(blocks[0].content.len(), 2);
    assert_eq!(blocks[0].len, 16);
    assert_eq!(blocks[1].content.len(), 1);
    for b in &blocks {
        assert!(b.len <= 16 || b.content.len() == 1);
    }
}

#[test]
fn oversized_record_sits_alone() {
    let mut m = Memtable::new(8);
    m.insert(b"a", b"1");
    m.insert(b"b", b"this value is far past the block size");
    m.insert(b"c", b"2");
    let blocks = m.to_blocks();
    assert_eq!(blocks.len(), 3);
    assert_eq!(blocks[1].content.len(), 1);
    assert!(blocks[1].len > 8);
    assert!(blocks[0].len <= 8 && blocks[2].len <= 8);
}

#[test]
fn empty_memtable_yields_no_blocks() {
    let m = Memtable::new(16);
    assert_eq!(m.to_blocks().len(), 0);
}

#[test]
fn index_lookup_picks_greatest_key_not_above() {
    let mut idx = IndexBlock::new();
    idx.insert(b"b".to_vec(), 0);
    idx.insert(b"f".to_vec(), 40);
    idx.insert(b"p".to_vec(), 90);
    assert_eq!(idx.get_offset_for(b"a"), None);
    assert_eq!(idx.get_offset_for(b"b"), Some(0));
    assert_eq!(idx.get_offset_for(b"c"), Some(0));
    assert_eq!(idx.get_offset_for(b"f"), Some(40));
    assert_eq!(idx.get_offset_for(b"g"), Some(40));
    assert_eq!(idx.get_offset_for(b"p"), Some(90));
    assert_eq!(idx.get_offset_for(b"zzz"), Some(90));
}

#[test]
fn sstable_roundtrip_and_index_monotonic() {
    let mut m = Memtable::new(16);
    let pairs: &[(&[u8], &[u8])] = &[
        (b"alpha", b"1111"),
        (b"beta", b"2222"),
        (b"delta", b"3333"),
        (b"gamma", b"4444"),
        (b"omega", b"5555"),
    ];
    for (k, v) in pairs {
        m.insert(k, v);
    }
    let blocks = m.to_blocks();
    let mut t = SSTable::build(&blocks).unwrap();
    for (k, v) in pairs {
        assert_eq!(t.get(k).unwrap(), v.to_vec());
    }
    assert_eq!(t.get(b"epsilon").unwrap_err(), Error::NotFound);
    assert_eq!(t.get(b"aaa").unwrap_err(), Error::NotFound);
    assert_eq!(t.get(b"zzz").unwrap_err(), Error::NotFound);
    // The first get loaded the index from the trailer: its entries
    // must be strictly increasing in key and offset, one per block.
    let idx = t.idx.as_ref().unwrap();
    assert_eq!(idx.content.len(), blocks.len());
    for w in idx.content.windows(2) {
        assert!(w[0].key < w[1].key);
        assert!(w[0].off < w[1].off);
    }
    assert_eq!(idx.content[0].off, 0);
}

#[test]
fn sstable_image_trailer_holds_index_size() {
    let mut m = Memtable::new(16);
    m.insert(b"k", b"v");
    let blocks = m.to_blocks();
    let t = SSTable::build(&blocks).unwrap();
    let img = &t.data;
    let n = img.len();
    let mut tail = [0u8; 8];
    tail.copy_from_slice(&img[n - 8..]);
    let idx_size = u64::from_le_bytes(tail) as usize;
    assert!(idx_size + 8 <= n);
    // The index region decodes as an index block with one entry.
    let (ib, end) = fwdb::index::decode_index(img, n - 8 - idx_size).unwrap();
    assert_eq!(end, n - 8);
    assert_eq!(ib.content.len(), 1);
    assert_eq!(ib.content[0].key, b"k".to_vec());
    assert_eq!(ib.content[0].off, 0);
}

#[test]
fn log_records_and_recovers() {
    let mut log = Log::new();
    log.record(b"a", b"1");
    log.record(b"b", b"2");
    log.record(b"a", b"3");
    let m = log.recover_memtable(16);
    assert_eq!(m.get(b"a").unwrap(), b"3".to_vec());
    assert_eq!(m.get(b"b").unwrap(), b"2".to_vec());
    assert!(m.get(b"c").is_none());
    assert_eq!(m.block_size, 16);
}

#[test]
fn log_from_bytes_keeps_valid_prefix() {
    let mut log = Log::new();
    log.record(b"a", b"1");
    let mut bytes = log.data.clone();
    let valid_len = bytes.len();
    bytes.extend_from_slice(&[9, 9, 9]);
    let log2 = Log::from_bytes(bytes);
    assert_eq!(log2.data.len(), valid_len);
    let m = log2.recover_memtable(16);
    assert_eq!(m.get(b"a").unwrap(), b"1".to_vec());
}

#[test]
fn key_cmp_is_lexicographic() {
    assert_eq!(key_cmp(b"a", b"b"), KeyOrder::Less);
    assert_eq!(key_cmp(b"b", b"a"), KeyOrder::Greater);
    assert_eq!(key_cmp(b"a", b"a"), KeyOrder::Equal);
    assert_eq!(key_cmp(b"a", b"ab"), KeyOrder::Less);
    assert_eq!(key_cmp(b"ab", b"a"), KeyOrder::Greater);
    assert_eq!(key_cmp(b"", b""), KeyOrder::Equal);
    assert_eq!(key_cmp(b"", b"a"), KeyOrder::Less);
}

#[test]
fn cmd_frame_roundtrip() {
    let mut out: Vec<u8> = Vec::new();
    encode_cmd(&Cmd::Put(b"k".to_vec(), b"v".to_vec()), &mut out);
    match decode_cmd(&out).unwrap() {
        Cmd::Put(k, v) => {
            assert_eq!(k, b"k".to_vec());
            assert_eq!(v, b"v".to_vec());
        },
        _ => panic!("wrong command"),
    }
    let mut out2: Vec<u8> = Vec::new();
    encode_cmd(&Cmd::Get(b"k".to_vec()), &mut out2);
    match decode_cmd(&out2).unwrap() {
        Cmd::Get(k) => assert_eq!(k, b"k".to_vec()),
        _ => panic!("wrong command"),
    }
    assert!(decode_cmd(&[]).is_none());
    assert!(decode_cmd(&[9, 1, 2, 3]).is_none());
}
