//! End-to-end behaviour of the database engine.

use fwdb::db::{Database, DatabaseConfig};
use fwdb::wire::{Cmd, Response, run_cmd};
use fwdb::Error;

fn conf() -> DatabaseConfig {
    DatabaseConfig {
        memtable_size: 24,
        block_size: 16,
        name: "hello".to_string(),
        data_dir: "/var/db/".to_string(),
    }
}

fn open() -> Database {
    Database::new(conf()).unwrap()
}

#[test]
fn set_then_get() {
    let mut db = open();
    db.set(b"a", b"1").unwrap();
    assert_eq!(db.get(b"a").unwrap(), b"1".to_vec());
}

#[test]
fn set_twice_last_wins() {
    let mut db = open();
    db.set(b"a", b"1").unwrap();
    db.set(b"a", b"2").unwrap();
    assert_eq!(db.get(b"a").unwrap(), b"2".to_vec());
}

#[test]
fn get_missing_is_not_found() {
    let mut db = open();
    assert_eq!(db.get(b"missing").unwrap_err(), Error::NotFound);
}

#[test]
fn four_sets_then_gets() {
    let mut db = open();
    db.set(b"a", b"1").unwrap();
    db.set(b"b", b"2").unwrap();
    db.set(b"c", b"3").unwrap();
    db.set(b"d", b"4").unwrap();
    assert_eq!(db.get(b"a").unwrap(), b"1".to_vec());
    assert_eq!(db.get(b"d").unwrap(), b"4".to_vec());
}

#[test]
fn flush_triggered_by_threshold() {
    let mut db = open();
    // 9 bytes per record; the third would pass 24, so it triggers a
    // flush and lands in a fresh memtable.
    db.set(b"a", b"11111111").unwrap();
    db.set(b"b", b"22222222").unwrap();
    assert_eq!(db.num_sstables(), 0);
    db.set(b"c", b"33333333").unwrap();
    assert_eq!(db.num_sstables(), 1);
    db.set(b"d", b"44444444").unwrap();
    assert_eq!(db.num_sstables(), 1);
    // "a" and "b" now come from the SSTable, "c" and "d" from memory.
    assert_eq!(db.get(b"a").unwrap(), b"11111111".to_vec());
    assert_eq!(db.get(b"b").unwrap(), b"22222222".to_vec());
    assert_eq!(db.get(b"c").unwrap(), b"33333333".to_vec());
    assert_eq!(db.get(b"d").unwrap(), b"44444444".to_vec());
    assert_eq!(db.get(b"e").unwrap_err(), Error::NotFound);
}

#[test]
fn crash_and_replay_restores_every_key() {
    let mut db = open();
    let mut expect: Vec<(Vec<u8>, Vec<u8>)> = Vec::new();
    for i in 0..20u8 {
        let k = vec![b'k', b'0' + (i / 10), b'0' + (i % 10)];
        let v = vec![b'v', i];
        db.set(&k, &v).unwrap();
        expect.push((k, v));
    }
    // The bytes the surrounding layer would have written to disk.
    let wal = db.wal_bytes().clone();
    drop(db);
    let mut db2 = open();
    db2.recover(wal);
    for (k, v) in expect {
        assert_eq!(db2.get(&k).unwrap(), v);
    }
    assert_eq!(db2.get(b"other").unwrap_err(), Error::NotFound);
}

#[test]
fn replay_discards_torn_tail() {
    let mut db = open();
    db.set(b"a", b"1").unwrap();
    db.set(b"b", b"2").unwrap();
    let mut wal = db.wal_bytes().clone();
    // A crash mid-append leaves a truncated record behind.
    wal.extend_from_slice(&[7, 0, 0, 0, 0, 0, 0, 0, b'x']);
    let mut db2 = open();
    db2.recover(wal);
    assert_eq!(db2.get(b"a").unwrap(), b"1".to_vec());
    assert_eq!(db2.get(b"b").unwrap(), b"2".to_vec());
}

#[test]
fn memtable_shadows_sstable() {
    let mut db = open();
    db.set(b"a", b"1").unwrap();
    db.flush().unwrap();
    db.set(b"a", b"2").unwrap();
    assert_eq!(db.get(b"a").unwrap(), b"2".to_vec());
}

#[test]
fn newest_sstable_wins() {
    let mut db = open();
    db.set(b"a", b"old").unwrap();
    db.flush().unwrap();
    db.set(b"a", b"new").unwrap();
    db.set(b"b", b"2").unwrap();
    db.flush().unwrap();
    assert_eq!(db.num_sstables(), 2);
    assert_eq!(db.get(b"a").unwrap(), b"new".to_vec());
    assert_eq!(db.get(b"b").unwrap(), b"2".to_vec());
}

#[test]
fn older_sstable_still_reachable() {
    let mut db = open();
    db.set(b"a", b"1").unwrap();
    db.flush().unwrap();
    db.set(b"b", b"2").unwrap();
    db.flush().unwrap();
    // "a" lives only in the older table; the newer one must miss
    // without ending the search.
    assert_eq!(db.get(b"a").unwrap(), b"1".to_vec());
}

#[test]
fn flush_transparency() {
    let mut db = open();
    db.set(b"a", b"1").unwrap();
    db.set(b"bb", b"22").unwrap();
    db.set(b"ccc", b"333").unwrap();
    db.flush().unwrap();
    db.flush().unwrap();
    db.flush().unwrap();
    assert_eq!(db.get(b"a").unwrap(), b"1".to_vec());
    assert_eq!(db.get(b"bb").unwrap(), b"22".to_vec());
    assert_eq!(db.get(b"ccc").unwrap(), b"333".to_vec());
    assert_eq!(db.get(b"d").unwrap_err(), Error::NotFound);
}

#[test]
fn flush_of_empty_memtable() {
    let mut db = open();
    db.flush().unwrap();
    assert_eq!(db.num_sstables(), 1);
    assert_eq!(db.get(b"a").unwrap_err(), Error::NotFound);
}

#[test]
fn zero_memtable_size_is_config_error() {
    let bad = DatabaseConfig {
        memtable_size: 0,
        block_size: 16,
        name: "hello".to_string(),
        data_dir: "/var/db/".to_string(),
    };
    match Database::new(bad) {
        Err(e) => assert_eq!(e, Error::Config),
        _ => panic!("expected a config error"),
    }
}

#[test]
fn many_keys_across_many_flushes() {
    let mut db = open();
    let mut keys: Vec<Vec<u8>> = Vec::new();
    for i in 0..50u8 {
        let k = vec![b'a' + (i / 10), b'0' + (i % 10)];
        let v = vec![i, i, i, i, i, i];
        db.set(&k, &v).unwrap();
        keys.push(k);
    }
    assert!(db.num_sstables() > 1);
    for (i, k) in keys.iter().enumerate() {
        let i = i as u8;
        assert_eq!(db.get(k).unwrap(), vec![i, i, i, i, i, i]);
    }
}

#[test]
fn error_descriptions() {
    assert_eq!(Error::NotFound.description(), "Key not found");
    assert_eq!(Error::Io.description(), "IO Error");
    assert_eq!(Error::Codec.description(), "Codec Error");
    assert_eq!(Error::Config.description(), "Config Error");
}

#[test]
fn run_cmd_dispatches_to_engine() {
    let mut db = open();
    match run_cmd(Cmd::Put(b"a".to_vec(), b"1".to_vec()), &mut db) {
        Response::Done(m) => assert_eq!(m, b"set a".to_vec()),
        Response::Fail(_) => panic!("set failed"),
    }
    match run_cmd(Cmd::Get(b"a".to_vec()), &mut db) {
        Response::Done(v) => assert_eq!(v, b"1".to_vec()),
        Response::Fail(_) => panic!("get failed"),
    }
    match run_cmd(Cmd::Get(b"nope".to_vec()), &mut db) {
        Response::Done(_) => panic!("expected a miss"),
        Response::Fail(s) => assert_eq!(s, "Key not found"),
    }
}
