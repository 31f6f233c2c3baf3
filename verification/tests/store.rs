//! Engine-level tests: the set/get contract, recovery, torn logs, and
//! corruption.

use tinydb::engine::{Engine, IndexEntry};
use tinydb::pager::PAGE_SIZE;
use tinydb::util::Error;

fn fresh() -> Engine {
    Engine::open(Vec::new(), Vec::new()).unwrap()
}

fn reopen(e: &Engine) -> Result<Engine, Error> {
    Engine::open(e.pager.file.clone(), e.wal.file.clone())
}

/// The log payload of one set, as the engine frames it.
fn set_payload(pid: u64, off: u32, key: &[u8], val: &[u8]) -> Vec<u8> {
    let mut p = Vec::new();
    p.extend_from_slice(b"SET");
    p.extend_from_slice(&pid.to_le_bytes());
    p.extend_from_slice(&off.to_le_bytes());
    p.extend_from_slice(&(key.len() as u32).to_le_bytes());
    p.extend_from_slice(&(val.len() as u32).to_le_bytes());
    p.extend_from_slice(key);
    p.extend_from_slice(val);
    p
}

#[test]
fn s1_single_set_get() {
    let mut e = fresh();
    e.set(b"k1", b"v1").unwrap();
    assert_eq!(e.get(b"k1").unwrap(), Some(b"v1".to_vec()));
    assert_eq!(e.get(b"k2").unwrap(), None);
}

#[test]
fn s2_recovery_after_reopen() {
    let mut e = fresh();
    e.set(b"key1", b"value1").unwrap();
    let e2 = reopen(&e).unwrap();
    assert_eq!(e2.get(b"key1").unwrap(), Some(b"value1".to_vec()));
}

#[test]
fn s3_overwrite_last_writer_wins() {
    let mut e = fresh();
    e.set(b"a", b"1").unwrap();
    e.set(b"a", b"22").unwrap();
    assert_eq!(e.get(b"a").unwrap(), Some(b"22".to_vec()));
    let e2 = reopen(&e).unwrap();
    assert_eq!(e2.get(b"a").unwrap(), Some(b"22".to_vec()));
}

#[test]
fn s4_page_rollover_after_37_records() {
    // each record encodes to 8 + 8 + 200 = 216 bytes; 37 of them use
    // 7992 <= 8160 bytes, so the 38th must start page 1 at offset 0
    let mut e = fresh();
    let val = vec![b'x'; 200];
    for i in 0..100u32 {
        let key = format!("k{:07}", i);
        assert_eq!(key.len(), 8);
        if i == 37 {
            assert_eq!(e.next_page, 0);
        }
        e.set(key.as_bytes(), &val).unwrap();
        if i == 37 {
            assert_eq!(e.next_page, 1);
        }
    }
    assert_eq!(e.index.iter().find(|x| x.key == b"k0000037").unwrap().off, 0);
    assert_eq!(
        e.index.iter().find(|x| x.key == b"k0000037").unwrap().page_id,
        1
    );
    for i in 0..100u32 {
        let key = format!("k{:07}", i);
        assert_eq!(e.get(key.as_bytes()).unwrap(), Some(val.clone()));
    }
}

#[test]
fn s5_torn_tail_loses_only_last_set() {
    let mut e = fresh();
    for i in 0..4u32 {
        let key = format!("k{}", i);
        let val = format!("v{}", i);
        e.set(key.as_bytes(), val.as_bytes()).unwrap();
    }
    // the fifth set reaches the log but not the data file, and its log
    // record loses its last payload byte: a torn tail
    let page = e.pager.read_page(e.next_page).unwrap();
    let payload = set_payload(e.next_page, page.used, b"k4", b"v4");
    e.wal.append(&payload);
    let n = e.wal.file.len();
    e.wal.file.truncate(n - 1);
    let e2 = reopen(&e).unwrap();
    for i in 0..4u32 {
        let key = format!("k{}", i);
        let val = format!("v{}", i);
        assert_eq!(e2.get(key.as_bytes()).unwrap(), Some(val.into_bytes()));
    }
    assert_eq!(e2.get(b"k4").unwrap(), None);
}

#[test]
fn s6_bit_flip_in_data_file() {
    let mut e = fresh();
    e.set(b"k1", b"v1").unwrap();
    e.pager.file[100] ^= 0x01;
    // the read of page 0 fails its CRC check
    assert_eq!(e.get(b"k1").unwrap_err(), Error::PageCrc(0));
    // reopen surfaces the same error: the index rebuild reads page 0
    // before replay could repair it
    assert_eq!(reopen(&e).unwrap_err(), Error::PageCrc(0));
}

#[test]
fn crash_between_log_sync_and_page_write_is_repaired() {
    let mut e = fresh();
    e.set(b"k1", b"v1").unwrap();
    // the second set reaches the log in full but its page write is lost
    let page = e.pager.read_page(e.next_page).unwrap();
    let payload = set_payload(e.next_page, page.used, b"k2", b"v2");
    e.wal.append(&payload);
    let e2 = reopen(&e).unwrap();
    assert_eq!(e2.get(b"k1").unwrap(), Some(b"v1".to_vec()));
    assert_eq!(e2.get(b"k2").unwrap(), Some(b"v2".to_vec()));
}

#[test]
fn empty_value_round_trips() {
    let mut e = fresh();
    e.set(b"k", b"").unwrap();
    assert_eq!(e.get(b"k").unwrap(), Some(Vec::new()));
    let e2 = reopen(&e).unwrap();
    assert_eq!(e2.get(b"k").unwrap(), Some(Vec::new()));
}

#[test]
fn largest_record_round_trips() {
    // 8 + 2048 + 6104 == 8160: the largest record one page can hold
    let mut e = fresh();
    let key = vec![b'k'; 2048];
    let val = vec![b'v'; 6104];
    e.set(&key, &val).unwrap();
    assert_eq!(e.get(&key).unwrap(), Some(val.clone()));
    let e2 = reopen(&e).unwrap();
    assert_eq!(e2.get(&key).unwrap(), Some(val));
}

#[test]
fn long_value_round_trips() {
    // a 7000-byte value fits when the key is short enough
    let mut e = fresh();
    let key = vec![b'k'; 1152];
    let val = vec![b'v'; 7000];
    e.set(&key, &val).unwrap();
    assert_eq!(e.get(&key).unwrap(), Some(val));
}

#[test]
fn many_keys_round_trip_across_reopen() {
    let mut e = fresh();
    for i in 0..200u32 {
        let key = format!("key-{}", i);
        let val = format!("value-{}", i * 3);
        e.set(key.as_bytes(), val.as_bytes()).unwrap();
    }
    let e2 = reopen(&e).unwrap();
    for i in 0..200u32 {
        let key = format!("key-{}", i);
        let val = format!("value-{}", i * 3);
        assert_eq!(e2.get(key.as_bytes()).unwrap(), Some(val.into_bytes()));
    }
}

#[test]
fn short_set_record_refuses_open() {
    // a log record tagged SET but too short for its fixed fields cannot be
    // applied, and the open is refused
    let mut e = fresh();
    e.wal.append(b"SET\x01\x02");
    assert_eq!(reopen(&e).unwrap_err(), Error::BadRecord(0));
}

#[test]
fn oversized_set_record_refuses_open() {
    // declared lengths that overrun the payload region cannot be applied
    let payload = set_payload(0, 8150, b"key", b"valuevalue");
    let mut e = fresh();
    e.wal.append(&payload);
    assert_eq!(reopen(&e).unwrap_err(), Error::BadRecord(0));
}

#[test]
fn unknown_tag_is_skipped_by_replay() {
    let mut e = fresh();
    e.set(b"k1", b"v1").unwrap();
    e.wal.append(b"XYZ-something");
    e.wal.append(b"ab");
    let e2 = reopen(&e).unwrap();
    assert_eq!(e2.get(b"k1").unwrap(), Some(b"v1".to_vec()));
}

#[test]
fn stale_index_entry_surfaces_bad_entry() {
    let mut e = fresh();
    e.set(b"k1", b"v1").unwrap();
    e.index[0] = IndexEntry { key: b"k1".to_vec(), page_id: 0, off: 8155, val_len: 2 };
    assert_eq!(e.get(b"k1").unwrap_err(), Error::BadEntry(0));
}

#[test]
fn data_file_grows_by_whole_pages() {
    let mut e = fresh();
    e.set(b"k1", b"v1").unwrap();
    assert_eq!(e.pager.file.len(), PAGE_SIZE);
    assert_eq!(e.wal.next_lsn, 1);
}
