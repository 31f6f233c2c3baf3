//! Byte-level tests: CRC-32, page serialization, and log framing.

use tinydb::pager::{Page, Pager, HDR_SZ, PAGE_SIZE};
use tinydb::util::{crc32, Error};
use tinydb::wal::Wal;

#[test]
fn crc32_standard_vector() {
    // The classic check value for CRC-32 (IEEE): crc of the ASCII digits.
    assert_eq!(crc32(b"123456789"), 0xCBF43926);
}

#[test]
fn crc32_empty_is_zero() {
    assert_eq!(crc32(b""), 0);
}

#[test]
fn page_roundtrip_preserves_fields() {
    let mut p = Page::new(7);
    p.lsn = 42;
    p.used = 13;
    p.data[0] = 0xAA;
    p.data[12] = 0xBB;
    let b = p.to_bytes();
    assert_eq!(b.len(), PAGE_SIZE);
    // magic 0xDEADBEEF, little endian
    assert_eq!(&b[0..4], &[0xEF, 0xBE, 0xAD, 0xDE]);
    let q = Page::from_bytes(&b).unwrap();
    assert_eq!(q.id, 7);
    assert_eq!(q.lsn, 42);
    assert_eq!(q.used, 13);
    assert_eq!(q.data, p.data);
}

#[test]
fn page_bad_magic_detected() {
    let p = Page::new(3);
    let mut b = p.to_bytes();
    b[0] ^= 0x01;
    assert_eq!(Page::from_bytes(&b).unwrap_err(), Error::BadMagic);
}

#[test]
fn page_crc_mismatch_detected() {
    let mut p = Page::new(3);
    p.used = 5;
    let mut b = p.to_bytes();
    // flip one payload bit, outside the CRC field
    b[HDR_SZ + 50] ^= 0x10;
    assert_eq!(Page::from_bytes(&b).unwrap_err(), Error::PageCrc(3));
}

#[test]
fn page_header_bit_flip_detected() {
    let mut p = Page::new(9);
    p.lsn = 1;
    let mut b = p.to_bytes();
    // flip one bit of the LSN field: covered by the CRC
    b[12] ^= 0x80;
    assert_eq!(Page::from_bytes(&b).unwrap_err(), Error::PageCrc(9));
}

#[test]
fn single_bit_flips_are_detected() {
    // every bit flip in the magic, id, LSN and used fields and in a sample
    // of payload bytes must make the decode fail; the CRC field itself and
    // the four reserved pad bytes are the only bytes no check covers
    let mut p = Page::new(1);
    p.used = 16;
    p.lsn = 3;
    for i in 0..p.data.len() {
        p.data[i] = (i % 251) as u8;
    }
    let b = p.to_bytes();
    let mut positions: Vec<usize> = (0..24).collect();
    positions.extend([32, 33, 100, 1000, 4095, 8000, 8191]);
    for byte in positions {
        for bit in 0..8 {
            let mut c = b.clone();
            c[byte] ^= 1u8 << bit;
            assert!(
                Page::from_bytes(&c).is_err(),
                "flip at byte {} bit {} undetected",
                byte,
                bit
            );
        }
    }
}

#[test]
fn read_page_beyond_eof_is_synthetic_empty() {
    let pager = Pager::open(Vec::new());
    let p = pager.read_page(3).unwrap();
    assert_eq!(p.id, 3);
    assert_eq!(p.lsn, 0);
    assert_eq!(p.used, 0);
    assert!(p.data.iter().all(|b| *b == 0));
}

#[test]
fn read_page_short_file_is_short_read() {
    let pager = Pager::open(vec![0u8; 100]);
    assert_eq!(pager.read_page(0).unwrap_err(), Error::ShortRead(0));
}

#[test]
fn write_page_then_read_back() {
    let mut pager = Pager::open(Vec::new());
    let mut p = Page::new(2);
    p.used = 3;
    p.lsn = 5;
    p.data[1] = 0x77;
    pager.write_page(&p);
    assert_eq!(pager.file.len(), 3 * PAGE_SIZE);
    // pages 0 and 1 are zero-filled gap
    let q = pager.read_page(2).unwrap();
    assert_eq!(q.id, 2);
    assert_eq!(q.lsn, 5);
    assert_eq!(q.used, 3);
    assert_eq!(q.data[1], 0x77);
}

#[test]
fn wal_append_assigns_dense_lsns() {
    let mut w = Wal::open(Vec::new());
    assert_eq!(w.next_lsn, 0);
    assert_eq!(w.append(b"alpha"), 0);
    assert_eq!(w.append(b"beta"), 1);
    assert_eq!(w.append(b"gamma"), 2);
    assert_eq!(w.next_lsn, 3);
}

#[test]
fn wal_replay_yields_appended_records_in_order() {
    let mut w = Wal::open(Vec::new());
    w.append(b"alpha");
    w.append(b"");
    w.append(b"gamma");
    let rs = Wal::replay_from_start(&w.file).unwrap();
    assert_eq!(rs.len(), 3);
    assert_eq!(rs[0].lsn, 0);
    assert_eq!(rs[0].payload, b"alpha");
    assert_eq!(rs[1].lsn, 1);
    assert_eq!(rs[1].payload, b"");
    assert_eq!(rs[2].lsn, 2);
    assert_eq!(rs[2].payload, b"gamma");
}

#[test]
fn wal_reopen_scans_next_lsn() {
    let mut w = Wal::open(Vec::new());
    w.append(b"one");
    w.append(b"two");
    let w2 = Wal::open(w.file.clone());
    assert_eq!(w2.next_lsn, 2);
}

#[test]
fn wal_crc_flip_fails_replay() {
    let mut w = Wal::open(Vec::new());
    w.append(b"alpha");
    w.append(b"beta");
    // corrupt one payload byte of the second record:
    // record 0 is 20 + 5 bytes; record 1 payload starts at 25 + 20
    let n = w.file.len();
    w.file[n - 1] ^= 0xFF;
    assert_eq!(Wal::replay_from_start(&w.file).unwrap_err(), Error::WalCrc(1));
}

#[test]
fn wal_torn_tail_ends_replay_cleanly() {
    let mut w = Wal::open(Vec::new());
    w.append(b"alpha");
    w.append(b"beta");
    for cut in 1..=(20 + 4) {
        let mut torn = w.file.clone();
        torn.truncate(w.file.len() - cut);
        let rs = Wal::replay_from_start(&torn).unwrap();
        assert_eq!(rs.len(), 1, "cut {} should leave one whole record", cut);
        assert_eq!(rs[0].payload, b"alpha");
    }
}

#[test]
fn wal_scan_counts_record_with_intact_header_in_torn_tail() {
    // the next-LSN scan trusts lengths and counts a record whose 16 header
    // bytes are present even when its payload is torn
    let mut w = Wal::open(Vec::new());
    w.append(b"alpha");
    let mut torn = w.file.clone();
    torn.truncate(w.file.len() - 2);
    let w2 = Wal::open(torn);
    assert_eq!(w2.next_lsn, 1);
}
