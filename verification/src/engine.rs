//! The engine: the user-facing set/get contract, placement of records into
//! pages, the write-ahead protocol, and open-time recovery.
//!
//! The engine owns in-memory images of the two files.  `set` appends a log
//! record to the log image and writes one page into the data image; the
//! caller persists the log bytes (and syncs) before the page bytes (and
//! syncs) — in that order, which is what makes a set crash-safe.  `get` reads
//! one page of the data image.  `open` rebuilds the index by scanning pages,
//! then replays the log from the start.

use crate::pager::{
    file_after_write, lemma_page_image_ok, page_absent, page_id_field, page_lsn, page_payload,
    page_present, page_readable, page_slice, page_start, page_used, spec_page_image,
    spec_read_err, Page, PageId, Pager, PAGE_SIZE, PAYLOAD_CAPACITY,
};
use crate::util::{bytes_eq, extend_bytes, push_u32_le, push_u64_le, read_u32_le, zeros, Error};
use crate::wal::{
    lemma_next_lsn_of_history, lemma_replay_of_history, records_view, spec_next_lsn, spec_replay,
    spec_wal_image, spec_wal_record, Lsn, Wal, WalRecord, WAL_HDR,
};
use vstd::bytes::{
    lemma_auto_spec_u32_to_from_le_bytes, lemma_auto_spec_u64_to_from_le_bytes,
    spec_u32_from_le_bytes, spec_u32_to_le_bytes, spec_u64_from_le_bytes, spec_u64_to_le_bytes,
};
use vstd::prelude::*;

verus! {

/// The in-page form of one record: key length, value length, key, value.
pub open spec fn spec_kv_record(key: Seq<u8>, val: Seq<u8>) -> Seq<u8> {
    spec_u32_to_le_bytes(key.len() as u32) + spec_u32_to_le_bytes(val.len() as u32) + key + val
}

/// The log payload describing one set: the ASCII tag `SET`, then page id,
/// offset, key length, value length, key, value.
pub open spec fn spec_set_payload(pid: PageId, off: u32, key: Seq<u8>, val: Seq<u8>) -> Seq<u8> {
    seq![0x53u8, 0x45u8, 0x54u8] + spec_u64_to_le_bytes(pid) + spec_u32_to_le_bytes(off)
        + spec_u32_to_le_bytes(key.len() as u32) + spec_u32_to_le_bytes(val.len() as u32) + key
        + val
}

/// `s` with `patch` written over its bytes starting at `off`; bytes outside
/// the patch keep their value, and the length does not change.
pub open spec fn splice(s: Seq<u8>, off: int, patch: Seq<u8>) -> Seq<u8> {
    Seq::new(
        s.len(),
        |i: int|
            if off <= i < off + patch.len() {
                patch[i - off]
            } else {
                s[i]
            },
    )
}

/// The payload bytes from `lo` to `hi` are exactly a sequence of in-page
/// records, back to back: each with a non-zero key length, and the last
/// ending exactly at `hi`.
pub open spec fn records_pack(payload: Seq<u8>, lo: int, hi: int) -> bool
    decreases hi - lo,
{
    if lo >= hi {
        lo == hi
    } else if lo + 8 > hi {
        false
    } else {
        let kl = spec_u32_from_le_bytes(payload.subrange(lo, lo + 4)) as int;
        let vl = spec_u32_from_le_bytes(payload.subrange(lo + 4, lo + 8)) as int;
        kl >= 1 && lo + 8 + kl + vl <= hi && records_pack(payload, lo + 8 + kl + vl, hi)
    }
}

/// One binding of the in-memory index: a key and where its current value
/// lives.
#[derive(Debug)]
pub struct IndexEntry {
    pub key: Vec<u8>,
    pub page_id: PageId,
    pub off: u32,
    pub val_len: u32,
}

/// No two index entries bind the same key.
pub open spec fn index_unique(idx: Seq<IndexEntry>) -> bool {
    forall|i: int, j: int| 0 <= i < j < idx.len() ==> idx[i].key@ != idx[j].key@
}

/// The binding the index holds for `key`: the latest entry wins.
pub open spec fn index_loc(idx: Seq<IndexEntry>, key: Seq<u8>) -> Option<(PageId, u32, u32)>
    decreases idx.len(),
{
    if idx.len() == 0 {
        None
    } else if idx.last().key@ == key {
        Some((idx.last().page_id, idx.last().off, idx.last().val_len))
    } else {
        index_loc(idx.drop_last(), key)
    }
}

/// The index as a map from key to binding.
pub open spec fn index_as_map(idx: Seq<IndexEntry>) -> Map<Seq<u8>, (PageId, u32, u32)> {
    Map::new(
        |k: Seq<u8>| index_loc(idx, k) is Some,
        |k: Seq<u8>| index_loc(idx, k)->Some_0,
    )
}

/// A binding held by the index points at a real record: its page is present
/// and decodes, the record lies below the page's used mark, and the stored
/// key length, value length and key bytes match the binding.
pub open spec fn entry_live(
    f: Seq<u8>,
    key: Seq<u8>,
    pid: PageId,
    off: u32,
    val_len: u32,
) -> bool {
    let payload = page_payload(f, pid);
    &&& page_present(f, pid)
    &&& page_readable(f, pid)
    &&& 1 <= key.len() <= u32::MAX
    &&& off + 8 + key.len() + val_len <= page_used(f, pid)
    &&& page_used(f, pid) <= PAYLOAD_CAPACITY
    &&& payload.subrange(off as int, off + 4) == spec_u32_to_le_bytes(key.len() as u32)
    &&& payload.subrange(off + 4, off + 8) == spec_u32_to_le_bytes(val_len)
    &&& payload.subrange(off + 8, off + 8 + key.len()) == key
}

/// The value bytes a binding points at.
pub open spec fn entry_value(f: Seq<u8>, key: Seq<u8>, loc: (PageId, u32, u32)) -> Seq<u8> {
    page_payload(f, loc.0).subrange(
        loc.1 + 8 + key.len(),
        loc.1 + 8 + key.len() + loc.2,
    )
}

/// What a lookup through a binding `(pid, off)` returns, reading lengths
/// from the page itself: the page's read error if it does not decode, a
/// bad-entry error if the stored lengths do not fit the payload region, and
/// the value bytes otherwise.
pub open spec fn spec_lookup_value(f: Seq<u8>, pid: PageId, off: u32) -> Result<Seq<u8>, Error> {
    if !page_readable(f, pid) {
        Err(spec_read_err(f, pid))
    } else {
        let payload = page_payload(f, pid);
        if off + 8 > PAYLOAD_CAPACITY {
            Err(Error::BadEntry(pid))
        } else {
            let kl = spec_u32_from_le_bytes(payload.subrange(off as int, off + 4)) as int;
            let vl = spec_u32_from_le_bytes(payload.subrange(off + 4, off + 8)) as int;
            if kl > PAYLOAD_CAPACITY || vl > PAYLOAD_CAPACITY || off + 8 + kl + vl
                > PAYLOAD_CAPACITY {
                Err(Error::BadEntry(pid))
            } else {
                Ok(payload.subrange(off + 8 + kl, off + 8 + kl + vl))
            }
        }
    }
}

/// A lookup that hits returns the binding of some entry of the index, whose
/// key is the key looked up.
proof fn lemma_index_loc_witness(idx: Seq<IndexEntry>, key: Seq<u8>) -> (i: int)
    requires
        index_loc(idx, key) is Some,
    ensures
        0 <= i < idx.len(),
        idx[i].key@ == key,
        index_loc(idx, key) == Some((idx[i].page_id, idx[i].off, idx[i].val_len)),
    decreases idx.len(),
{
    if idx.last().key@ == key {
        idx.len() - 1
    } else {
        lemma_index_loc_witness(idx.drop_last(), key)
    }
}

/// Updating the entry that holds `e`'s key rebinds that key and nothing
/// else.
proof fn lemma_index_loc_update(idx: Seq<IndexEntry>, i: int, e: IndexEntry, k: Seq<u8>)
    requires
        0 <= i < idx.len(),
        idx[i].key@ == e.key@,
        index_unique(idx),
    ensures
        index_loc(idx.update(i, e), k) == if k == e.key@ {
            Some((e.page_id, e.off, e.val_len))
        } else {
            index_loc(idx, k)
        },
    decreases idx.len(),
{
    let u = idx.update(i, e);
    if i == idx.len() - 1 {
        assert(u.drop_last() =~= idx.drop_last());
        assert(u.last() == e);
    } else {
        assert(u.drop_last() =~= idx.drop_last().update(i, e));
        assert(u.last() == idx.last());
        lemma_index_loc_update(idx.drop_last(), i, e, k);
        assert(idx.last().key@ != e.key@);
    }
}

/// Looks a key up in the index.
fn index_lookup(idx: &Vec<IndexEntry>, key: &[u8]) -> (r: Option<(PageId, u32, u32)>)
    ensures
        r == index_loc(idx@, key@),
{
    let mut i: usize = idx.len();
    proof {
        assert(idx@.take(i as int) =~= idx@);
    }
    while i > 0
        invariant
            i <= idx@.len(),
            index_loc(idx@, key@) == index_loc(idx@.take(i as int), key@),
        decreases i,
    {
        i = i - 1;
        proof {
            assert(idx@.take(i as int + 1).drop_last() =~= idx@.take(i as int));
            assert(idx@.take(i as int + 1).last() == idx@[i as int]);
        }
        if bytes_eq(idx[i].key.as_slice(), key) {
            return Some((idx[i].page_id, idx[i].off, idx[i].val_len));
        }
    }
    proof {
        assert(idx@.take(0) =~= Seq::<IndexEntry>::empty());
    }
    None
}

/// Binds `key` to a location, replacing the key's entry if one exists.
fn index_insert(idx: &mut Vec<IndexEntry>, key: &[u8], page_id: PageId, off: u32, val_len: u32)
    requires
        index_unique(old(idx)@),
    ensures
        index_unique(final(idx)@),
        index_loc(final(idx)@, key@) == Some((page_id, off, val_len)),
        forall|k: Seq<u8>| k != key@ ==> index_loc(final(idx)@, k) == index_loc(old(idx)@, k),
        index_as_map(final(idx)@) == index_as_map(old(idx)@).insert(key@, (page_id, off, val_len)),
        final(idx)@.len() <= old(idx)@.len() + 1,
        forall|i: int|
            0 <= i < final(idx)@.len() ==> (#[trigger] final(idx)@[i]).key@ == key@ || exists|j: int|
                0 <= j < old(idx)@.len() && final(idx)@[i] == old(idx)@[j],
{
    let n = idx.len();
    let mut i: usize = 0;
    while i < n
        invariant
            n == idx@.len(),
            i <= n,
            idx@ == old(idx)@,
            index_unique(idx@),
            forall|j: int| 0 <= j < i ==> idx@[j].key@ != key@,
        decreases n - i,
    {
        if bytes_eq(idx[i].key.as_slice(), key) {
            let e = IndexEntry { key: vstd::slice::slice_to_vec(key), page_id, off, val_len };
            assert forall|k: Seq<u8>| true implies #[trigger] index_loc(
                idx@.update(i as int, e),
                k,
            ) == if k == key@ {
                Some((page_id, off, val_len))
            } else {
                index_loc(idx@, k)
            } by {
                lemma_index_loc_update(idx@, i as int, e, k);
            }
            idx[i] = e;
            proof {
                assert(index_as_map(idx@) =~= index_as_map(old(idx)@).insert(
                    key@,
                    (page_id, off, val_len),
                ));
            }
            return ;
        }
        i = i + 1;
    }
    let e = IndexEntry { key: vstd::slice::slice_to_vec(key), page_id, off, val_len };
    idx.push(e);
    proof {
        assert(idx@.drop_last() =~= old(idx)@);
        assert(idx@.last().key@ == key@);
        assert forall|k: Seq<u8>| k != key@ implies index_loc(idx@, k) == index_loc(
            old(idx)@,
            k,
        ) by {}
        assert(index_as_map(idx@) =~= index_as_map(old(idx)@).insert(
            key@,
            (page_id, off, val_len),
        ));
    }
}

/// Packing only looks at the bytes between its bounds: it survives any
/// change outside them.
proof fn lemma_pack_stable(p1: Seq<u8>, p2: Seq<u8>, lo: int, hi: int)
    requires
        records_pack(p1, lo, hi),
        0 <= lo,
        hi <= p1.len(),
        hi <= p2.len(),
        forall|i: int| lo <= i < hi ==> p1[i] == p2[i],
    ensures
        records_pack(p2, lo, hi),
    decreases hi - lo,
{
    if lo >= hi {
    } else {
        assert(p2.subrange(lo, lo + 4) =~= p1.subrange(lo, lo + 4));
        assert(p2.subrange(lo + 4, lo + 8) =~= p1.subrange(lo + 4, lo + 8));
        let kl = spec_u32_from_le_bytes(p1.subrange(lo, lo + 4)) as int;
        let vl = spec_u32_from_le_bytes(p1.subrange(lo + 4, lo + 8)) as int;
        lemma_pack_stable(p1, p2, lo + 8 + kl + vl, hi);
    }
}

/// A packed span followed by one whole record is again a packed span.
proof fn lemma_pack_append(p: Seq<u8>, lo: int, hi: int, key: Seq<u8>, val: Seq<u8>)
    requires
        records_pack(p, lo, hi),
        0 <= lo,
        hi + 8 + key.len() + val.len() <= p.len(),
        1 <= key.len() <= u32::MAX,
        val.len() <= u32::MAX,
        p.subrange(hi, hi + 8 + key.len() + val.len()) == spec_kv_record(key, val),
    ensures
        records_pack(p, lo, hi + 8 + key.len() + val.len()),
    decreases hi - lo,
{
    lemma_auto_spec_u32_to_from_le_bytes();
    let hi2 = hi + 8 + key.len() + val.len();
    if lo == hi {
        assert(spec_u32_to_le_bytes(key.len() as u32).len() == 4);
        assert(spec_u32_to_le_bytes(val.len() as u32).len() == 4);
        let rec = spec_kv_record(key, val);
        assert forall|j: int| 0 <= j < rec.len() implies p[hi + j] == rec[j] by {
            assert(p.subrange(hi, hi2)[j] == rec[j]);
        }
        assert(p.subrange(hi, hi + 4) =~= spec_u32_to_le_bytes(key.len() as u32));
        assert forall|i: int| 0 <= i < 4 implies #[trigger] p.subrange(hi + 4, hi + 8)[i]
            == spec_u32_to_le_bytes(val.len() as u32)[i] by {
            assert(p.subrange(hi + 4, hi + 8)[i] == p[hi + 4 + i]);
            assert(p.subrange(hi, hi2)[4 + i] == p[hi + (4 + i)]);
            assert(p.subrange(hi, hi2)[4 + i] == rec[4 + i]);
            assert(rec[4 + i] == spec_u32_to_le_bytes(val.len() as u32)[i]);
        }
        assert(p.subrange(hi + 4, hi + 8) =~= spec_u32_to_le_bytes(val.len() as u32));
        assert(spec_u32_from_le_bytes(p.subrange(hi, hi + 4)) == key.len() as u32);
        assert(spec_u32_from_le_bytes(p.subrange(hi + 4, hi + 8)) == val.len() as u32);
        assert(records_pack(p, hi2, hi2));
    } else {
        let kl = spec_u32_from_le_bytes(p.subrange(lo, lo + 4)) as int;
        let vl = spec_u32_from_le_bytes(p.subrange(lo + 4, lo + 8)) as int;
        lemma_pack_append(p, lo + 8 + kl + vl, hi, key, val);
    }
}

/// Two distinct pages occupy disjoint byte ranges.
proof fn lemma_page_disjoint(pid: PageId, q: PageId)
    requires
        q != pid,
    ensures
        page_start(q) + PAGE_SIZE <= page_start(pid) || page_start(q) >= page_start(pid)
            + PAGE_SIZE,
{
    if q < pid {
        assert((q + 1) * (PAGE_SIZE as int) <= pid * (PAGE_SIZE as int)) by (nonlinear_arith)
            requires
                q + 1 <= pid,
        ;
    } else {
        assert((pid + 1) * (PAGE_SIZE as int) <= q * (PAGE_SIZE as int)) by (nonlinear_arith)
            requires
                pid + 1 <= q,
        ;
    }
}

/// Writing one page leaves every other present page byte-identical.
proof fn lemma_page_frame(f0: Seq<u8>, f1: Seq<u8>, pid: PageId, b: Seq<u8>, q: PageId)
    requires
        f1 == file_after_write(f0, page_start(pid), b),
        b.len() == PAGE_SIZE,
        q != pid,
        page_present(f0, q),
    ensures
        page_present(f1, q),
        page_slice(f1, q) == page_slice(f0, q),
{
    lemma_page_disjoint(pid, q);
    assert(page_start(q) >= 0) by (nonlinear_arith)
        requires
            q >= 0,
    ;
    assert(page_start(pid) >= 0) by (nonlinear_arith)
        requires
            pid >= 0,
    ;
    assert(page_slice(f1, q) =~= page_slice(f0, q));
}

/// Reading back the page just written gives the fields it was written with.
proof fn lemma_read_after_write(f0: Seq<u8>, pid: PageId, lsn: Lsn, used: u32, data: Seq<u8>)
    requires
        data.len() == PAYLOAD_CAPACITY,
    ensures
        ({
            let f1 = file_after_write(f0, page_start(pid), spec_page_image(pid, lsn, used, data));
            &&& page_present(f1, pid)
            &&& page_slice(f1, pid) == spec_page_image(pid, lsn, used, data)
            &&& page_readable(f1, pid)
            &&& page_used(f1, pid) == used
            &&& page_lsn(f1, pid) == lsn
            &&& page_id_field(f1, pid) == pid
            &&& page_payload(f1, pid) == data
        }),
{
    lemma_page_image_ok(pid, lsn, used, data);
    assert(page_start(pid) >= 0) by (nonlinear_arith)
        requires
            pid >= 0,
    ;
    let b = spec_page_image(pid, lsn, used, data);
    let f1 = file_after_write(f0, page_start(pid), b);
    assert(page_slice(f1, pid) =~= b);
}

/// The bindings the open-time page scan collects from one page's payload,
/// walking records from `off` with `acc` already collected: it stops at a
/// zero key length or at a record that would overrun the payload.
pub open spec fn spec_page_scan(
    payload: Seq<u8>,
    pid: PageId,
    off: int,
    acc: Map<Seq<u8>, (PageId, u32, u32)>,
) -> Map<Seq<u8>, (PageId, u32, u32)>
    decreases payload.len() - off,
{
    if off < 0 || off + 12 > payload.len() {
        acc
    } else {
        let kl = spec_u32_from_le_bytes(payload.subrange(off, off + 4)) as int;
        let vl = spec_u32_from_le_bytes(payload.subrange(off + 4, off + 8)) as int;
        if kl == 0 || off + 8 + kl + vl > payload.len() {
            acc
        } else {
            spec_page_scan(
                payload,
                pid,
                off + 8 + kl + vl,
                acc.insert(payload.subrange(off + 8, off + 8 + kl), (pid, off as u32, vl as u32)),
            )
        }
    }
}

/// The index and cursor the open-time scan of the data file produces,
/// starting at page `pid` with `acc` already collected: pages are read in
/// order until the first empty one, and each page's records are collected.
pub open spec fn spec_rebuild(f: Seq<u8>, pid: PageId, acc: Map<Seq<u8>, (PageId, u32, u32)>) -> Result<
    (Map<Seq<u8>, (PageId, u32, u32)>, PageId),
    Error,
>
    decreases f.len() - page_start(pid),
{
    if !page_readable(f, pid) {
        Err(spec_read_err(f, pid))
    } else if page_used(f, pid) == 0 && page_lsn(f, pid) == 0 {
        Ok((acc, pid))
    } else {
        let acc2 = spec_page_scan(page_payload(f, pid), pid, 0, acc);
        if pid == u64::MAX {
            Ok((acc2, pid))
        } else {
            spec_rebuild(f, (pid + 1) as u64, acc2)
        }
    }
}

/// What replaying one log record does to the data file and the index.  A
/// payload that is not a set is skipped; a set too short for its declared
/// lengths, or one whose record does not fit its page, cannot be applied; an
/// unreadable page surfaces its read error.  Otherwise the record is spliced
/// into the page exactly as the original write did it, and the page is
/// written back at its own stored id.
pub open spec fn spec_apply_record(
    f: Seq<u8>,
    idx: Map<Seq<u8>, (PageId, u32, u32)>,
    lsn: Lsn,
    payload: Seq<u8>,
) -> Result<(Seq<u8>, Map<Seq<u8>, (PageId, u32, u32)>), Error> {
    if payload.len() < 3 {
        Ok((f, idx))
    } else if payload.subrange(0, 3) != seq![0x53u8, 0x45u8, 0x54u8] {
        Ok((f, idx))
    } else if payload.len() < 23 {
        Err(Error::BadRecord(lsn))
    } else {
        let pid = spec_u64_from_le_bytes(payload.subrange(3, 11));
        let off = spec_u32_from_le_bytes(payload.subrange(11, 15)) as int;
        let kl = spec_u32_from_le_bytes(payload.subrange(15, 19)) as int;
        let vl = spec_u32_from_le_bytes(payload.subrange(19, 23)) as int;
        if kl > payload.len() - 23 || vl > payload.len() - 23 - kl {
            Err(Error::BadRecord(lsn))
        } else {
            let key = payload.subrange(23, 23 + kl);
            let val = payload.subrange(23 + kl, 23 + kl + vl);
            if !page_readable(f, pid) {
                Err(spec_read_err(f, pid))
            } else if off + 8 + kl + vl > PAYLOAD_CAPACITY {
                Err(Error::BadRecord(lsn))
            } else {
                let target = page_id_field(f, pid);
                if page_start(target) + PAGE_SIZE > usize::MAX {
                    Err(Error::BadRecord(lsn))
                } else {
                    let newpay = splice(page_payload(f, pid), off, spec_kv_record(key, val));
                    let newused = if page_used(f, pid) as int >= off + 8 + kl + vl {
                        page_used(f, pid) as int
                    } else {
                        off + 8 + kl + vl
                    };
                    let f2 = file_after_write(
                        f,
                        page_start(target),
                        spec_page_image(target, lsn, newused as u32, newpay),
                    );
                    Ok((f2, idx.insert(key, (pid, off as u32, vl as u32))))
                }
            }
        }
    }
}

/// Replaying records `k..` of the log, in order, onto file and index.
pub open spec fn spec_apply_all(
    f: Seq<u8>,
    idx: Map<Seq<u8>, (PageId, u32, u32)>,
    records: Seq<(Lsn, Seq<u8>)>,
    k: int,
) -> Result<(Seq<u8>, Map<Seq<u8>, (PageId, u32, u32)>), Error>
    decreases records.len() - k,
{
    if k < 0 || k >= records.len() {
        Ok((f, idx))
    } else {
        match spec_apply_record(f, idx, records[k].0, records[k].1) {
            Ok((f2, idx2)) => spec_apply_all(f2, idx2, records, k + 1),
            Err(e) => Err(e),
        }
    }
}

/// What opening a store over the given file images produces: the data file
/// after replay, the index, the cursor, and the next LSN — or the error that
/// makes the store refuse to open.
pub open spec fn spec_open(data: Seq<u8>, log: Seq<u8>) -> Result<
    (Seq<u8>, Map<Seq<u8>, (PageId, u32, u32)>, PageId, Lsn),
    Error,
> {
    match spec_rebuild(data, 0, Map::empty()) {
        Err(e) => Err(e),
        Ok((idx0, np)) => match spec_replay(log, 0) {
            Err(lsn) => Err(Error::WalCrc(lsn)),
            Ok(records) => match spec_apply_all(data, idx0, records, 0) {
                Err(e) => Err(e),
                Ok((f2, idx2)) => Ok((f2, idx2, np, spec_next_lsn(log))),
            },
        },
    }
}

/// Page ids beyond this bound cannot be written into a file image.
proof fn lemma_page_limit(target: PageId)
    ensures
        (target as int > ((usize::MAX - PAGE_SIZE) as int) / (PAGE_SIZE as int)) <==> (page_start(
            target,
        ) + PAGE_SIZE > usize::MAX),
{
    let c = PAGE_SIZE as int;
    let m = (usize::MAX - PAGE_SIZE) as int;
    let q = m / c;
    assert(c * q <= m < c * (q + 1)) by (nonlinear_arith)
        requires
            c > 0,
            q == m / c,
            m >= 0,
    ;
    if target > q {
        assert(target * c >= (q + 1) * c) by (nonlinear_arith)
            requires
                target >= q + 1,
                c > 0,
        ;
    } else {
        assert(target * c <= q * c) by (nonlinear_arith)
            requires
                0 <= target <= q,
                c >= 0,
        ;
    }
}

/// Replays one parsed log record onto the data image and the index, exactly
/// as the model says.
fn apply_record(pager: &mut Pager, index: &mut Vec<IndexEntry>, lsn: Lsn, payload: &[u8]) -> (r:
    Result<(), Error>)
    requires
        index_unique(old(index)@),
    ensures
        index_unique(final(index)@),
        match r {
            Ok(()) => spec_apply_record(
                old(pager).file@,
                index_as_map(old(index)@),
                lsn,
                payload@,
            ) == Ok::<(Seq<u8>, Map<Seq<u8>, (PageId, u32, u32)>), Error>(
                (final(pager).file@, index_as_map(final(index)@)),
            ),
            Err(e) => spec_apply_record(
                old(pager).file@,
                index_as_map(old(index)@),
                lsn,
                payload@,
            ) == Err::<(Seq<u8>, Map<Seq<u8>, (PageId, u32, u32)>), Error>(e),
        },
{
    proof {
        lemma_auto_spec_u32_to_from_le_bytes();
        lemma_auto_spec_u64_to_from_le_bytes();
    }
    let n = payload.len();
    if n < 3 {
        return Ok(());
    }
    let tag_ok = payload[0] == 0x53u8 && payload[1] == 0x45u8 && payload[2] == 0x54u8;
    proof {
        if tag_ok {
            assert(payload@.subrange(0, 3) =~= seq![0x53u8, 0x45u8, 0x54u8]);
        } else {
            assert(payload@.subrange(0, 3)[0] == payload@[0]);
            assert(payload@.subrange(0, 3)[1] == payload@[1]);
            assert(payload@.subrange(0, 3)[2] == payload@[2]);
        }
    }
    if !tag_ok {
        return Ok(());
    }
    if n < 23 {
        return Err(Error::BadRecord(lsn));
    }
    let pid = crate::util::read_u64_le(payload, 3);
    let off32 = read_u32_le(payload, 11);
    let kl32 = read_u32_le(payload, 15);
    let vl32 = read_u32_le(payload, 19);
    let kl = kl32 as usize;
    let vl = vl32 as usize;
    if kl > n - 23 {
        return Err(Error::BadRecord(lsn));
    }
    if vl > n - 23 - kl {
        return Err(Error::BadRecord(lsn));
    }
    let key = vstd::slice::slice_subrange(payload, 23, 23 + kl);
    let val = vstd::slice::slice_subrange(payload, 23 + kl, 23 + kl + vl);
    let mut page = match pager.read_page(pid) {
        Ok(p) => p,
        Err(e) => {
            return Err(e);
        },
    };
    let off = off32 as usize;
    if (kl32 as u64) > (PAYLOAD_CAPACITY as u64) || (vl32 as u64) > (PAYLOAD_CAPACITY as u64)
        || (off32 as u64) + 8 + (kl32 as u64) + (vl32 as u64) > (PAYLOAD_CAPACITY as u64) {
        return Err(Error::BadRecord(lsn));
    }
    let target = page.id;
    proof {
        lemma_page_limit(target);
    }
    if target > ((usize::MAX - PAGE_SIZE) / PAGE_SIZE) as u64 {
        return Err(Error::BadRecord(lsn));
    }
    let ghost f0 = pager.file@;
    let ghost base = page.data@;
    let mut rec: Vec<u8> = Vec::new();
    push_u32_le(&mut rec, kl32);
    push_u32_le(&mut rec, vl32);
    extend_bytes(&mut rec, key);
    extend_bytes(&mut rec, val);
    proof {
        assert(rec@ =~= spec_kv_record(key@, val@));
    }
    let entry_len = 8 + kl + vl;
    let mut i: usize = 0;
    while i < entry_len
        invariant
            i <= entry_len,
            off + entry_len <= PAYLOAD_CAPACITY,
            rec@.len() == entry_len,
            page.id == target,
            page.used == page_used(f0, pid),
            page.data@.len() == PAYLOAD_CAPACITY,
            base.len() == PAYLOAD_CAPACITY,
            forall|j: int|
                0 <= j < page.data@.len() && !(off <= j < off + i) ==> page.data@[j] == base[j],
            forall|j: int| off <= j < off + i ==> page.data@[j] == rec@[j - off],
        decreases entry_len - i,
    {
        page.data[off + i] = rec[i];
        i = i + 1;
    }
    proof {
        assert(page.data@ =~= splice(base, off as int, rec@));
    }
    let new_end = off + entry_len;
    if (page.used as usize) < new_end {
        page.used = new_end as u32;
    }
    page.lsn = lsn;
    pager.write_page(&page);
    index_insert(index, key, pid, off32, vl32);
    proof {
        let m0 = index_as_map(old(index)@);
        assert(spec_apply_record(f0, m0, lsn, payload@) == Ok::<
            (Seq<u8>, Map<Seq<u8>, (PageId, u32, u32)>),
            Error,
        >((pager.file@, index_as_map(index@))));
    }
    Ok(())
}

/// Replaying the log record a set wrote produces exactly the page bytes the
/// set itself produced, and the same binding.  Applied to a page that never
/// received the record — a crash after the log was synced but before the
/// page write — the record re-applies the same bytes at the same offset;
/// applied to a page that already holds it, the splice changes nothing.
pub proof fn lemma_replay_repairs_set(
    f: Seq<u8>,
    m: Map<Seq<u8>, (PageId, u32, u32)>,
    lsn: Lsn,
    pid: PageId,
    off: u32,
    key: Seq<u8>,
    val: Seq<u8>,
)
    requires
        1 <= key.len() <= u32::MAX,
        val.len() <= u32::MAX,
        page_readable(f, pid),
        off + 8 + key.len() + val.len() <= PAYLOAD_CAPACITY,
        page_id_field(f, pid) == pid,
        page_start(pid) + PAGE_SIZE <= usize::MAX,
    ensures
        spec_apply_record(f, m, lsn, spec_set_payload(pid, off, key, val)) == Ok::<
            (Seq<u8>, Map<Seq<u8>, (PageId, u32, u32)>),
            Error,
        >(
            (
                file_after_write(
                    f,
                    page_start(pid),
                    spec_page_image(
                        pid,
                        lsn,
                        if page_used(f, pid) >= off + 8 + key.len() + val.len() {
                            page_used(f, pid) as int
                        } else {
                            off + 8 + key.len() + val.len()
                        } as u32,
                        splice(page_payload(f, pid), off as int, spec_kv_record(key, val)),
                    ),
                ),
                m.insert(key, (pid, off, val.len() as u32)),
            ),
        ),
{
    lemma_auto_spec_u32_to_from_le_bytes();
    lemma_auto_spec_u64_to_from_le_bytes();
    let p = spec_set_payload(pid, off, key, val);
    assert(spec_u64_to_le_bytes(pid).len() == 8);
    assert(spec_u32_to_le_bytes(off).len() == 4);
    assert(spec_u32_to_le_bytes(key.len() as u32).len() == 4);
    assert(spec_u32_to_le_bytes(val.len() as u32).len() == 4);
    assert(p.len() == 23 + key.len() + val.len());
    assert(p.subrange(0, 3) =~= seq![0x53u8, 0x45u8, 0x54u8]);
    assert(p.subrange(3, 11) =~= spec_u64_to_le_bytes(pid));
    assert(p.subrange(11, 15) =~= spec_u32_to_le_bytes(off));
    assert(p.subrange(15, 19) =~= spec_u32_to_le_bytes(key.len() as u32));
    assert(p.subrange(19, 23) =~= spec_u32_to_le_bytes(val.len() as u32));
    assert(p.subrange(23, 23 + key.len() as int) =~= key);
    assert(p.subrange(23 + key.len() as int, 23 + key.len() + val.len() as int) =~= val);
}

/// Looking offset zero of page zero up, when that page holds exactly one
/// freshly spliced record, returns the record's value.
proof fn lemma_lookup_first_record(f: Seq<u8>, key: Seq<u8>, val: Seq<u8>)
    requires
        1 <= key.len(),
        8 + key.len() + val.len() <= PAYLOAD_CAPACITY,
        page_readable(f, 0),
        page_payload(f, 0) == splice(
            zeros(PAYLOAD_CAPACITY as int),
            0,
            spec_kv_record(key, val),
        ),
    ensures
        spec_lookup_value(f, 0, 0) == Ok::<Seq<u8>, Error>(val),
{
    lemma_auto_spec_u32_to_from_le_bytes();
    let rec = spec_kv_record(key, val);
    let newpay = splice(zeros(PAYLOAD_CAPACITY as int), 0, rec);
    assert(spec_u32_to_le_bytes(key.len() as u32).len() == 4);
    assert(spec_u32_to_le_bytes(val.len() as u32).len() == 4);
    assert(newpay.subrange(0, 4) =~= spec_u32_to_le_bytes(key.len() as u32));
    assert forall|i: int| 0 <= i < 4 implies #[trigger] newpay.subrange(4, 8)[i]
        == spec_u32_to_le_bytes(val.len() as u32)[i] by {
        assert(newpay.subrange(4, 8)[i] == rec[4 + i]);
        assert(rec[4 + i] == spec_u32_to_le_bytes(val.len() as u32)[i]);
    }
    assert(newpay.subrange(4, 8) =~= spec_u32_to_le_bytes(val.len() as u32));
    assert(newpay.subrange(8 + key.len() as int, 8 + key.len() + val.len() as int) =~= val);
}

/// A first set whose page write was lost — a crash between the log sync and
/// the page write — is repaired on reopen: over an empty data file and the
/// one-record log, open succeeds, binds the key at page zero offset zero,
/// and a lookup through that binding returns the value.
#[verifier::rlimit(100)]
pub proof fn lemma_first_set_survives_lost_page_write(key: Seq<u8>, val: Seq<u8>)
    requires
        1 <= key.len(),
        8 + key.len() + val.len() <= PAYLOAD_CAPACITY,
    ensures
        ({
            let w1 = spec_wal_record(0, spec_set_payload(0, 0, key, val));
            &&& spec_open(Seq::<u8>::empty(), w1) is Ok
            &&& ({
                let t = spec_open(Seq::<u8>::empty(), w1)->Ok_0;
                &&& t.0 == file_after_write(
                    Seq::<u8>::empty(),
                    0,
                    spec_page_image(
                        0,
                        0,
                        (8 + key.len() + val.len()) as u32,
                        splice(zeros(PAYLOAD_CAPACITY as int), 0, spec_kv_record(key, val)),
                    ),
                )
                &&& t.1 == Map::<Seq<u8>, (PageId, u32, u32)>::empty().insert(
                    key,
                    (0u64, 0u32, val.len() as u32),
                )
                &&& t.1.contains_key(key)
                &&& t.1[key] == (0u64, 0u32, val.len() as u32)
                &&& spec_lookup_value(t.0, 0, 0) == Ok::<Seq<u8>, Error>(val)
                &&& t.2 == 0
                &&& t.3 == 1
            })
        }),
{
    lemma_auto_spec_u32_to_from_le_bytes();
    lemma_auto_spec_u64_to_from_le_bytes();
    let p = spec_set_payload(0, 0, key, val);
    let w1 = spec_wal_record(0, p);
    let d0 = Seq::<u8>::empty();
    let m0 = Map::<Seq<u8>, (PageId, u32, u32)>::empty();
    assert(page_absent(d0, 0));
    assert(spec_rebuild(d0, 0, m0) == Ok::<(Map<Seq<u8>, (PageId, u32, u32)>, PageId), Error>(
        (m0, 0u64),
    ));
    assert(p.len() == 23 + key.len() + val.len());
    lemma_replay_of_history(seq![p]);
    assert(crate::wal::spec_log_from(seq![p], 1) =~= Seq::<u8>::empty());
    assert(spec_wal_image(seq![p]) =~= spec_wal_record(0, p) + Seq::<u8>::empty());
    assert(spec_wal_image(seq![p]) =~= w1);
    lemma_next_lsn_of_history(seq![p]);
    let rv = Seq::new(1nat, |i: int| ((i as u64), seq![p][i]));
    assert(rv[0] == (0u64, p));
    lemma_replay_repairs_set(d0, m0, 0, 0, 0, key, val);
    let rlen = 8 + key.len() + val.len();
    let newpay = splice(page_payload(d0, 0), 0, spec_kv_record(key, val));
    let f2 = file_after_write(d0, 0, spec_page_image(0, 0, rlen as u32, newpay));
    assert(page_start(0) == 0);
    lemma_page_image_ok(0, 0, rlen as u32, newpay);
    lemma_read_after_write(d0, 0, 0, rlen as u32, newpay);
    assert(newpay =~= splice(zeros(PAYLOAD_CAPACITY as int), 0, spec_kv_record(key, val)));
    lemma_lookup_first_record(f2, key, val);
    assert(spec_apply_all(f2, m0.insert(key, (0u64, 0u32, val.len() as u32)), rv, 1) == Ok::<
        (Seq<u8>, Map<Seq<u8>, (PageId, u32, u32)>),
        Error,
    >((f2, m0.insert(key, (0u64, 0u32, val.len() as u32)))));
    assert(spec_apply_all(d0, m0, rv, 0) == Ok::<
        (Seq<u8>, Map<Seq<u8>, (PageId, u32, u32)>),
        Error,
    >((f2, m0.insert(key, (0u64, 0u32, val.len() as u32)))));
}

/// Every entry of the index is found by a lookup of its own key.
proof fn lemma_index_member_found(idx: Seq<IndexEntry>, i: int)
    requires
        0 <= i < idx.len(),
    ensures
        index_loc(idx, idx[i].key@) is Some,
    decreases idx.len(),
{
    if idx.last().key@ == idx[i].key@ {
    } else {
        assert(i != idx.len() - 1);
        assert(idx.drop_last()[i] == idx[i]);
        lemma_index_member_found(idx.drop_last(), i);
    }
}

/// A store reopened after the crash of a first set — the data file still
/// empty, the log holding the one record — is again a well-formed engine,
/// and its view holds exactly that binding.  Its fields are the ones `open`
/// guarantees over those images, so `set` and `get` keep their contracts
/// from here on.
#[verifier::rlimit(100)]
pub proof fn lemma_engine_ready_after_crash_reopen(e: Engine, key: Seq<u8>, val: Seq<u8>)
    requires
        1 <= key.len(),
        8 + key.len() + val.len() <= PAYLOAD_CAPACITY,
        index_unique(e.index@),
        e.next_page == 0,
        e.pager.file@ == file_after_write(
            Seq::<u8>::empty(),
            0,
            spec_page_image(
                0,
                0,
                (8 + key.len() + val.len()) as u32,
                splice(zeros(PAYLOAD_CAPACITY as int), 0, spec_kv_record(key, val)),
            ),
        ),
        index_as_map(e.index@) == Map::<Seq<u8>, (PageId, u32, u32)>::empty().insert(
            key,
            (0u64, 0u32, val.len() as u32),
        ),
    ensures
        e.inv(),
        e.kv_view() == Map::<Seq<u8>, Seq<u8>>::empty().insert(key, val),
{
    lemma_auto_spec_u32_to_from_le_bytes();
    let rlen = 8 + key.len() + val.len();
    let rec = spec_kv_record(key, val);
    let newpay = splice(zeros(PAYLOAD_CAPACITY as int), 0, rec);
    let f2 = e.pager.file@;
    lemma_page_image_ok(0, 0, rlen as u32, newpay);
    lemma_read_after_write(Seq::<u8>::empty(), 0, 0, rlen as u32, newpay);
    assert(page_start(0) == 0);
    assert(page_readable(f2, 0) && page_present(f2, 0));
    assert(page_used(f2, 0) == rlen as u32);
    assert(page_payload(f2, 0) == newpay);
    assert(page_id_field(f2, 0) == 0);
    assert(spec_u32_to_le_bytes(key.len() as u32).len() == 4);
    assert(spec_u32_to_le_bytes(val.len() as u32).len() == 4);
    assert(newpay.subrange(0, 4) =~= spec_u32_to_le_bytes(key.len() as u32));
    assert forall|i: int| 0 <= i < 4 implies #[trigger] newpay.subrange(4, 8)[i]
        == spec_u32_to_le_bytes(val.len() as u32)[i] by {
        assert(newpay.subrange(4, 8)[i] == rec[4 + i]);
        assert(rec[4 + i] == spec_u32_to_le_bytes(val.len() as u32)[i]);
    }
    assert(newpay.subrange(4, 8) =~= spec_u32_to_le_bytes(val.len() as u32));
    assert(newpay.subrange(8, 8 + key.len() as int) =~= key);
    assert(newpay.subrange(8 + key.len() as int, 8 + key.len() + val.len() as int) =~= val);
    assert(entry_live(f2, key, 0u64, 0u32, val.len() as u32));
    assert(records_pack(newpay, 0, 0));
    assert(newpay.subrange(0, rlen as int) =~= rec);
    lemma_pack_append(newpay, 0, 0, key, val);
    let m = index_as_map(e.index@);
    assert(m.dom().contains(key));
    let wi = lemma_index_loc_witness(e.index@, key);
    assert forall|i: int| 0 <= i < e.index@.len() implies {
        let en = #[trigger] e.index@[i];
        entry_live(f2, en.key@, en.page_id, en.off, en.val_len) && en.page_id <= e.next_page
    } by {
        lemma_index_member_found(e.index@, i);
        assert(m.dom().contains(e.index@[i].key@));
        assert(e.index@[i].key@ == key);
        if i != wi {
            if i < wi {
                assert(e.index@[i].key@ != e.index@[wi].key@);
            } else {
                assert(e.index@[wi].key@ != e.index@[i].key@);
            }
        }
        assert(index_loc(e.index@, key)->Some_0 == m[key]);
        assert(e.index@[i].page_id == 0u64 && e.index@[i].off == 0u32 && e.index@[i].val_len
            == val.len() as u32);
    }
    assert forall|k: Seq<u8>| #[trigger] e.kv_view().dom().contains(k) implies k == key
        && e.kv_view()[k] == val by {
        assert(m.dom().contains(k));
        assert(k == key);
        assert(index_loc(e.index@, key)->Some_0 == m[key]);
        assert(e.kv_view()[key] == entry_value(f2, key, (0u64, 0u32, val.len() as u32)));
        assert(entry_value(f2, key, (0u64, 0u32, val.len() as u32)) == newpay.subrange(
            8 + key.len() as int,
            8 + key.len() + val.len() as int,
        ));
    }
    assert(e.kv_view().dom().contains(key));
    assert(e.kv_view() =~= Map::<Seq<u8>, Seq<u8>>::empty().insert(key, val));
}

/// A first set that was fully persisted is still there after close and
/// reopen: over the data image and the one-record log the set left behind,
/// open succeeds, replay re-applies the record without changing a byte, the
/// key is bound at page zero offset zero, and a lookup through that binding
/// returns the value.
#[verifier::rlimit(100)]
pub proof fn lemma_first_set_durable(key: Seq<u8>, val: Seq<u8>)
    requires
        1 <= key.len(),
        8 + key.len() + val.len() <= PAYLOAD_CAPACITY,
    ensures
        ({
            let rlen = 8 + key.len() + val.len();
            let newpay = splice(zeros(PAYLOAD_CAPACITY as int), 0, spec_kv_record(key, val));
            let d1 = file_after_write(
                Seq::<u8>::empty(),
                0,
                spec_page_image(0, 0, rlen as u32, newpay),
            );
            let w1 = spec_wal_record(0, spec_set_payload(0, 0, key, val));
            &&& spec_open(d1, w1) is Ok
            &&& ({
                let t = spec_open(d1, w1)->Ok_0;
                &&& t.0 == d1
                &&& t.1.contains_key(key)
                &&& t.1[key] == (0u64, 0u32, val.len() as u32)
                &&& spec_lookup_value(t.0, 0, 0) == Ok::<Seq<u8>, Error>(val)
                &&& t.3 == 1
            })
        }),
{
    lemma_auto_spec_u32_to_from_le_bytes();
    lemma_auto_spec_u64_to_from_le_bytes();
    let p = spec_set_payload(0, 0, key, val);
    let w1 = spec_wal_record(0, p);
    let rlen = 8 + key.len() + val.len();
    let rec = spec_kv_record(key, val);
    let newpay = splice(zeros(PAYLOAD_CAPACITY as int), 0, rec);
    let d1 = file_after_write(Seq::<u8>::empty(), 0, spec_page_image(0, 0, rlen as u32, newpay));
    assert(page_start(0) == 0);
    lemma_page_image_ok(0, 0, rlen as u32, newpay);
    lemma_read_after_write(Seq::<u8>::empty(), 0, 0, rlen as u32, newpay);
    assert(d1.len() == PAGE_SIZE);
    assert(page_absent(d1, 1));
    let m0 = Map::<Seq<u8>, (PageId, u32, u32)>::empty();
    let acc2 = spec_page_scan(newpay, 0, 0, m0);
    assert(page_used(d1, 0) == rlen as u32);
    assert(page_used(d1, 1) == 0 && page_lsn(d1, 1) == 0);
    assert(spec_rebuild(d1, 1, acc2) == Ok::<(Map<Seq<u8>, (PageId, u32, u32)>, PageId), Error>(
        (acc2, 1u64),
    ));
    assert(spec_rebuild(d1, 0, m0) == Ok::<(Map<Seq<u8>, (PageId, u32, u32)>, PageId), Error>(
        (acc2, 1u64),
    ));
    assert(p.len() == 23 + key.len() + val.len());
    lemma_replay_of_history(seq![p]);
    assert(crate::wal::spec_log_from(seq![p], 1) =~= Seq::<u8>::empty());
    assert(spec_wal_image(seq![p]) =~= spec_wal_record(0, p) + Seq::<u8>::empty());
    assert(spec_wal_image(seq![p]) =~= w1);
    lemma_next_lsn_of_history(seq![p]);
    let rv = Seq::new(1nat, |i: int| ((i as u64), seq![p][i]));
    assert(rv[0] == (0u64, p));
    lemma_replay_repairs_set(d1, acc2, 0, 0, 0, key, val);
    assert(splice(page_payload(d1, 0), 0, rec) =~= newpay);
    assert(file_after_write(d1, 0, spec_page_image(0, 0, rlen as u32, newpay)) =~= d1);
    lemma_lookup_first_record(d1, key, val);
    assert(spec_apply_all(d1, acc2.insert(key, (0u64, 0u32, val.len() as u32)), rv, 1) == Ok::<
        (Seq<u8>, Map<Seq<u8>, (PageId, u32, u32)>),
        Error,
    >((d1, acc2.insert(key, (0u64, 0u32, val.len() as u32)))));
    assert(spec_apply_all(d1, acc2, rv, 0) == Ok::<
        (Seq<u8>, Map<Seq<u8>, (PageId, u32, u32)>),
        Error,
    >((d1, acc2.insert(key, (0u64, 0u32, val.len() as u32)))));
}

/// The mapping after a sequence of sets, each binding a key to a value, is
/// applied to `m` in order.
pub open spec fn fold_sets(m: Map<Seq<u8>, Seq<u8>>, kvs: Seq<(Seq<u8>, Seq<u8>)>) -> Map<
    Seq<u8>,
    Seq<u8>,
>
    decreases kvs.len(),
{
    if kvs.len() == 0 {
        m
    } else {
        fold_sets(m, kvs.drop_last()).insert(kvs.last().0, kvs.last().1)
    }
}

/// Last writer wins: after any sequence of sets, a key is bound to the value
/// of the most recent set of that key.  Each `set` makes the store's view
/// `view.insert(key, val)`, so a run of sets folds exactly like this.
pub proof fn lemma_last_writer_wins(
    m: Map<Seq<u8>, Seq<u8>>,
    kvs: Seq<(Seq<u8>, Seq<u8>)>,
    k: Seq<u8>,
    i: int,
)
    requires
        0 <= i < kvs.len(),
        kvs[i].0 == k,
        forall|j: int| i < j < kvs.len() ==> (#[trigger] kvs[j]).0 != k,
    ensures
        fold_sets(m, kvs).contains_key(k),
        fold_sets(m, kvs)[k] == kvs[i].1,
    decreases kvs.len(),
{
    if i == kvs.len() - 1 {
    } else {
        lemma_last_writer_wins(m, kvs.drop_last(), k, i);
    }
}

/// Opening over empty images succeeds and yields the empty store: no pages,
/// no bindings, cursor at page zero, next LSN zero.
pub proof fn lemma_open_fresh()
    ensures
        spec_open(Seq::<u8>::empty(), Seq::<u8>::empty()) == Ok::<
            (Seq<u8>, Map<Seq<u8>, (PageId, u32, u32)>, PageId, Lsn),
            Error,
        >((Seq::<u8>::empty(), Map::<Seq<u8>, (PageId, u32, u32)>::empty(), 0u64, 0u64)),
{
    let f = Seq::<u8>::empty();
    assert(page_absent(f, 0));
    assert(spec_rebuild(f, 0, Map::<Seq<u8>, (PageId, u32, u32)>::empty()) == Ok::<
        (Map<Seq<u8>, (PageId, u32, u32)>, PageId),
        Error,
    >((Map::<Seq<u8>, (PageId, u32, u32)>::empty(), 0u64)));
}

/// A store whose files are empty and whose index holds nothing satisfies
/// the engine invariant, and its view is the empty mapping.  Together with
/// `set` preserving the invariant, every store reached from a fresh open by
/// sets satisfies it.
pub proof fn lemma_fresh_engine_inv(e: Engine)
    requires
        e.pager.file@ == Seq::<u8>::empty(),
        index_as_map(e.index@) == Map::<Seq<u8>, (PageId, u32, u32)>::empty(),
        e.next_page == 0,
    ensures
        e.inv(),
        e.kv_view() == Map::<Seq<u8>, Seq<u8>>::empty(),
{
    if e.index@.len() > 0 {
        assert(index_loc(e.index@, e.index@.last().key@) is Some);
        assert(index_as_map(e.index@).dom().contains(e.index@.last().key@));
    }
    assert(e.index@.len() == 0);
    assert(forall|k: Seq<u8>| index_loc(e.index@, k) is None);
    assert(page_absent(e.pager.file@, 0));
    assert(records_pack(page_payload(e.pager.file@, 0), 0, 0));
    assert(e.kv_view() =~= Map::<Seq<u8>, Seq<u8>>::empty());
}

/// The key-value store: images of the two files, the derived index, and the
/// page cursor.
#[derive(Debug)]
pub struct Engine {
    /// The data file image, behind its pager.
    pub pager: Pager,
    /// The log file image and the next LSN.
    pub wal: Wal,
    /// The in-memory index, rebuilt on open and never persisted.
    pub index: Vec<IndexEntry>,
    /// The page currently being filled.
    pub next_page: PageId,
}

impl Engine {
    /// The engine's internal invariant: index keys are unique, every binding
    /// points at a live record on a page no later than the cursor, and the
    /// cursor's page decodes, is not overfull, stores its own position, and
    /// packs records back to back below its used mark.
    pub open spec fn inv(self) -> bool {
        let f = self.pager.file@;
        &&& index_unique(self.index@)
        &&& forall|i: int|
            #![trigger self.index@[i]]
            0 <= i < self.index@.len() ==> {
                let e = self.index@[i];
                entry_live(f, e.key@, e.page_id, e.off, e.val_len) && e.page_id <= self.next_page
            }
        &&& page_readable(f, self.next_page)
        &&& page_used(f, self.next_page) <= PAYLOAD_CAPACITY
        &&& records_pack(page_payload(f, self.next_page), 0, page_used(f, self.next_page) as int)
        &&& page_id_field(f, self.next_page) == self.next_page
    }

    /// The mapping the store currently represents: each indexed key, bound
    /// to the value bytes its record holds.
    pub open spec fn kv_view(self) -> Map<Seq<u8>, Seq<u8>> {
        Map::new(
            |k: Seq<u8>| index_loc(self.index@, k) is Some,
            |k: Seq<u8>| entry_value(self.pager.file@, k, index_loc(self.index@, k)->Some_0),
        )
    }

    /// Opens a store over images of the data file and the log.  The index
    /// is rebuilt by scanning pages up to the first empty one, which seeds
    /// the cursor; then the whole log is replayed from the start, each
    /// record re-applied to its page.  Replay errors refuse the open.  The
    /// caller should persist the returned data image: replay may have
    /// rewritten pages.
    pub fn open(data: Vec<u8>, log: Vec<u8>) -> (r: Result<Engine, Error>)
        ensures
            match r {
                Ok(e) => {
                    &&& spec_open(data@, log@) is Ok
                    &&& ({
                        let t = spec_open(data@, log@)->Ok_0;
                        &&& e.pager.file@ == t.0
                        &&& index_as_map(e.index@) == t.1
                        &&& e.next_page == t.2
                        &&& e.wal.next_lsn == t.3
                    })
                    &&& index_unique(e.index@)
                    &&& e.wal.file@ == log@
                },
                Err(er) => spec_open(data@, log@) == Err::<
                    (Seq<u8>, Map<Seq<u8>, (PageId, u32, u32)>, PageId, Lsn),
                    Error,
                >(er),
            },
    {
        let ghost dv = data@;
        let ghost lv = log@;
        let data_len = data.len();
        let pager = Pager::open(data);
        let wal = Wal::open(log);
        let mut index: Vec<IndexEntry> = Vec::new();
        let mut next_page: u64 = 0;
        proof {
            assert(index_as_map(index@) =~= Map::<Seq<u8>, (PageId, u32, u32)>::empty());
        }
        loop
            invariant_except_break
                dv == data@,
                pager.file@ == dv,
                dv.len() == data_len,
                index_unique(index@),
                page_start(next_page) <= dv.len(),
                spec_rebuild(dv, 0, Map::empty()) == spec_rebuild(
                    dv,
                    next_page,
                    index_as_map(index@),
                ),
            ensures
                index_unique(index@),
                spec_rebuild(dv, 0, Map::empty()) == Ok::<
                    (Map<Seq<u8>, (PageId, u32, u32)>, PageId),
                    Error,
                >((index_as_map(index@), next_page)),
            decreases dv.len() - page_start(next_page),
        {
            let page = match pager.read_page(next_page) {
                Ok(p) => p,
                Err(e) => {
                    return Err(e);
                },
            };
            if page.used == 0 && page.lsn == 0 {
                break ;
            }
            proof {
                assert(page_present(dv, next_page));
                assert(next_page <= next_page * (PAGE_SIZE as int)) by (nonlinear_arith)
                    requires
                        next_page >= 0,
                ;
            }
            let ghost pay = page.data@;
            let ghost acc0 = index_as_map(index@);
            let payload_v = page.data;
            let mut offu: usize = 0;
            loop
                invariant_except_break
                    offu <= PAYLOAD_CAPACITY,
                    payload_v@ == pay,
                    pay.len() == PAYLOAD_CAPACITY,
                    index_unique(index@),
                    spec_page_scan(pay, next_page, 0, acc0) == spec_page_scan(
                        pay,
                        next_page,
                        offu as int,
                        index_as_map(index@),
                    ),
                ensures
                    index_unique(index@),
                    spec_page_scan(pay, next_page, 0, acc0) == index_as_map(index@),
                decreases PAYLOAD_CAPACITY - offu,
            {
                if offu + 12 > PAYLOAD_CAPACITY {
                    break ;
                }
                let kl32 = read_u32_le(payload_v.as_slice(), offu);
                let vl32 = read_u32_le(payload_v.as_slice(), offu + 4);
                if kl32 == 0 {
                    break ;
                }
                if (offu as u64) + 8 + (kl32 as u64) + (vl32 as u64) > (PAYLOAD_CAPACITY
                    as u64) {
                    break ;
                }
                let kl = kl32 as usize;
                let vl = vl32 as usize;
                let keysl = vstd::slice::slice_subrange(
                    payload_v.as_slice(),
                    offu + 8,
                    offu + 8 + kl,
                );
                index_insert(&mut index, keysl, next_page, offu as u32, vl32);
                offu = offu + 8 + kl + vl;
            }
            next_page = next_page + 1;
        }
        let records = match Wal::replay_from_start(wal.file.as_slice()) {
            Ok(rs) => rs,
            Err(e) => {
                return Err(e);
            },
        };
        let ghost idx0 = index_as_map(index@);
        let ghost rv = records_view(records@);
        let mut pager = pager;
        let nrec = records.len();
        let mut i: usize = 0;
        while i < nrec
            invariant
                i <= nrec,
                nrec == records@.len(),
                dv == data@,
                lv == log@,
                rv == records_view(records@),
                index_unique(index@),
                spec_rebuild(dv, 0, Map::empty()) == Ok::<
                    (Map<Seq<u8>, (PageId, u32, u32)>, PageId),
                    Error,
                >((idx0, next_page)),
                spec_replay(lv, 0) == Ok::<Seq<(Lsn, Seq<u8>)>, Lsn>(rv),
                spec_apply_all(dv, idx0, rv, 0) == spec_apply_all(
                    pager.file@,
                    index_as_map(index@),
                    rv,
                    i as int,
                ),
            decreases nrec - i,
        {
            let lsn_i = records[i].lsn;
            proof {
                assert(rv[i as int] == (records@[i as int].lsn, records@[i as int].payload@));
            }
            let ar = apply_record(&mut pager, &mut index, lsn_i, records[i].payload.as_slice());
            match ar {
                Ok(()) => {},
                Err(e) => {
                    return Err(e);
                },
            }
            i = i + 1;
        }
        let eng = Engine { pager, wal, index, next_page };
        Ok(eng)
    }

    /// Stores `val` under `key`.  The record goes at the cursor page's used
    /// mark, or at offset zero of a fresh next page when it does not fit —
    /// records never span pages.  A log record describing the placement is
    /// appended first, and only then is the page spliced and rewritten; the
    /// caller must persist and sync the log image before the data image, in
    /// that order, which is what the crash-safety of the store rests on.
    #[verifier::rlimit(100)]
    pub fn set(&mut self, key: &[u8], val: &[u8]) -> (r: Result<(), Error>)
        requires
            old(self).inv(),
            1 <= key@.len(),
            8 + key@.len() + val@.len() <= PAYLOAD_CAPACITY,
            old(self).wal.next_lsn < u64::MAX,
            page_start(old(self).next_page) + 2 * PAGE_SIZE <= usize::MAX,
            old(self).wal.file@.len() + WAL_HDR + 23 + key@.len() + val@.len() <= usize::MAX,
        ensures
            r is Ok,
            final(self).inv(),
            ({
                let f0 = old(self).pager.file@;
                let np0 = old(self).next_page;
                let used0 = page_used(f0, np0) as int;
                let rlen = 8 + key@.len() + val@.len();
                let fits = used0 + rlen <= PAYLOAD_CAPACITY;
                let pid = if fits {
                    np0
                } else {
                    (np0 + 1) as u64
                };
                let off = if fits {
                    used0
                } else {
                    0 as int
                };
                let lsn = old(self).wal.next_lsn;
                let base = if fits {
                    page_payload(f0, pid)
                } else {
                    zeros(PAYLOAD_CAPACITY as int)
                };
                let newpay = splice(base, off, spec_kv_record(key@, val@));
                let newused = off + rlen;
                &&& final(self).next_page == pid
                &&& final(self).wal.next_lsn == lsn + 1
                &&& final(self).wal.file@ == old(self).wal.file@ + spec_wal_record(
                    lsn,
                    spec_set_payload(pid, off as u32, key@, val@),
                )
                &&& final(self).pager.file@ == file_after_write(
                    f0,
                    page_start(pid),
                    spec_page_image(pid, lsn, newused as u32, newpay),
                )
                &&& page_payload(final(self).pager.file@, pid) == newpay
                &&& page_used(final(self).pager.file@, pid) == newused
                &&& page_lsn(final(self).pager.file@, pid) == lsn
                &&& records_pack(newpay, 0, newused)
                &&& index_loc(final(self).index@, key@) == Some(
                    (pid, off as u32, val@.len() as u32),
                )
                &&& (forall|k: Seq<u8>|
                    k != key@ ==> index_loc(final(self).index@, k) == index_loc(
                        old(self).index@,
                        k,
                    ))
                &&& final(self).kv_view() == old(self).kv_view().insert(key@, val@)
            }),
    {
        proof {
            lemma_auto_spec_u32_to_from_le_bytes();
            lemma_auto_spec_u64_to_from_le_bytes();
        }
        let ghost f0 = self.pager.file@;
        let ghost np0 = self.next_page;
        proof {
            assert(np0 * (PAGE_SIZE as int) >= 0 && np0 <= np0 * (PAGE_SIZE as int))
                by (nonlinear_arith)
                requires
                    np0 >= 0,
            ;
        }
        let key_len = key.len();
        let val_len = val.len();
        let entry_len = 8 + key_len + val_len;
        let mut pid = self.next_page;
        let page_r = self.pager.read_page(pid);
        let mut page = match page_r {
            Ok(p) => p,
            Err(e) => {
                proof {
                    assert(false);
                }
                return Err(e);
            },
        };
        if PAYLOAD_CAPACITY < page.used as usize + entry_len {
            pid = pid + 1;
            self.next_page = pid;
            page = Page::new(pid);
        }
        let ghost fits = page_used(f0, np0) as int + entry_len <= PAYLOAD_CAPACITY;
        let off = page.used as usize;
        let ghost base = page.data@;
        let mut payload: Vec<u8> = Vec::new();
        payload.push(0x53u8);
        payload.push(0x45u8);
        payload.push(0x54u8);
        push_u64_le(&mut payload, pid);
        push_u32_le(&mut payload, off as u32);
        push_u32_le(&mut payload, key_len as u32);
        push_u32_le(&mut payload, val_len as u32);
        extend_bytes(&mut payload, key);
        extend_bytes(&mut payload, val);
        proof {
            assert(payload@ =~= spec_set_payload(pid, off as u32, key@, val@));
        }
        let lsn = self.wal.append(payload.as_slice());
        let mut rec: Vec<u8> = Vec::new();
        push_u32_le(&mut rec, key_len as u32);
        push_u32_le(&mut rec, val_len as u32);
        extend_bytes(&mut rec, key);
        extend_bytes(&mut rec, val);
        proof {
            assert(rec@ =~= spec_kv_record(key@, val@));
        }
        let mut i: usize = 0;
        while i < entry_len
            invariant
                i <= entry_len,
                entry_len == 8 + key@.len() + val@.len(),
                off + entry_len <= PAYLOAD_CAPACITY,
                rec@.len() == entry_len,
                page.id == pid,
                page.data@.len() == PAYLOAD_CAPACITY,
                base.len() == PAYLOAD_CAPACITY,
                forall|j: int|
                    0 <= j < page.data@.len() && !(off <= j < off + i) ==> page.data@[j] == base[j],
                forall|j: int| off <= j < off + i ==> page.data@[j] == rec@[j - off],
            decreases entry_len - i,
        {
            page.data[off + i] = rec[i];
            i = i + 1;
        }
        proof {
            assert(page.data@ =~= splice(base, off as int, rec@));
        }
        page.used = (off + entry_len) as u32;
        page.lsn = lsn;
        proof {
            assert(page.id == pid);
            assert((np0 + 1) * (PAGE_SIZE as int) == np0 * (PAGE_SIZE as int) + (PAGE_SIZE as int))
                by (nonlinear_arith);
        }
        self.pager.write_page(&page);
        index_insert(&mut self.index, key, pid, off as u32, val_len as u32);
        proof {
            let f1 = self.pager.file@;
            let krec = spec_kv_record(key@, val@);
            let newpay = splice(base, off as int, krec);
            let newused = off + entry_len;
            assert(page.data@ == newpay);
            lemma_page_image_ok(pid, lsn, (off + entry_len) as u32, newpay);
            lemma_read_after_write(f0, pid, lsn, (off + entry_len) as u32, newpay);
            if fits {
                lemma_pack_stable(base, newpay, 0, off as int);
                assert(newpay.subrange(off as int, off + entry_len) =~= krec);
                lemma_pack_append(newpay, 0, off as int, key@, val@);
            } else {
                assert(newpay.subrange(0, entry_len as int) =~= krec);
                lemma_pack_append(newpay, 0, 0, key@, val@);
            }
            assert(newpay.subrange(off as int, off as int + 4) =~= spec_u32_to_le_bytes(
                key@.len() as u32,
            ));
            assert(newpay.subrange(off as int + 4, off as int + 8) =~= spec_u32_to_le_bytes(
                val@.len() as u32,
            ));
            assert(newpay.subrange(off as int + 8, off as int + 8 + key@.len()) =~= key@);
            assert(newpay.subrange(
                off as int + 8 + key@.len(),
                off as int + 8 + key@.len() + val@.len(),
            ) =~= val@);
            assert forall|ii: int| 0 <= ii < self.index@.len() implies {
                let e = #[trigger] self.index@[ii];
                entry_live(f1, e.key@, e.page_id, e.off, e.val_len) && e.page_id <= self.next_page
            } by {
                let e = self.index@[ii];
                if e.key@ == key@ {
                    let wi = lemma_index_loc_witness(self.index@, key@);
                    if ii != wi {
                        if ii < wi {
                            assert(self.index@[ii].key@ != self.index@[wi].key@);
                        } else {
                            assert(self.index@[wi].key@ != self.index@[ii].key@);
                        }
                    }
                    assert(e.page_id == pid && e.off == off as u32 && e.val_len == val@.len());
                } else {
                    let j = choose|j: int|
                        0 <= j < old(self).index@.len() && self.index@[ii] == old(self).index@[j];
                    assert(entry_live(f0, e.key@, e.page_id, e.off, e.val_len));
                    if e.page_id == pid {
                        assert(e.page_id <= np0);
                        assert(fits && pid == np0);
                        assert(base == page_payload(f0, pid));
                        assert(e.off + 8 + e.key@.len() + e.val_len <= off);
                        assert(newpay.subrange(e.off as int, e.off + 4) =~= base.subrange(
                            e.off as int,
                            e.off + 4,
                        ));
                        assert(newpay.subrange(e.off + 4, e.off + 8) =~= base.subrange(
                            e.off + 4,
                            e.off + 8,
                        ));
                        assert(newpay.subrange(e.off + 8, e.off + 8 + e.key@.len())
                            =~= base.subrange(e.off + 8, e.off + 8 + e.key@.len()));
                    } else {
                        lemma_page_frame(
                            f0,
                            f1,
                            pid,
                            spec_page_image(pid, lsn, (off + entry_len) as u32, newpay),
                            e.page_id,
                        );
                        assert(page_slice(f1, e.page_id) == page_slice(f0, e.page_id));
                    }
                }
            }
            let mv_new = self.kv_view();
            let mv_old = old(self).kv_view().insert(key@, val@);
            assert forall|k: Seq<u8>| #[trigger] mv_old.dom().contains(k) implies mv_new.dom()
                .contains(k) && mv_new[k] == mv_old[k] by {
                if k == key@ {
                    assert(mv_new[k] == entry_value(
                        f1,
                        key@,
                        (pid, off as u32, val@.len() as u32),
                    ));
                    assert(entry_value(f1, key@, (pid, off as u32, val@.len() as u32)) == newpay
                        .subrange(
                        off as int + 8 + key@.len(),
                        off as int + 8 + key@.len() + val@.len(),
                    ));
                } else {
                    assert(index_loc(self.index@, k) == index_loc(old(self).index@, k));
                    let wj = lemma_index_loc_witness(old(self).index@, k);
                    let e = old(self).index@[wj];
                    assert(entry_live(f0, e.key@, e.page_id, e.off, e.val_len));
                    if e.page_id == pid {
                        assert(fits && pid == np0);
                        assert(base == page_payload(f0, pid));
                        assert(e.off + 8 + e.key@.len() + e.val_len <= off);
                        assert(newpay.subrange(
                            e.off + 8 + k.len(),
                            e.off + 8 + k.len() + e.val_len,
                        ) =~= base.subrange(e.off + 8 + k.len(), e.off + 8 + k.len() + e.val_len));
                    } else {
                        lemma_page_frame(
                            f0,
                            f1,
                            pid,
                            spec_page_image(pid, lsn, (off + entry_len) as u32, newpay),
                            e.page_id,
                        );
                        assert(page_slice(f1, e.page_id) == page_slice(f0, e.page_id));
                    }
                }
            }
            assert forall|k: Seq<u8>| #[trigger] mv_new.dom().contains(k) implies mv_old.dom()
                .contains(k) by {}
            assert(mv_new.dom() =~= mv_old.dom());
            assert(mv_new =~= mv_old);
        }
        Ok(())
    }

    /// Looks `key` up: `Ok(None)` when the key is not bound; otherwise one
    /// page is read and checked, the record header at the bound offset is
    /// parsed, and the value bytes after the stored key are returned.  Under
    /// the invariant the result is exactly the store's mapping.
    pub fn get(&self, key: &[u8]) -> (r: Result<Option<Vec<u8>>, Error>)
        ensures
            match index_loc(self.index@, key@) {
                None => r == Ok::<Option<Vec<u8>>, Error>(None),
                Some(loc) => match spec_lookup_value(self.pager.file@, loc.0, loc.1) {
                    Ok(v) => match r {
                        Ok(Some(rv)) => rv@ == v,
                        _ => false,
                    },
                    Err(e) => r == Err::<Option<Vec<u8>>, Error>(e),
                },
            },
            self.inv() ==> match index_loc(self.index@, key@) {
                None => r == Ok::<Option<Vec<u8>>, Error>(None) && !self.kv_view().contains_key(
                    key@,
                ),
                Some(loc) => match r {
                    Ok(Some(rv)) => rv@ == self.kv_view()[key@] && self.kv_view().contains_key(
                        key@,
                    ),
                    _ => false,
                },
            },
    {
        proof {
            lemma_auto_spec_u32_to_from_le_bytes();
        }
        let looked = index_lookup(&self.index, key);
        match looked {
            None => Ok(None),
            Some((pid, off, _val_len)) => {
                proof {
                    if self.inv() {
                        let wi = lemma_index_loc_witness(self.index@, key@);
                        let e = self.index@[wi];
                        assert(entry_live(self.pager.file@, e.key@, e.page_id, e.off, e.val_len));
                    }
                }
                let page = match self.pager.read_page(pid) {
                    Ok(p) => p,
                    Err(e) => {
                        return Err(e);
                    },
                };
                let off_us = off as usize;
                if off_us > PAYLOAD_CAPACITY - 8 {
                    return Err(Error::BadEntry(pid));
                }
                let kl = read_u32_le(page.data.as_slice(), off_us) as usize;
                let vl = read_u32_le(page.data.as_slice(), off_us + 4) as usize;
                proof {
                    if self.inv() {
                        let wi = lemma_index_loc_witness(self.index@, key@);
                        let e = self.index@[wi];
                        assert(entry_live(self.pager.file@, e.key@, e.page_id, e.off, e.val_len));
                        assert(page.data@ == page_payload(self.pager.file@, pid));
                        assert(e.key@ == key@ && e.page_id == pid && e.off == off);
                        assert(page.data@.subrange(off as int, off as int + 4)
                            == spec_u32_to_le_bytes(key@.len() as u32));
                        assert(spec_u32_to_le_bytes(key@.len() as u32).len() == 4);
                        assert(spec_u32_from_le_bytes(spec_u32_to_le_bytes(key@.len() as u32))
                            == key@.len() as u32);
                        assert(spec_u32_to_le_bytes(e.val_len).len() == 4);
                        assert(spec_u32_from_le_bytes(spec_u32_to_le_bytes(e.val_len))
                            == e.val_len);
                        assert(kl == key@.len());
                        assert(vl == e.val_len);
                    }
                }
                if kl > PAYLOAD_CAPACITY || vl > PAYLOAD_CAPACITY {
                    return Err(Error::BadEntry(pid));
                }
                if off_us + 8 + kl + vl > PAYLOAD_CAPACITY {
                    return Err(Error::BadEntry(pid));
                }
                let start = off_us + 8 + kl;
                let v = vstd::slice::slice_to_vec(
                    vstd::slice::slice_subrange(page.data.as_slice(), start, start + vl),
                );
                proof {
                    if self.inv() {
                        assert(v@ == entry_value(
                            self.pager.file@,
                            key@,
                            index_loc(self.index@, key@)->Some_0,
                        ));
                        assert(self.kv_view().contains_key(key@));
                        assert(v@ == self.kv_view()[key@]);
                    }
                }
                Ok(Some(v))
            },
        }
    }
}

} // verus!
