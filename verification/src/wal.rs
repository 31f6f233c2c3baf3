//! The write-ahead log: record framing, monotonic LSN assignment, the
//! open-time scan for the next LSN, and sequential replay.
//!
//! A record is framed as `total_len:u64le ‖ lsn:u64le ‖ crc32:u32le ‖
//! payload`, where `total_len` counts the LSN and CRC fields plus the
//! payload, and the CRC covers the payload alone.  Replay walks the log from
//! the start, stops cleanly at a torn tail, and fails on a CRC mismatch.

use crate::util::{crc32, extend_bytes, push_u32_le, push_u64_le, spec_crc32, Error};
use vstd::bytes::{
    lemma_auto_spec_u32_to_from_le_bytes, lemma_auto_spec_u64_to_from_le_bytes,
    spec_u32_from_le_bytes, spec_u32_to_le_bytes, spec_u64_from_le_bytes, spec_u64_to_le_bytes,
};
use vstd::prelude::*;

verus! {

/// Log sequence number: assigned densely from zero at append time.
pub type Lsn = u64;

/// Bytes of framing before a record's payload: length, LSN and CRC fields.
pub const WAL_HDR: usize = 20;

/// The LSN that follows `lsn`, with the wrap-around of machine addition.
pub open spec fn lsn_inc(lsn: u64) -> u64 {
    if lsn == u64::MAX {
        0u64
    } else {
        (lsn + 1) as u64
    }
}

/// The serialized form of one log record.
pub open spec fn spec_wal_record(lsn: Lsn, payload: Seq<u8>) -> Seq<u8> {
    spec_u64_to_le_bytes(((payload.len() + 12) as u64)) + spec_u64_to_le_bytes(lsn)
        + spec_u32_to_le_bytes(spec_crc32(payload)) + payload
}

/// The next LSN the open-time scan reports, walking from byte `pos` with
/// `next` already accumulated: lengths are trusted, CRCs are not checked, and
/// any truncated field ends the scan.
pub open spec fn spec_scan_next(log: Seq<u8>, pos: int, next: u64) -> u64
    decreases log.len() - pos,
{
    if pos < 0 || pos + 8 > log.len() {
        next
    } else {
        let total = spec_u64_from_le_bytes(log.subrange(pos, pos + 8)) as int;
        if pos + 16 > log.len() {
            next
        } else {
            let lsn = spec_u64_from_le_bytes(log.subrange(pos + 8, pos + 16));
            let next2 = lsn_inc(lsn);
            if total < 12 {
                next2
            } else if pos + 8 + total > log.len() {
                next2
            } else {
                spec_scan_next(log, pos + 8 + total, next2)
            }
        }
    }
}

/// The next LSN for a whole log image.
pub open spec fn spec_next_lsn(log: Seq<u8>) -> u64 {
    spec_scan_next(log, 0, 0)
}

/// What replay yields from byte `pos` on: the parsed `(lsn, payload)` pairs,
/// or the LSN of the first record whose CRC does not match.  A record cut off
/// by the end of the log — the torn tail — ends replay cleanly.
pub open spec fn spec_replay(log: Seq<u8>, pos: int) -> Result<Seq<(Lsn, Seq<u8>)>, Lsn>
    decreases log.len() - pos,
{
    if pos < 0 || pos + WAL_HDR > log.len() {
        Ok(Seq::empty())
    } else {
        let total = spec_u64_from_le_bytes(log.subrange(pos, pos + 8)) as int;
        let lsn = spec_u64_from_le_bytes(log.subrange(pos + 8, pos + 16));
        let crc = spec_u32_from_le_bytes(log.subrange(pos + 16, pos + 20));
        if total < 12 {
            Ok(Seq::empty())
        } else if pos + 8 + total > log.len() {
            Ok(Seq::empty())
        } else {
            let payload = log.subrange(pos + WAL_HDR, pos + 8 + total);
            if spec_crc32(payload) != crc {
                Err(lsn)
            } else {
                match spec_replay(log, pos + 8 + total) {
                    Ok(rest) => Ok(seq![(lsn, payload)] + rest),
                    Err(e) => Err(e),
                }
            }
        }
    }
}

/// One parsed log record.
#[derive(Debug)]
pub struct WalRecord {
    pub lsn: Lsn,
    pub payload: Vec<u8>,
}

/// The `(lsn, payload)` pairs a vector of parsed records stands for.
pub open spec fn records_view(rs: Seq<WalRecord>) -> Seq<(Lsn, Seq<u8>)> {
    rs.map(|i: int, r: WalRecord| (r.lsn, r.payload@))
}

/// The write-ahead log: an image of the log file plus the next LSN to
/// assign.
#[derive(Debug)]
pub struct Wal {
    /// The log file, byte for byte.
    pub file: Vec<u8>,
    /// The LSN the next append will carry.
    pub next_lsn: Lsn,
}

impl Wal {
    /// Wraps a log-file image, scanning it once to find the next LSN.
    pub fn open(file: Vec<u8>) -> (r: Wal)
        ensures
            r.file@ == file@,
            r.next_lsn == spec_next_lsn(file@),
    {
        let next = compute_next_lsn(&file);
        Wal { file, next_lsn: next }
    }

    /// Appends one record carrying `payload`, returning its LSN.  The caller
    /// owes the payload durability only once the image is written out and
    /// synced.
    pub fn append(&mut self, payload: &[u8]) -> (r: Lsn)
        requires
            old(self).next_lsn < u64::MAX,
            old(self).file@.len() + WAL_HDR + payload@.len() <= usize::MAX,
        ensures
            r == old(self).next_lsn,
            final(self).next_lsn == old(self).next_lsn + 1,
            final(self).file@ == old(self).file@ + spec_wal_record(old(self).next_lsn, payload@),
    {
        let lsn = self.next_lsn;
        let crc = crc32(payload);
        let total: u64 = 12 + payload.len() as u64;
        push_u64_le(&mut self.file, total);
        push_u64_le(&mut self.file, lsn);
        push_u32_le(&mut self.file, crc);
        extend_bytes(&mut self.file, payload);
        self.next_lsn = lsn + 1;
        proof {
            assert(self.file@ =~= old(self).file@ + spec_wal_record(lsn, payload@));
        }
        lsn
    }

    /// Parses a log image from the start, returning every record up to the
    /// torn tail, or the LSN of the first record whose CRC does not match.
    pub fn replay_from_start(log: &[u8]) -> (r: Result<Vec<WalRecord>, Error>)
        ensures
            match r {
                Ok(rs) => spec_replay(log@, 0) == Ok::<Seq<(Lsn, Seq<u8>)>, Lsn>(
                    records_view(rs@),
                ),
                Err(e) => match e {
                    Error::WalCrc(lsn) => spec_replay(log@, 0) == Err::<
                        Seq<(Lsn, Seq<u8>)>,
                        Lsn,
                    >(lsn),
                    _ => false,
                },
            },
    {
        let len = log.len();
        let mut pos: usize = 0;
        let mut out: Vec<WalRecord> = Vec::new();
        loop
            invariant
                pos <= len,
                len == log@.len(),
                match spec_replay(log@, pos as int) {
                    Ok(rest) => spec_replay(log@, 0) == Ok::<Seq<(Lsn, Seq<u8>)>, Lsn>(
                        records_view(out@) + rest,
                    ),
                    Err(e) => spec_replay(log@, 0) == Err::<Seq<(Lsn, Seq<u8>)>, Lsn>(e),
                },
            decreases len - pos,
        {
            if len - pos < WAL_HDR {
                proof {
                    assert(records_view(out@) + Seq::<(Lsn, Seq<u8>)>::empty() =~= records_view(
                        out@,
                    ));
                }
                return Ok(out);
            }
            let total = crate::util::read_u64_le(log, pos);
            let lsn = crate::util::read_u64_le(log, pos + 8);
            let crc = crate::util::read_u32_le(log, pos + 16);
            if total < 12 {
                proof {
                    assert(records_view(out@) + Seq::<(Lsn, Seq<u8>)>::empty() =~= records_view(
                        out@,
                    ));
                }
                return Ok(out);
            }
            let payload_len64 = total - 12;
            if payload_len64 > (len - pos - WAL_HDR) as u64 {
                proof {
                    assert(records_view(out@) + Seq::<(Lsn, Seq<u8>)>::empty() =~= records_view(
                        out@,
                    ));
                }
                return Ok(out);
            }
            let payload_len = payload_len64 as usize;
            let pslice = vstd::slice::slice_subrange(log, pos + WAL_HDR, pos + WAL_HDR
                + payload_len);
            let pcrc = crc32(pslice);
            if pcrc != crc {
                return Err(Error::WalCrc(lsn));
            }
            let payload = vstd::slice::slice_to_vec(pslice);
            let ghost prev = out@;
            out.push(WalRecord { lsn, payload });
            pos = pos + WAL_HDR + payload_len;
            proof {
                assert(records_view(out@) =~= records_view(prev).push((lsn, pslice@)));
                if spec_replay(log@, pos as int) is Ok {
                    let rest = spec_replay(log@, pos as int)->Ok_0;
                    assert(records_view(prev) + (seq![(lsn, pslice@)] + rest) =~= records_view(
                        out@,
                    ) + rest);
                }
            }
        }
    }
}

/// The log image a history of appends leaves behind, from the `k`-th append
/// on: record `j` carries payload `payloads[j]` and LSN `j`.
pub open spec fn spec_log_from(payloads: Seq<Seq<u8>>, k: int) -> Seq<u8>
    decreases payloads.len() - k,
{
    if k < 0 || k >= payloads.len() {
        Seq::empty()
    } else {
        spec_wal_record(k as u64, payloads[k]) + spec_log_from(payloads, k + 1)
    }
}

/// The whole log image a history of appends leaves behind.
pub open spec fn spec_wal_image(payloads: Seq<Seq<u8>>) -> Seq<u8> {
    spec_log_from(payloads, 0)
}

/// Replay at an offset past a fixed prefix reads only the suffix.
proof fn lemma_replay_shift(a: Seq<u8>, b: Seq<u8>, pos: int)
    requires
        0 <= pos,
    ensures
        spec_replay(a + b, a.len() + pos) == spec_replay(b, pos),
    decreases b.len() - pos,
{
    let log = a + b;
    let lp = a.len() + pos;
    if pos + WAL_HDR > b.len() {
    } else {
        assert(log.subrange(lp, lp + 8) =~= b.subrange(pos, pos + 8));
        assert(log.subrange(lp + 8, lp + 16) =~= b.subrange(pos + 8, pos + 16));
        assert(log.subrange(lp + 16, lp + 20) =~= b.subrange(pos + 16, pos + 20));
        let total = spec_u64_from_le_bytes(b.subrange(pos, pos + 8)) as int;
        if total < 12 {
        } else if pos + 8 + total > b.len() {
        } else {
            assert(log.subrange(lp + WAL_HDR, lp + 8 + total) =~= b.subrange(
                pos + WAL_HDR,
                pos + 8 + total,
            ));
            lemma_replay_shift(a, b, pos + 8 + total);
        }
    }
}

/// Replaying the image of appends `k..` followed by an arbitrary tail parses
/// each appended record in turn, then continues into the tail.
proof fn lemma_replay_log_from(payloads: Seq<Seq<u8>>, k: int, tail: Seq<u8>)
    requires
        0 <= k <= payloads.len(),
        forall|j: int| 0 <= j < payloads.len() ==> #[trigger] payloads[j].len() + 12 <= u64::MAX,
    ensures
        spec_replay(spec_log_from(payloads, k) + tail, 0) == match spec_replay(tail, 0) {
            Ok(rest) => Ok::<Seq<(Lsn, Seq<u8>)>, Lsn>(
                Seq::new((payloads.len() - k) as nat, |i: int| ((k + i) as u64, payloads[k + i]))
                    + rest,
            ),
            Err(e) => Err::<Seq<(Lsn, Seq<u8>)>, Lsn>(e),
        },
    decreases payloads.len() - k,
{
    lemma_auto_spec_u32_to_from_le_bytes();
    lemma_auto_spec_u64_to_from_le_bytes();
    if k == payloads.len() {
        assert(spec_log_from(payloads, k) + tail =~= tail);
        match spec_replay(tail, 0) {
            Ok(rest) => {
                assert(Seq::new(0nat, |i: int| ((k + i) as u64, payloads[k + i])) + rest =~= rest);
            },
            Err(e) => {},
        }
    } else {
        let pl = payloads[k];
        let rec = spec_wal_record(k as u64, pl);
        let rest_log = spec_log_from(payloads, k + 1) + tail;
        let log = spec_log_from(payloads, k) + tail;
        assert(log =~= rec + rest_log);
        let total: int = pl.len() as int + 12;
        assert(rec.len() == WAL_HDR + pl.len());
        assert(log.subrange(0, 8) =~= spec_u64_to_le_bytes((pl.len() + 12) as u64));
        assert(log.subrange(8, 16) =~= spec_u64_to_le_bytes(k as u64));
        assert(log.subrange(16, 20) =~= spec_u32_to_le_bytes(spec_crc32(pl)));
        assert(spec_u64_from_le_bytes(log.subrange(0, 8)) as int == total);
        assert(log.subrange(WAL_HDR as int, 8 + total) =~= pl);
        lemma_replay_shift(rec, rest_log, 0);
        assert(spec_replay(log, 8 + total) == spec_replay(rest_log, 0));
        lemma_replay_log_from(payloads, k + 1, tail);
        match spec_replay(tail, 0) {
            Ok(rest) => {
                assert(seq![((k as u64), pl)] + (Seq::new(
                    (payloads.len() - (k + 1)) as nat,
                    |i: int| (((k + 1 + i) as u64), payloads[k + 1 + i]),
                ) + rest) =~= Seq::new(
                    (payloads.len() - k) as nat,
                    |i: int| ((k + i) as u64, payloads[k + i]),
                ) + rest);
            },
            Err(e) => {},
        }
    }
}

/// Any strict prefix of a single framed record replays to nothing: the
/// record is torn and replay stops cleanly before it.
proof fn lemma_partial_record_empty(lsn: Lsn, p: Seq<u8>, keep: int)
    requires
        p.len() + 12 <= u64::MAX,
        0 <= keep < spec_wal_record(lsn, p).len(),
    ensures
        spec_replay(spec_wal_record(lsn, p).take(keep), 0) == Ok::<Seq<(Lsn, Seq<u8>)>, Lsn>(
            Seq::empty(),
        ),
{
    lemma_auto_spec_u32_to_from_le_bytes();
    lemma_auto_spec_u64_to_from_le_bytes();
    let rec = spec_wal_record(lsn, p);
    let t = rec.take(keep);
    assert(rec.len() == WAL_HDR + p.len());
    if keep >= WAL_HDR {
        assert(t.subrange(0, 8) =~= spec_u64_to_le_bytes((p.len() + 12) as u64));
        assert(spec_u64_from_le_bytes(t.subrange(0, 8)) as int == p.len() + 12);
    }
}

/// Replaying the image of a history of appends yields exactly the appended
/// payloads, and the LSNs replay visits increase strictly by one starting at
/// zero: record `i` carries LSN `i`.
pub proof fn lemma_replay_of_history(payloads: Seq<Seq<u8>>)
    requires
        forall|j: int| 0 <= j < payloads.len() ==> #[trigger] payloads[j].len() + 12 <= u64::MAX,
    ensures
        spec_replay(spec_wal_image(payloads), 0) == Ok::<Seq<(Lsn, Seq<u8>)>, Lsn>(
            Seq::new(payloads.len(), |i: int| ((i as u64), payloads[i])),
        ),
{
    lemma_replay_log_from(payloads, 0, Seq::empty());
    assert(spec_log_from(payloads, 0) + Seq::<u8>::empty() =~= spec_wal_image(payloads));
    assert(Seq::new(payloads.len(), |i: int| ((0 + i) as u64, payloads[0 + i])) + Seq::<(
        Lsn,
        Seq<u8>,
    )>::empty() =~= Seq::new(payloads.len(), |i: int| ((i as u64), payloads[i])));
}

/// A log whose last record was truncated anywhere — the torn-tail case —
/// replays cleanly to exactly the records that are wholly present.
pub proof fn lemma_replay_torn_tail(payloads: Seq<Seq<u8>>, keep: int)
    requires
        payloads.len() > 0,
        forall|j: int| 0 <= j < payloads.len() ==> #[trigger] payloads[j].len() + 12 <= u64::MAX,
        0 <= keep < spec_wal_record((payloads.len() - 1) as u64, payloads.last()).len(),
    ensures
        spec_replay(
            spec_wal_image(payloads.drop_last()) + spec_wal_record(
                (payloads.len() - 1) as u64,
                payloads.last(),
            ).take(keep),
            0,
        ) == Ok::<Seq<(Lsn, Seq<u8>)>, Lsn>(
            Seq::new((payloads.len() - 1) as nat, |i: int| ((i as u64), payloads[i])),
        ),
{
    let short = payloads.drop_last();
    let partial = spec_wal_record((payloads.len() - 1) as u64, payloads.last()).take(keep);
    lemma_partial_record_empty((payloads.len() - 1) as u64, payloads.last(), keep);
    lemma_replay_log_from(short, 0, partial);
    assert(Seq::new(short.len(), |i: int| ((0 + i) as u64, short[0 + i])) + Seq::<(
        Lsn,
        Seq<u8>,
    )>::empty() =~= Seq::new((payloads.len() - 1) as nat, |i: int| ((i as u64), payloads[i])));
}

/// The next-LSN scan at an offset past a fixed prefix reads only the suffix.
proof fn lemma_scan_shift(a: Seq<u8>, b: Seq<u8>, pos: int, next: u64)
    requires
        0 <= pos,
    ensures
        spec_scan_next(a + b, a.len() + pos, next) == spec_scan_next(b, pos, next),
    decreases b.len() - pos,
{
    let log = a + b;
    let lp = a.len() + pos;
    if pos + 8 > b.len() {
    } else {
        assert(log.subrange(lp, lp + 8) =~= b.subrange(pos, pos + 8));
        if pos + 16 > b.len() {
        } else {
            assert(log.subrange(lp + 8, lp + 16) =~= b.subrange(pos + 8, pos + 16));
            let total = spec_u64_from_le_bytes(b.subrange(pos, pos + 8)) as int;
            if total < 12 {
            } else if pos + 8 + total > b.len() {
            } else {
                lemma_scan_shift(a, b, pos + 8 + total, lsn_inc(
                    spec_u64_from_le_bytes(b.subrange(pos + 8, pos + 16)),
                ));
            }
        }
    }
}

/// The scan over the image of appends `k..` counts through every record.
proof fn lemma_scan_log_from(payloads: Seq<Seq<u8>>, k: int, next0: u64)
    requires
        0 <= k <= payloads.len(),
        payloads.len() <= u64::MAX,
        forall|j: int| 0 <= j < payloads.len() ==> #[trigger] payloads[j].len() + 12 <= u64::MAX,
    ensures
        spec_scan_next(spec_log_from(payloads, k), 0, next0) == if k < payloads.len() {
            payloads.len() as u64
        } else {
            next0
        },
    decreases payloads.len() - k,
{
    lemma_auto_spec_u32_to_from_le_bytes();
    lemma_auto_spec_u64_to_from_le_bytes();
    if k == payloads.len() {
    } else {
        let pl = payloads[k];
        let rec = spec_wal_record(k as u64, pl);
        let rest_log = spec_log_from(payloads, k + 1);
        let log = spec_log_from(payloads, k);
        assert(log =~= rec + rest_log);
        let total: int = pl.len() as int + 12;
        assert(rec.len() == WAL_HDR + pl.len());
        assert(log.subrange(0, 8) =~= spec_u64_to_le_bytes((pl.len() + 12) as u64));
        assert(log.subrange(8, 16) =~= spec_u64_to_le_bytes(k as u64));
        assert(spec_u64_from_le_bytes(log.subrange(0, 8)) as int == total);
        lemma_scan_shift(rec, rest_log, 0, lsn_inc(k as u64));
        assert(spec_scan_next(log, 8 + total, lsn_inc(k as u64)) == spec_scan_next(
            rest_log,
            0,
            lsn_inc(k as u64),
        ));
        lemma_scan_log_from(payloads, k + 1, lsn_inc(k as u64));
    }
}

/// After a history of appends, the open-time scan reports exactly one past
/// the last assigned LSN: the number of appends.
pub proof fn lemma_next_lsn_of_history(payloads: Seq<Seq<u8>>)
    requires
        payloads.len() <= u64::MAX,
        forall|j: int| 0 <= j < payloads.len() ==> #[trigger] payloads[j].len() + 12 <= u64::MAX,
    ensures
        spec_next_lsn(spec_wal_image(payloads)) == payloads.len() as u64,
{
    lemma_scan_log_from(payloads, 0, 0);
    if payloads.len() == 0 {
        assert(spec_wal_image(payloads) =~= Seq::<u8>::empty());
    }
}

/// Scans a log image, trusting record lengths, and returns one past the last
/// LSN seen; a truncated field ends the scan.  CRCs are not checked here:
/// torn payloads are only detected at replay.
pub fn compute_next_lsn(log: &Vec<u8>) -> (r: u64)
    ensures
        r == spec_next_lsn(log@),
{
    let len = log.len();
    let mut pos: usize = 0;
    let mut next: u64 = 0;
    loop
        invariant
            pos <= len,
            len == log@.len(),
            spec_next_lsn(log@) == spec_scan_next(log@, pos as int, next),
        decreases len - pos,
    {
        if len - pos < 8 {
            return next;
        }
        let total = crate::util::read_u64_le(log.as_slice(), pos);
        if len - pos < 16 {
            return next;
        }
        let lsn = crate::util::read_u64_le(log.as_slice(), pos + 8);
        next = if lsn == u64::MAX {
            0
        } else {
            lsn + 1
        };
        if total < 12 {
            return next;
        }
        if len - pos < WAL_HDR || total - 12 > (len - pos - WAL_HDR) as u64 {
            return next;
        }
        pos = pos + WAL_HDR + (total - 12) as usize;
    }
}

} // verus!
