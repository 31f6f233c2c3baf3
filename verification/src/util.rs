//! CRC-32 and little-endian byte helpers shared by the pager and the log.

use vstd::prelude::*;

verus! {

/// Everything that a store operation can report instead of succeeding.
///
/// I/O failures of the surrounding program are not represented here: the
/// library only ever sees file images, so the errors are all forms of
/// corruption or of records that cannot be applied.
#[derive(Clone, Copy, Debug, PartialEq, Eq, Structural)]
pub enum Error {
    /// The data file ends in a partial page (the page id is carried).
    ShortRead(u64),
    /// A page's magic number does not match.
    BadMagic,
    /// A page's stored CRC does not match its contents (the stored page id is
    /// carried).
    PageCrc(u64),
    /// A log record's stored CRC does not match its payload (the record's LSN
    /// is carried).
    WalCrc(u64),
    /// A log record is too short for its declared lengths or does not fit its
    /// page (the record's LSN is carried).
    BadRecord(u64),
    /// An indexed record is inconsistent with the page it points into (the
    /// page id is carried).
    BadEntry(u64),
}

/// One bit of the CRC-32 division: shift right, folding in the reflected
/// IEEE 802.3 polynomial when the low bit is set.
pub open spec fn crc_step(c: u32) -> u32 {
    if c & 1 == 1 {
        (c >> 1) ^ 0xedb88320u32
    } else {
        c >> 1
    }
}

/// `crc_step` applied `n` times.
pub open spec fn crc_shift(c: u32, n: nat) -> u32
    decreases n,
{
    if n == 0 {
        c
    } else {
        crc_step(crc_shift(c, (n - 1) as nat))
    }
}

/// Folding one byte into a running CRC-32: xor it in, then divide eight bits.
pub open spec fn crc_byte(c: u32, b: u8) -> u32 {
    crc_shift(c ^ (b as u32), 8)
}

/// Folding a whole sequence into a running CRC-32.
pub open spec fn crc_fold(c: u32, s: Seq<u8>) -> u32
    decreases s.len(),
{
    if s.len() == 0 {
        c
    } else {
        crc_byte(crc_fold(c, s.drop_last()), s.last())
    }
}

/// CRC-32 of a byte sequence: initial value `0xffffffff`, reflected
/// polynomial `0xedb88320`, final complement.
pub open spec fn spec_crc32(s: Seq<u8>) -> u32 {
    !crc_fold(0xffffffffu32, s)
}

/// CRC-32 of `data`, bit by bit.
pub fn crc32(data: &[u8]) -> (r: u32)
    ensures
        r == spec_crc32(data@),
{
    let n = data.len();
    let mut crc: u32 = 0xffffffff;
    let mut i: usize = 0;
    while i < n
        invariant
            n == data@.len(),
            i <= n,
            crc == crc_fold(0xffffffffu32, data@.take(i as int)),
        decreases n - i,
    {
        let b = data[i];
        let start: u32 = crc ^ (b as u32);
        let mut c: u32 = start;
        let mut j: usize = 0;
        while j < 8
            invariant
                j <= 8,
                c == crc_shift(start, j as nat),
            decreases 8 - j,
        {
            proof {
                assert(c & 1 == 1 || c & 1 == 0) by (bit_vector);
            }
            if c & 1 != 0 {
                c = (c >> 1) ^ 0xedb88320;
            } else {
                c = c >> 1;
            }
            j = j + 1;
        }
        i = i + 1;
        crc = c;
        proof {
            assert(data@.take(i as int).drop_last() =~= data@.take(i - 1));
            assert(data@.take(i as int).last() == b);
        }
    }
    proof {
        assert(data@.take(n as int) =~= data@);
    }
    !crc
}

/// Appends every byte of `src` to `dst`.
pub fn extend_bytes(dst: &mut Vec<u8>, src: &[u8])
    ensures
        final(dst)@ == old(dst)@ + src@,
{
    let n = src.len();
    let mut i: usize = 0;
    while i < n
        invariant
            n == src@.len(),
            i <= n,
            dst@ == old(dst)@ + src@.take(i as int),
        decreases n - i,
    {
        dst.push(src[i]);
        i = i + 1;
        proof {
            assert(old(dst)@ + src@.take(i - 1) + seq![src@[i - 1]] =~= old(dst)@ + src@.take(
                i as int,
            ));
        }
    }
    proof {
        assert(old(dst)@ + src@.take(n as int) =~= old(dst)@ + src@);
    }
}

/// Appends the four little-endian bytes of `x` to `dst`.
pub fn push_u32_le(dst: &mut Vec<u8>, x: u32)
    ensures
        final(dst)@ == old(dst)@ + vstd::bytes::spec_u32_to_le_bytes(x),
{
    let b = vstd::bytes::u32_to_le_bytes(x);
    extend_bytes(dst, b.as_slice());
}

/// Appends the eight little-endian bytes of `x` to `dst`.
pub fn push_u64_le(dst: &mut Vec<u8>, x: u64)
    ensures
        final(dst)@ == old(dst)@ + vstd::bytes::spec_u64_to_le_bytes(x),
{
    let b = vstd::bytes::u64_to_le_bytes(x);
    extend_bytes(dst, b.as_slice());
}

/// Reads the little-endian `u32` at byte offset `off` of `s`.
pub fn read_u32_le(s: &[u8], off: usize) -> (r: u32)
    requires
        off + 4 <= s@.len(),
    ensures
        r == vstd::bytes::spec_u32_from_le_bytes(s@.subrange(off as int, off + 4)),
{
    let _len = s.len();
    let sub = vstd::slice::slice_subrange(s, off, off + 4);
    vstd::bytes::u32_from_le_bytes(sub)
}

/// Reads the little-endian `u64` at byte offset `off` of `s`.
pub fn read_u64_le(s: &[u8], off: usize) -> (r: u64)
    requires
        off + 8 <= s@.len(),
    ensures
        r == vstd::bytes::spec_u64_from_le_bytes(s@.subrange(off as int, off + 8)),
{
    let _len = s.len();
    let sub = vstd::slice::slice_subrange(s, off, off + 8);
    vstd::bytes::u64_from_le_bytes(sub)
}

/// Whether two byte strings hold the same bytes.
pub fn bytes_eq(a: &[u8], b: &[u8]) -> (r: bool)
    ensures
        r == (a@ == b@),
{
    if a.len() != b.len() {
        return false;
    }
    let n = a.len();
    let mut i: usize = 0;
    while i < n
        invariant
            n == a@.len(),
            n == b@.len(),
            i <= n,
            forall|k: int| 0 <= k < i ==> a@[k] == b@[k],
        decreases n - i,
    {
        if a[i] != b[i] {
            return false;
        }
        i = i + 1;
    }
    proof {
        assert(a@ =~= b@);
    }
    true
}

/// A sequence of `n` zero bytes.
pub open spec fn zeros(n: int) -> Seq<u8> {
    Seq::new(n as nat, |i: int| 0u8)
}

/// A vector of `n` zero bytes.
pub fn zero_vec(n: usize) -> (r: Vec<u8>)
    ensures
        r@ == zeros(n as int),
{
    let v = vec![0u8; n];
    proof {
        assert(v@ =~= zeros(n as int));
    }
    v
}

} // verus!
