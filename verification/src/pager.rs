//! Fixed-size pages with magic/CRC framing, and page-granular access to an
//! in-memory image of the data file.
//!
//! A page is 8192 bytes: a 32-byte header (magic, id, LSN, used, CRC, four
//! reserved zero bytes) followed by 8160 payload bytes.  The CRC covers the
//! header up to the CRC field concatenated with the payload; the reserved pad
//! is excluded.

use crate::util::{
    crc32, extend_bytes, push_u32_le, push_u64_le, read_u32_le, read_u64_le, spec_crc32, zero_vec,
    zeros, Error,
};
use crate::wal::Lsn;
use vstd::bytes::{
    lemma_auto_spec_u32_to_from_le_bytes, lemma_auto_spec_u64_to_from_le_bytes,
    spec_u32_from_le_bytes, spec_u32_to_le_bytes, spec_u64_from_le_bytes, spec_u64_to_le_bytes,
};
use vstd::prelude::*;

verus! {

/// Size of one page on disk.
pub const PAGE_SIZE: usize = 8192;

/// Size of the page header, reserved pad included.
pub const HDR_SZ: usize = 32;

/// Bytes of payload one page can hold.
pub const PAYLOAD_CAPACITY: usize = PAGE_SIZE - HDR_SZ;

/// Every stored page starts with this little-endian constant.
pub const PAGE_MAGIC: u32 = 0xdeadbeef;

pub type PageId = u64;

/// One decoded page: identity, recovery bookkeeping and payload.
#[derive(Clone, Debug)]
pub struct Page {
    /// Position of the page: byte offset in the file divided by `PAGE_SIZE`.
    pub id: PageId,
    /// LSN of the last log record applied to this page.
    pub lsn: Lsn,
    /// Offset of the first unused payload byte.
    pub used: u32,
    /// The payload region, always `PAYLOAD_CAPACITY` bytes.
    pub data: Vec<u8>,
}

impl Page {
    /// The payload buffer has exactly the size the serializer expects.
    pub open spec fn wf(self) -> bool {
        self.data@.len() == PAYLOAD_CAPACITY
    }

    /// A fresh, empty page: zero LSN, nothing used, zeroed payload.
    pub fn new(id: PageId) -> (r: Page)
        ensures
            r.id == id,
            r.lsn == 0,
            r.used == 0,
            r.data@ == zeros(PAYLOAD_CAPACITY as int),
            r.wf(),
    {
        Page { id, lsn: 0, used: 0, data: zero_vec(PAGE_SIZE - HDR_SZ) }
    }

    /// Serializes the page, recomputing the CRC from the current contents.
    pub fn to_bytes(&self) -> (r: Vec<u8>)
        requires
            self.wf(),
        ensures
            r@ == spec_page_bytes(*self),
            r@.len() == PAGE_SIZE,
    {
        proof {
            lemma_auto_spec_u32_to_from_le_bytes();
            lemma_auto_spec_u64_to_from_le_bytes();
        }
        let mut hdr: Vec<u8> = Vec::new();
        push_u32_le(&mut hdr, PAGE_MAGIC);
        push_u64_le(&mut hdr, self.id);
        push_u64_le(&mut hdr, self.lsn);
        push_u32_le(&mut hdr, self.used);
        proof {
            assert(hdr@ =~= spec_header_prefix(*self));
        }
        let mut crc_src: Vec<u8> = Vec::new();
        extend_bytes(&mut crc_src, hdr.as_slice());
        extend_bytes(&mut crc_src, self.data.as_slice());
        proof {
            assert(crc_src@ =~= spec_header_prefix(*self) + self.data@);
        }
        let crc = crc32(crc_src.as_slice());
        let mut buf: Vec<u8> = Vec::new();
        extend_bytes(&mut buf, hdr.as_slice());
        push_u32_le(&mut buf, crc);
        let pad = zero_vec(4);
        extend_bytes(&mut buf, pad.as_slice());
        extend_bytes(&mut buf, self.data.as_slice());
        proof {
            assert(buf@ =~= spec_page_bytes(*self));
        }
        buf
    }

    /// Decodes a full page buffer, verifying magic and CRC.
    pub fn from_bytes(b: &[u8]) -> (r: Result<Page, Error>)
        requires
            b@.len() == PAGE_SIZE,
        ensures
            match r {
                Ok(p) => {
                    &&& spec_page_ok(b@)
                    &&& p.wf()
                    &&& p.id == spec_id_of(b@)
                    &&& p.lsn == spec_lsn_of(b@)
                    &&& p.used == spec_used_of(b@)
                    &&& p.data@ == spec_payload_of(b@)
                },
                Err(e) => {
                    &&& !spec_page_ok(b@)
                    &&& match e {
                        Error::BadMagic => spec_magic_of(b@) != PAGE_MAGIC,
                        Error::PageCrc(id) => {
                            &&& spec_magic_of(b@) == PAGE_MAGIC
                            &&& spec_stored_crc(b@) != spec_crc32(spec_crc_src(b@))
                            &&& id == spec_id_of(b@)
                        },
                        _ => false,
                    }
                },
            },
    {
        let magic = read_u32_le(b, 0);
        if magic != PAGE_MAGIC {
            return Err(Error::BadMagic);
        }
        let id = read_u64_le(b, 4);
        let lsn = read_u64_le(b, 12);
        let used = read_u32_le(b, 20);
        let crc_stored = read_u32_le(b, 24);
        let payload = vstd::slice::slice_subrange(b, HDR_SZ, PAGE_SIZE);
        let head = vstd::slice::slice_subrange(b, 0, 24);
        let mut crc_src: Vec<u8> = Vec::new();
        extend_bytes(&mut crc_src, head);
        extend_bytes(&mut crc_src, payload);
        proof {
            assert(crc_src@ =~= spec_crc_src(b@));
        }
        let crc_calc = crc32(crc_src.as_slice());
        if crc_calc != crc_stored {
            return Err(Error::PageCrc(id));
        }
        let data = vstd::slice::slice_to_vec(payload);
        Ok(Page { id, lsn, used, data })
    }
}

/// The 24 header bytes before the CRC field: magic, id, LSN, used.
pub open spec fn spec_header_image(id: PageId, lsn: Lsn, used: u32) -> Seq<u8> {
    spec_u32_to_le_bytes(PAGE_MAGIC) + spec_u64_to_le_bytes(id) + spec_u64_to_le_bytes(lsn)
        + spec_u32_to_le_bytes(used)
}

/// The serialized form of a page with the given fields: header, CRC computed
/// over header-before-CRC plus payload, four reserved zero bytes, payload.
pub open spec fn spec_page_image(id: PageId, lsn: Lsn, used: u32, data: Seq<u8>) -> Seq<u8> {
    spec_header_image(id, lsn, used) + spec_u32_to_le_bytes(
        spec_crc32(spec_header_image(id, lsn, used) + data),
    ) + zeros(4) + data
}

/// The 24 header bytes before the CRC field of a given page.
pub open spec fn spec_header_prefix(p: Page) -> Seq<u8> {
    spec_header_image(p.id, p.lsn, p.used)
}

/// The CRC a serialized page carries: header-before-CRC concatenated with the
/// payload; the reserved pad is excluded.
pub open spec fn spec_page_crc(p: Page) -> u32 {
    spec_crc32(spec_header_prefix(p) + p.data@)
}

/// The full serialized form of a page.
pub open spec fn spec_page_bytes(p: Page) -> Seq<u8> {
    spec_page_image(p.id, p.lsn, p.used, p.data@)
}

/// The magic field of a page buffer.
pub open spec fn spec_magic_of(b: Seq<u8>) -> u32 {
    spec_u32_from_le_bytes(b.subrange(0, 4))
}

/// The id field of a page buffer.
pub open spec fn spec_id_of(b: Seq<u8>) -> u64 {
    spec_u64_from_le_bytes(b.subrange(4, 12))
}

/// The LSN field of a page buffer.
pub open spec fn spec_lsn_of(b: Seq<u8>) -> u64 {
    spec_u64_from_le_bytes(b.subrange(12, 20))
}

/// The used field of a page buffer.
pub open spec fn spec_used_of(b: Seq<u8>) -> u32 {
    spec_u32_from_le_bytes(b.subrange(20, 24))
}

/// The stored CRC field of a page buffer.
pub open spec fn spec_stored_crc(b: Seq<u8>) -> u32 {
    spec_u32_from_le_bytes(b.subrange(24, 28))
}

/// The payload region of a page buffer.
pub open spec fn spec_payload_of(b: Seq<u8>) -> Seq<u8> {
    b.subrange(HDR_SZ as int, PAGE_SIZE as int)
}

/// The bytes a page buffer's CRC is computed over.
pub open spec fn spec_crc_src(b: Seq<u8>) -> Seq<u8> {
    b.subrange(0, 24) + b.subrange(HDR_SZ as int, PAGE_SIZE as int)
}

/// A page buffer decodes: right magic, and the stored CRC matches.
pub open spec fn spec_page_ok(b: Seq<u8>) -> bool {
    &&& spec_magic_of(b) == PAGE_MAGIC
    &&& spec_stored_crc(b) == spec_crc32(spec_crc_src(b))
}

/// A serialized page image decodes to the fields it was built from: the
/// stored CRC matches by construction, and every header field and the
/// payload read back unchanged.
pub proof fn lemma_page_image_ok(id: PageId, lsn: Lsn, used: u32, data: Seq<u8>)
    requires
        data.len() == PAYLOAD_CAPACITY,
    ensures
        spec_page_image(id, lsn, used, data).len() == PAGE_SIZE,
        spec_page_ok(spec_page_image(id, lsn, used, data)),
        spec_id_of(spec_page_image(id, lsn, used, data)) == id,
        spec_lsn_of(spec_page_image(id, lsn, used, data)) == lsn,
        spec_used_of(spec_page_image(id, lsn, used, data)) == used,
        spec_payload_of(spec_page_image(id, lsn, used, data)) == data,
{
    lemma_auto_spec_u32_to_from_le_bytes();
    lemma_auto_spec_u64_to_from_le_bytes();
    let b = spec_page_image(id, lsn, used, data);
    assert(b.subrange(0, 4) =~= spec_u32_to_le_bytes(PAGE_MAGIC));
    assert(b.subrange(4, 12) =~= spec_u64_to_le_bytes(id));
    assert(b.subrange(12, 20) =~= spec_u64_to_le_bytes(lsn));
    assert(b.subrange(20, 24) =~= spec_u32_to_le_bytes(used));
    assert(b.subrange(24, 28) =~= spec_u32_to_le_bytes(
        spec_crc32(spec_header_image(id, lsn, used) + data),
    ));
    assert(b.subrange(HDR_SZ as int, PAGE_SIZE as int) =~= data);
    assert(b.subrange(0, 24) =~= spec_header_image(id, lsn, used));
}

/// Serializing a well-formed page and decoding the result gives the page
/// back.
pub proof fn lemma_page_round_trip(p: Page)
    requires
        p.wf(),
    ensures
        spec_page_bytes(p).len() == PAGE_SIZE,
        spec_page_ok(spec_page_bytes(p)),
        spec_id_of(spec_page_bytes(p)) == p.id,
        spec_lsn_of(spec_page_bytes(p)) == p.lsn,
        spec_used_of(spec_page_bytes(p)) == p.used,
        spec_payload_of(spec_page_bytes(p)) == p.data@,
{
    lemma_page_image_ok(p.id, p.lsn, p.used, p.data@);
}

/// Byte offset where page `pid` starts.
pub open spec fn page_start(pid: PageId) -> int {
    pid * (PAGE_SIZE as int)
}

/// The page lies entirely beyond the end of the file.
pub open spec fn page_absent(f: Seq<u8>, pid: PageId) -> bool {
    page_start(pid) >= f.len()
}

/// The file holds all `PAGE_SIZE` bytes of the page.
pub open spec fn page_present(f: Seq<u8>, pid: PageId) -> bool {
    page_start(pid) + PAGE_SIZE <= f.len()
}

/// The file ends inside the page: a partial page.
pub open spec fn page_torn(f: Seq<u8>, pid: PageId) -> bool {
    !page_absent(f, pid) && !page_present(f, pid)
}

/// The `PAGE_SIZE` bytes of page `pid` in the file image.
pub open spec fn page_slice(f: Seq<u8>, pid: PageId) -> Seq<u8> {
    f.subrange(page_start(pid), page_start(pid) + PAGE_SIZE)
}

/// Reading page `pid` succeeds: it is absent (and synthesized empty) or its
/// stored bytes decode.
pub open spec fn page_readable(f: Seq<u8>, pid: PageId) -> bool {
    page_absent(f, pid) || (page_present(f, pid) && spec_page_ok(page_slice(f, pid)))
}

/// The used field a read of page `pid` reports.
pub open spec fn page_used(f: Seq<u8>, pid: PageId) -> u32 {
    if page_absent(f, pid) {
        0u32
    } else {
        spec_used_of(page_slice(f, pid))
    }
}

/// The LSN a read of page `pid` reports.
pub open spec fn page_lsn(f: Seq<u8>, pid: PageId) -> u64 {
    if page_absent(f, pid) {
        0u64
    } else {
        spec_lsn_of(page_slice(f, pid))
    }
}

/// The id a read of page `pid` reports: the stored field, or `pid` itself for
/// a synthesized page.
pub open spec fn page_id_field(f: Seq<u8>, pid: PageId) -> u64 {
    if page_absent(f, pid) {
        pid
    } else {
        spec_id_of(page_slice(f, pid))
    }
}

/// The payload a read of page `pid` reports.
pub open spec fn page_payload(f: Seq<u8>, pid: PageId) -> Seq<u8> {
    if page_absent(f, pid) {
        zeros(PAYLOAD_CAPACITY as int)
    } else {
        spec_payload_of(page_slice(f, pid))
    }
}

/// The error a read of page `pid` reports when the page is not readable: a
/// short read for a partial page, else a magic mismatch, else a CRC mismatch
/// carrying the stored page id.
pub open spec fn spec_read_err(f: Seq<u8>, pid: PageId) -> Error {
    if page_torn(f, pid) {
        Error::ShortRead(pid)
    } else if spec_magic_of(page_slice(f, pid)) != PAGE_MAGIC {
        Error::BadMagic
    } else {
        Error::PageCrc(spec_id_of(page_slice(f, pid)))
    }
}

/// The file image after `b` is written at byte offset `start`: the file is
/// zero-extended up to `start` if needed, and every byte outside the written
/// span is unchanged.
pub open spec fn file_after_write(f: Seq<u8>, start: int, b: Seq<u8>) -> Seq<u8> {
    Seq::new(
        if f.len() >= start + b.len() {
            f.len()
        } else {
            (start + b.len()) as nat
        },
        |i: int|
            if start <= i < start + b.len() {
                b[i - start]
            } else if i < f.len() {
                f[i]
            } else {
                0u8
            },
    )
}

/// Page-granular access to an in-memory image of the data file.
#[derive(Debug)]
pub struct Pager {
    /// The data file, byte for byte.
    pub file: Vec<u8>,
}

impl Pager {
    /// Wraps a data-file image.
    pub fn open(file: Vec<u8>) -> (r: Pager)
        ensures
            r.file@ == file@,
    {
        Pager { file }
    }

    /// Reads one page.  A page beyond the end of the file is synthesized
    /// empty; a partial page at the end is a short read; otherwise the stored
    /// bytes are decoded, magic and CRC checked.
    pub fn read_page(&self, pid: PageId) -> (r: Result<Page, Error>)
        ensures
            match r {
                Ok(p) => {
                    &&& page_readable(self.file@, pid)
                    &&& p.wf()
                    &&& p.id == page_id_field(self.file@, pid)
                    &&& p.lsn == page_lsn(self.file@, pid)
                    &&& p.used == page_used(self.file@, pid)
                    &&& p.data@ == page_payload(self.file@, pid)
                },
                Err(e) => {
                    &&& !page_readable(self.file@, pid)
                    &&& e == spec_read_err(self.file@, pid)
                },
            },
    {
        let len = self.file.len();
        let len64 = len as u64;
        let q = len64 / (PAGE_SIZE as u64);
        if pid > q {
            proof {
                assert(pid * (PAGE_SIZE as int) >= (q + 1) * (PAGE_SIZE as int)) by (nonlinear_arith)
                    requires
                        pid >= q + 1,
                ;
                assert((q + 1) * (PAGE_SIZE as int) > len64 as int) by (nonlinear_arith)
                    requires
                        q == len64 as int / (PAGE_SIZE as int),
                        len64 >= 0,
                ;
            }
            return Ok(Page::new(pid));
        }
        let off64 = pid * (PAGE_SIZE as u64);
        proof {
            assert(pid * (PAGE_SIZE as int) <= q * (PAGE_SIZE as int)) by (nonlinear_arith)
                requires
                    0 <= pid <= q,
            ;
            assert(q * (PAGE_SIZE as int) <= len64 as int) by (nonlinear_arith)
                requires
                    q == len64 as int / (PAGE_SIZE as int),
                    len64 >= 0,
            ;
        }
        let off = off64 as usize;
        if off == len {
            return Ok(Page::new(pid));
        }
        if len - off < PAGE_SIZE {
            return Err(Error::ShortRead(pid));
        }
        let b = vstd::slice::slice_subrange(self.file.as_slice(), off, off + PAGE_SIZE);
        proof {
            assert(b@ == page_slice(self.file@, pid));
        }
        Page::from_bytes(b)
    }

    /// Writes one page at its position, zero-filling any gap before it, and
    /// leaves every byte outside the page unchanged.
    #[verifier::loop_isolation(false)]
    pub fn write_page(&mut self, page: &Page)
        requires
            page.wf(),
            page_start(page.id) + PAGE_SIZE <= usize::MAX,
        ensures
            final(self).file@ == file_after_write(
                old(self).file@,
                page_start(page.id),
                spec_page_bytes(*page),
            ),
            final(self).file@.len() == if old(self).file@.len() >= page_start(page.id) + PAGE_SIZE {
                old(self).file@.len() as int
            } else {
                page_start(page.id) + PAGE_SIZE
            },
            page_present(final(self).file@, page.id),
            page_slice(final(self).file@, page.id) == spec_page_bytes(*page),
            forall|i: int|
                0 <= i < final(self).file@.len() && !(page_start(page.id) <= i < page_start(page.id)
                    + PAGE_SIZE) ==> final(self).file@[i] == if i < old(self).file@.len() {
                    old(self).file@[i]
                } else {
                    0u8
                },
    {
        let off64 = page.id * (PAGE_SIZE as u64);
        let off = off64 as usize;
        while self.file.len() < off
            invariant
                off == page_start(page.id),
                off + PAGE_SIZE <= usize::MAX,
                self.file@.len() >= old(self).file@.len(),
                self.file@.len() <= off || self.file@.len() == old(self).file@.len(),
                forall|i: int|
                    0 <= i < self.file@.len() ==> self.file@[i] == if i < old(self).file@.len() {
                        old(self).file@[i]
                    } else {
                        0u8
                    },
            decreases off - self.file@.len(),
        {
            self.file.push(0u8);
        }
        let b = page.to_bytes();
        proof {
            lemma_page_round_trip(*page);
        }
        let ghost mid = self.file@;
        proof {
            assert(forall|j: int|
                0 <= j < mid.len() ==> mid[j] == if j < old(self).file@.len() {
                    old(self).file@[j]
                } else {
                    0u8
                });
            assert(mid.len() == if old(self).file@.len() >= off {
                old(self).file@.len() as int
            } else {
                off as int
            });
        }
        let mut i: usize = 0;
        while i < PAGE_SIZE
            invariant
                i <= PAGE_SIZE,
                off == page_start(page.id),
                off + PAGE_SIZE <= usize::MAX,
                b@ == spec_page_bytes(*page),
                b@.len() == PAGE_SIZE,
                mid.len() >= off,
                self.file@.len() == if mid.len() >= off + i {
                    mid.len() as int
                } else {
                    off + i
                },
                forall|j: int| 0 <= j < off ==> self.file@[j] == mid[j],
                forall|j: int| off <= j < off + i ==> self.file@[j] == b@[j - off],
                forall|j: int| off + i <= j < self.file@.len() ==> self.file@[j] == mid[j],
            decreases PAGE_SIZE - i,
        {
            let target = off + i;
            if target < self.file.len() {
                self.file[target] = b[i];
            } else {
                self.file.push(b[i]);
            }
            i = i + 1;
        }
        proof {
            assert(page_slice(self.file@, page.id) =~= spec_page_bytes(*page));
            assert forall|j: int|
                0 <= j < self.file@.len() && !(off <= j < off + PAGE_SIZE) implies self.file@[j]
                == (if j < old(self).file@.len() {
                old(self).file@[j]
            } else {
                0u8
            }) by {
                assert(self.file@[j] == mid[j]);
            }
            assert(self.file@ =~= file_after_write(
                old(self).file@,
                page_start(page.id),
                spec_page_bytes(*page),
            ));
        }
    }
}

} // verus!
