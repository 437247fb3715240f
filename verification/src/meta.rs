//! Meta pages: the root pointers of the database.
//!
//! Two meta pages live at page ids 0 and 1. Each holds the magic, format
//! version, page size, the root bucket header, the freelist page id, the
//! allocation high-water mark, the transaction id and a checksum. The valid
//! meta with the greatest transaction id is authoritative; a writer always
//! overwrites the slot its new transaction id selects, so a torn write
//! leaves the other meta intact.

use vstd::prelude::*;

use crate::bytes::{le32, le64, u32_le, u64_le, put_u32, put_u64, get_u32, get_u64};
use crate::errors::Error;
use crate::page::{PAGE_HEADER_SIZE, META_PAGE_FLAG, Page, CoerciblePage};

verus! {

/// The file magic.
pub const MAGIC: u32 = 0xED0CDAED;

/// The file format version.
pub const VERSION: u32 = 2;

/// Size in bytes of an encoded bucket header.
pub const IN_BUCKET_SIZE: usize = 16;

/// Size in bytes of an encoded meta record (after the page header).
pub const META_SIZE: usize = 64;

/// A bucket header: the page id of the bucket's root page (zero for an
/// inline bucket) and its sequence counter.
#[derive(Clone, Copy, Debug, PartialEq, Eq, Structural)]
pub struct InBucket {
    /// Root page id; zero when the bucket is stored inline.
    pub root: u64,
    /// The bucket's sequence counter.
    pub sequence: u64,
}

/// The 16 encoded bytes of a bucket header.
pub open spec fn in_bucket_bytes(b: InBucket) -> Seq<u8> {
    le64(b.root) + le64(b.sequence)
}

/// Appends the encoded bucket header.
pub fn put_in_bucket(buf: &mut Vec<u8>, b: InBucket)
    ensures
        final(buf)@ == old(buf)@ + in_bucket_bytes(b),
        final(buf)@.len() == old(buf)@.len() + IN_BUCKET_SIZE,
{
    put_u64(buf, b.root);
    put_u64(buf, b.sequence);
    proof {
        assert(final(buf)@ =~= old(buf)@ + in_bucket_bytes(b));
    }
}

/// The bucket header held by 16 bytes at `off`.
pub open spec fn spec_parse_in_bucket(s: Seq<u8>, off: int) -> InBucket {
    InBucket { root: u64_le(s.subrange(off, off + 8)), sequence: u64_le(s.subrange(off + 8, off + 16)) }
}

/// Reads a bucket header at `off`.
pub fn parse_in_bucket(b: &[u8], off: usize) -> (r: InBucket)
    requires
        off + IN_BUCKET_SIZE <= b@.len(),
    ensures
        r == spec_parse_in_bucket(b@, off as int),
{
    let blen = b.len();
    let root = get_u64(b, off);
    let sequence = get_u64(b, off + 8);
    InBucket { root, sequence }
}

/// An encoded bucket header parses back to itself, whatever follows it.
pub proof fn lemma_in_bucket_roundtrip(b: InBucket, rest: Seq<u8>)
    ensures
        spec_parse_in_bucket(in_bucket_bytes(b) + rest, 0) == b,
{
    let s = in_bucket_bytes(b) + rest;
    assert(s.subrange(0, 8) =~= le64(b.root));
    assert(s.subrange(8, 16) =~= le64(b.sequence));
    crate::bytes::lemma_le64_roundtrip(b.root);
    crate::bytes::lemma_le64_roundtrip(b.sequence);
}

/// A parsed meta record.
#[derive(Clone, Copy, Debug, PartialEq, Eq, Structural)]
pub struct Meta {
    /// The file magic; `MAGIC` on a valid meta.
    pub magic: u32,
    /// The format version; `VERSION` on a valid meta.
    pub version: u32,
    /// The page size the file was created with.
    pub page_size: u32,
    /// Meta flags; unused.
    pub flags: u32,
    /// The root bucket's header.
    pub root: InBucket,
    /// Page id of the freelist page.
    pub freelist: u64,
    /// One past the greatest page id ever allocated (high-water mark).
    pub pgid: u64,
    /// The transaction id that wrote this meta.
    pub txid: u64,
    /// Checksum over the preceding fields.
    pub checksum: u64,
}

/// 64-bit multiplication that wraps around, as the checksum uses it.
pub open spec fn wrap_mul64(x: u64, y: u64) -> u64 {
    ((x as nat * y as nat) % 0x10000000000000000nat) as u64
}

/// The 64-bit FNV-1a hash of a byte string.
pub open spec fn fnv1a64(s: Seq<u8>) -> u64
    decreases s.len(),
{
    if s.len() == 0 {
        0xcbf29ce484222325
    } else {
        wrap_mul64(fnv1a64(s.drop_last()) ^ (s.last() as u64), 0x100000001b3)
    }
}

/// Computes the 64-bit FNV-1a hash of `len` bytes at `off`.
pub fn fnv1a(b: &[u8], off: usize, len: usize) -> (r: u64)
    requires
        off + len <= b@.len(),
    ensures
        r == fnv1a64(b@.subrange(off as int, off + len)),
{
    let ghost s = b@.subrange(off as int, off + len);
    let blen = b.len();
    let mut h: u64 = 0xcbf29ce484222325;
    let mut i: usize = 0;
    while i < len
        invariant
            i <= len,
            off + len <= blen,
            blen == b@.len(),
            s == b@.subrange(off as int, off + len),
            h == fnv1a64(s.take(i as int)),
        decreases len - i,
    {
        h = (h ^ (b[off + i] as u64)).wrapping_mul(0x100000001b3);
        proof {
            assert(s.take(i + 1).drop_last() =~= s.take(i as int));
            assert(s.take(i + 1).last() == b@[off + i]);
        }
        i = i + 1;
    }
    proof {
        assert(s.take(s.len() as int) =~= s);
    }
    h
}

/// The 56 bytes of a meta record that the checksum covers.
pub open spec fn meta_payload(m: Meta) -> Seq<u8> {
    le32(m.magic) + le32(m.version) + le32(m.page_size) + le32(m.flags) + in_bucket_bytes(m.root)
        + le64(m.freelist) + le64(m.pgid) + le64(m.txid)
}

/// The 64 encoded bytes of a meta record.
pub open spec fn meta_bytes(m: Meta) -> Seq<u8> {
    meta_payload(m) + le64(m.checksum)
}

/// A valid meta: right magic, right version, checksum matching the payload.
pub open spec fn meta_valid(m: Meta) -> bool {
    m.magic == MAGIC && m.version == VERSION && m.checksum == fnv1a64(meta_payload(m))
}

/// Appends the 56 payload bytes of `m`.
pub fn put_meta_payload(buf: &mut Vec<u8>, m: Meta)
    ensures
        final(buf)@ == old(buf)@ + meta_payload(m),
        final(buf)@.len() == old(buf)@.len() + 56,
{
    put_u32(buf, m.magic);
    put_u32(buf, m.version);
    put_u32(buf, m.page_size);
    put_u32(buf, m.flags);
    put_in_bucket(buf, m.root);
    put_u64(buf, m.freelist);
    put_u64(buf, m.pgid);
    put_u64(buf, m.txid);
    proof {
        assert(final(buf)@ =~= old(buf)@ + meta_payload(m));
    }
}

/// Appends the 64 encoded bytes of `m`.
pub fn put_meta(buf: &mut Vec<u8>, m: Meta)
    ensures
        final(buf)@ == old(buf)@ + meta_bytes(m),
        final(buf)@.len() == old(buf)@.len() + META_SIZE,
{
    put_meta_payload(buf, m);
    put_u64(buf, m.checksum);
    proof {
        assert(final(buf)@ =~= old(buf)@ + meta_bytes(m));
    }
}

/// The checksum a meta's payload should carry.
pub fn compute_checksum(m: &Meta) -> (r: u64)
    ensures
        r == fnv1a64(meta_payload(*m)),
{
    let mut buf: Vec<u8> = Vec::new();
    put_meta_payload(&mut buf, *m);
    proof {
        assert(buf@ =~= meta_payload(*m));
    }
    let r = fnv1a(buf.as_slice(), 0, buf.len());
    proof {
        assert(buf@.subrange(0, buf@.len() as int) =~= buf@);
    }
    r
}

/// The meta record held by 64 bytes at `off`.
pub open spec fn spec_parse_meta(s: Seq<u8>, off: int) -> Meta {
    Meta {
        magic: u32_le(s.subrange(off, off + 4)),
        version: u32_le(s.subrange(off + 4, off + 8)),
        page_size: u32_le(s.subrange(off + 8, off + 12)),
        flags: u32_le(s.subrange(off + 12, off + 16)),
        root: spec_parse_in_bucket(s, off + 16),
        freelist: u64_le(s.subrange(off + 32, off + 40)),
        pgid: u64_le(s.subrange(off + 40, off + 48)),
        txid: u64_le(s.subrange(off + 48, off + 56)),
        checksum: u64_le(s.subrange(off + 56, off + 64)),
    }
}

/// Reads a meta record at `off`.
pub fn parse_meta(b: &[u8], off: usize) -> (r: Meta)
    requires
        off + META_SIZE <= b@.len(),
    ensures
        r == spec_parse_meta(b@, off as int),
{
    let blen = b.len();
    let magic = get_u32(b, off);
    let version = get_u32(b, off + 4);
    let page_size = get_u32(b, off + 8);
    let flags = get_u32(b, off + 12);
    let root = parse_in_bucket(b, off + 16);
    let freelist = get_u64(b, off + 32);
    let pgid = get_u64(b, off + 40);
    let txid = get_u64(b, off + 48);
    let checksum = get_u64(b, off + 56);
    Meta { magic, version, page_size, flags, root, freelist, pgid, txid, checksum }
}

/// An encoded meta parses back to itself, whatever follows it.
pub proof fn lemma_meta_roundtrip(m: Meta, rest: Seq<u8>)
    ensures
        spec_parse_meta(meta_bytes(m) + rest, 0) == m,
{
    let s = meta_bytes(m) + rest;
    assert(s.subrange(0, 4) =~= le32(m.magic));
    assert(s.subrange(4, 8) =~= le32(m.version));
    assert(s.subrange(8, 12) =~= le32(m.page_size));
    assert(s.subrange(12, 16) =~= le32(m.flags));
    assert(s.subrange(16, 24) =~= le64(m.root.root));
    assert(s.subrange(24, 32) =~= le64(m.root.sequence));
    assert(s.subrange(32, 40) =~= le64(m.freelist));
    assert(s.subrange(40, 48) =~= le64(m.pgid));
    assert(s.subrange(48, 56) =~= le64(m.txid));
    assert(s.subrange(56, 64) =~= le64(m.checksum));
    crate::bytes::lemma_le32_roundtrip(m.magic);
    crate::bytes::lemma_le32_roundtrip(m.version);
    crate::bytes::lemma_le32_roundtrip(m.page_size);
    crate::bytes::lemma_le32_roundtrip(m.flags);
    crate::bytes::lemma_le64_roundtrip(m.root.root);
    crate::bytes::lemma_le64_roundtrip(m.root.sequence);
    crate::bytes::lemma_le64_roundtrip(m.freelist);
    crate::bytes::lemma_le64_roundtrip(m.pgid);
    crate::bytes::lemma_le64_roundtrip(m.txid);
    crate::bytes::lemma_le64_roundtrip(m.checksum);
}

/// A byte string carrying an encoded meta at `off` parses to that meta.
pub proof fn lemma_meta_region(s: Seq<u8>, off: int, m: Meta)
    requires
        0 <= off,
        off + 64 <= s.len(),
        s.subrange(off, off + 64) == meta_bytes(m),
    ensures
        spec_parse_meta(s, off) == m,
{
    lemma_meta_roundtrip(m, Seq::<u8>::empty());
    let mb = meta_bytes(m) + Seq::<u8>::empty();
    assert(mb =~= meta_bytes(m));
    assert(s.subrange(off, off + 4) =~= mb.subrange(0, 4));
    assert(s.subrange(off + 4, off + 8) =~= mb.subrange(4, 8));
    assert(s.subrange(off + 8, off + 12) =~= mb.subrange(8, 12));
    assert(s.subrange(off + 12, off + 16) =~= mb.subrange(12, 16));
    assert(s.subrange(off + 16, off + 24) =~= mb.subrange(16, 24));
    assert(s.subrange(off + 24, off + 32) =~= mb.subrange(24, 32));
    assert(s.subrange(off + 32, off + 40) =~= mb.subrange(32, 40));
    assert(s.subrange(off + 40, off + 48) =~= mb.subrange(40, 48));
    assert(s.subrange(off + 48, off + 56) =~= mb.subrange(48, 56));
    assert(s.subrange(off + 56, off + 64) =~= mb.subrange(56, 64));
}

impl CoerciblePage for Meta {
    open spec fn spec_page_flag() -> u16 {
        META_PAGE_FLAG
    }

    fn page_flag() -> (f: u16) {
        META_PAGE_FLAG
    }

    fn set_flag(page: &mut Page) {
        page.set_meta();
    }
}

impl Meta {
    /// Checks this meta: wrong magic is an invalid database, then a version
    /// mismatch, then a checksum mismatch; otherwise the meta is valid.
    pub fn validate(&self) -> (r: Result<(), Error>)
        ensures
            r is Ok <==> meta_valid(*self),
            self.magic != MAGIC ==> r == Result::<(), Error>::Err(Error::InvalidDatabase(true)),
            self.magic == MAGIC && self.version != VERSION ==> r == Result::<(), Error>::Err(
                Error::VersionMismatch,
            ),
            self.magic == MAGIC && self.version == VERSION && self.checksum != fnv1a64(
                meta_payload(*self),
            ) ==> r == Result::<(), Error>::Err(Error::ChecksumMismatch),
    {
        if self.magic != MAGIC {
            Err(Error::InvalidDatabase(true))
        } else if self.version != VERSION {
            Err(Error::VersionMismatch)
        } else if self.checksum != compute_checksum(self) {
            Err(Error::ChecksumMismatch)
        } else {
            Ok(())
        }
    }
}

/// The meta record stored in meta slot `slot` of the file image.
pub open spec fn spec_meta_at(image: Seq<u8>, page_size: int, slot: int) -> Meta {
    spec_parse_meta(image, slot * page_size + PAGE_HEADER_SIZE)
}

/// The authoritative meta of a file image: the valid meta with the greater
/// transaction id, or the error that says why there is none.
pub open spec fn spec_select_meta(image: Seq<u8>, page_size: int) -> Result<Meta, Error> {
    let m0 = spec_meta_at(image, page_size, 0);
    let m1 = spec_meta_at(image, page_size, 1);
    if meta_valid(m0) && meta_valid(m1) {
        if m0.txid >= m1.txid {
            Ok(m0)
        } else {
            Ok(m1)
        }
    } else if meta_valid(m0) {
        Ok(m0)
    } else if meta_valid(m1) {
        Ok(m1)
    } else {
        Err(Error::InvalidDatabase(true))
    }
}

/// Reads the meta in slot `slot` of the file image.
pub fn meta_at(image: &Vec<u8>, page_size: u32, slot: u32) -> (r: Meta)
    requires
        slot <= 1,
        page_size >= PAGE_HEADER_SIZE + META_SIZE,
        image@.len() >= 2 * page_size,
    ensures
        r == spec_meta_at(image@, page_size as int, slot as int),
{
    let ilen = image.len();
    let base = if slot == 0 {
        0
    } else {
        page_size as usize
    };
    let off = base + PAGE_HEADER_SIZE;
    parse_meta(image.as_slice(), off)
}

/// Picks the authoritative meta of a file image: of the metas that validate,
/// the one with the greater transaction id; an error when neither validates.
pub fn select_meta(image: &Vec<u8>, page_size: u32) -> (r: Result<Meta, Error>)
    requires
        page_size >= PAGE_HEADER_SIZE + META_SIZE,
        image@.len() >= 2 * page_size,
    ensures
        r == spec_select_meta(image@, page_size as int),
{
    let m0 = meta_at(image, page_size, 0);
    let m1 = meta_at(image, page_size, 1);
    let v0 = m0.validate();
    let v1 = m1.validate();
    if v0.is_ok() && v1.is_ok() {
        if m0.txid >= m1.txid {
            Ok(m0)
        } else {
            Ok(m1)
        }
    } else if v0.is_ok() {
        Ok(m0)
    } else if v1.is_ok() {
        Ok(m1)
    } else {
        Err(Error::InvalidDatabase(true))
    }
}

} // verus!
