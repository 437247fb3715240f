//! The fixed-size page header and its typed views.
//!
//! Every page of the file begins with a 16-byte header: a 64-bit page id,
//! 16-bit flags, a 16-bit element count and a 32-bit overflow count. The
//! flags mark the page as a branch, leaf, meta or freelist page; `overflow`
//! says how many contiguous pages follow as body continuation.

use vstd::prelude::*;

use crate::bytes::{le16, le32, le64, put_u16, put_u32, put_u64, get_u16, get_u32, get_u64};
use crate::bytes::{u16_le, u32_le, u64_le};

verus! {

/// Minimum number of elements a non-root tree page may hold.
pub const MIN_KEYS_PER_PAGE: usize = 2;

/// Size in bytes of the page header.
pub const PAGE_HEADER_SIZE: usize = 16;

/// Flag marking a branch page.
pub const BRANCH_PAGE_FLAG: u16 = 0x01;

/// Flag marking a leaf page.
pub const LEAF_PAGE_FLAG: u16 = 0x02;

/// Flag marking a meta page.
pub const META_PAGE_FLAG: u16 = 0x04;

/// Flag marking a freelist page.
pub const FREE_LIST_PAGE_FLAG: u16 = 0x10;

/// Leaf-element flag marking a value that is itself a bucket header.
pub const BUCKET_LEAF_FLAG: u32 = 0x01;

/// Size in bytes of one branch page element descriptor.
pub const BRANCH_PAGE_ELEMENT_SIZE: usize = 16;

/// Size in bytes of one leaf page element descriptor.
pub const LEAF_PAGE_ELEMENT_SIZE: usize = 16;

/// A parsed page header.
#[derive(Clone, Copy, Debug)]
pub struct Page {
    /// The page id; must match the id the page was fetched under.
    pub id: u64,
    /// Page kind flags; exactly one of the four known flags on a valid page.
    pub flags: u16,
    /// Number of elements held by the page body.
    pub count: u16,
    /// Number of contiguous continuation pages following this one.
    pub overflow: u32,
}

impl PartialEq for Page {
    /// Pages are compared by id alone.
    fn eq(&self, other: &Self) -> (r: bool) {
        self.id == other.id
    }
}

impl vstd::std_specs::cmp::PartialEqSpecImpl for Page {
    open spec fn obeys_eq_spec() -> bool {
        true
    }

    open spec fn eq_spec(&self, other: &Self) -> bool {
        self.id == other.id
    }
}

impl Eq for Page {}

impl Default for Page {
    /// An undefined page: all header fields zero.
    fn default() -> (r: Page)
        ensures
            r.id == 0 && r.flags == 0 && r.count == 0 && r.overflow == 0,
    {
        Page { id: 0, flags: 0, count: 0, overflow: 0 }
    }
}

impl Page {
    /// Marks the page as a branch page.
    pub fn set_branch(&mut self)
        ensures
            *final(self) == (Page { flags: BRANCH_PAGE_FLAG, ..*old(self) }),
    {
        self.flags = BRANCH_PAGE_FLAG;
    }

    /// Marks the page as a leaf page.
    pub fn set_leaf(&mut self)
        ensures
            *final(self) == (Page { flags: LEAF_PAGE_FLAG, ..*old(self) }),
    {
        self.flags = LEAF_PAGE_FLAG;
    }

    /// Marks the page as a meta page.
    pub fn set_meta(&mut self)
        ensures
            *final(self) == (Page { flags: META_PAGE_FLAG, ..*old(self) }),
    {
        self.flags = META_PAGE_FLAG;
    }

    /// Marks the page as a freelist page.
    pub fn set_free_list(&mut self)
        ensures
            *final(self) == (Page { flags: FREE_LIST_PAGE_FLAG, ..*old(self) }),
    {
        self.flags = FREE_LIST_PAGE_FLAG;
    }

    /// Clears the page kind.
    pub fn set_undefined(&mut self)
        ensures
            *final(self) == (Page { flags: 0, ..*old(self) }),
    {
        self.flags = 0;
    }

    /// The dynamic page check made whenever the pager hands a page to the
    /// tree: the id must match and the flags must name one of the four known
    /// kinds. Here both checks are static preconditions, so the body has
    /// nothing left to do.
    pub fn fast_check(&self, id: u64)
        requires
            self.id == id,
            self.flags == BRANCH_PAGE_FLAG || self.flags == LEAF_PAGE_FLAG || self.flags
                == META_PAGE_FLAG || self.flags == FREE_LIST_PAGE_FLAG,
    {
    }

    /// Whether the branch flag is set.
    pub fn is_branch(&self) -> (r: bool)
        ensures
            r == (self.flags & BRANCH_PAGE_FLAG != 0),
    {
        self.flags & BRANCH_PAGE_FLAG != 0
    }

    /// Whether the leaf flag is set.
    pub fn is_leaf(&self) -> (r: bool)
        ensures
            r == (self.flags & LEAF_PAGE_FLAG != 0),
    {
        self.flags & LEAF_PAGE_FLAG != 0
    }

    /// Whether the meta flag is set.
    pub fn is_meta(&self) -> (r: bool)
        ensures
            r == (self.flags & META_PAGE_FLAG != 0),
    {
        self.flags & META_PAGE_FLAG != 0
    }

    /// Whether the freelist flag is set.
    pub fn is_free_list(&self) -> (r: bool)
        ensures
            r == (self.flags & FREE_LIST_PAGE_FLAG != 0),
    {
        self.flags & FREE_LIST_PAGE_FLAG != 0
    }

    /// Whether no page kind is set.
    pub fn is_undefined(&self) -> (r: bool)
        ensures
            r == (self.flags == 0),
    {
        self.flags == 0
    }

    /// A human-readable page kind used for debugging.
    pub fn page_type(&self) -> (r: &'static str)
        ensures
            r@ == spec_page_type(self.flags),
    {
        if self.is_branch() {
            "branch"
        } else if self.is_leaf() {
            "leaf"
        } else if self.is_meta() {
            "meta"
        } else if self.is_free_list() {
            "freelist"
        } else {
            "unknown"
        }
    }
}

/// The page kind name chosen by `Page::page_type` for given flags.
pub open spec fn spec_page_type(flags: u16) -> Seq<char> {
    if flags & BRANCH_PAGE_FLAG != 0 {
        "branch"@
    } else if flags & LEAF_PAGE_FLAG != 0 {
        "leaf"@
    } else if flags & META_PAGE_FLAG != 0 {
        "meta"@
    } else if flags & FREE_LIST_PAGE_FLAG != 0 {
        "freelist"@
    } else {
        "unknown"@
    }
}

/// The 16 header bytes of a page.
pub open spec fn page_header_bytes(p: Page) -> Seq<u8> {
    le64(p.id) + le16(p.flags) + le16(p.count) + le32(p.overflow)
}

/// Writes the 16 header bytes of `p` onto `buf`.
pub fn put_page_header(buf: &mut Vec<u8>, p: Page)
    ensures
        final(buf)@ == old(buf)@ + page_header_bytes(p),
        final(buf)@.len() == old(buf)@.len() + PAGE_HEADER_SIZE,
{
    put_u64(buf, p.id);
    put_u16(buf, p.flags);
    put_u16(buf, p.count);
    put_u32(buf, p.overflow);
    proof {
        assert(final(buf)@ =~= old(buf)@ + page_header_bytes(p));
    }
}

/// Reads the page header at the start of `b`.
pub fn parse_page_header(b: &[u8]) -> (r: Page)
    requires
        b@.len() >= PAGE_HEADER_SIZE,
    ensures
        r.id == u64_le(b@.subrange(0, 8)),
        r.flags == u16_le(b@.subrange(8, 10)),
        r.count == u16_le(b@.subrange(10, 12)),
        r.overflow == u32_le(b@.subrange(12, 16)),
{
    let id = get_u64(b, 0);
    let flags = get_u16(b, 8);
    let count = get_u16(b, 10);
    let overflow = get_u32(b, 12);
    Page { id, flags, count, overflow }
}

/// The header written for `p` parses back to `p`, whatever body follows.
pub proof fn lemma_page_header_roundtrip(p: Page, body: Seq<u8>)
    ensures
        ({
            let b = page_header_bytes(p) + body;
            &&& u64_le(b.subrange(0, 8)) == p.id
            &&& u16_le(b.subrange(8, 10)) == p.flags
            &&& u16_le(b.subrange(10, 12)) == p.count
            &&& u32_le(b.subrange(12, 16)) == p.overflow
        }),
{
    let b = page_header_bytes(p) + body;
    assert(b.subrange(0, 8) =~= le64(p.id));
    assert(b.subrange(8, 10) =~= le16(p.flags));
    assert(b.subrange(10, 12) =~= le16(p.count));
    assert(b.subrange(12, 16) =~= le32(p.overflow));
    crate::bytes::lemma_le64_roundtrip(p.id);
    crate::bytes::lemma_le16_roundtrip(p.flags);
    crate::bytes::lemma_le16_roundtrip(p.count);
    crate::bytes::lemma_le32_roundtrip(p.overflow);
}

/// A read-only view of one page of the file: the header and the raw bytes
/// of the whole page run.
pub struct RefPage<'a> {
    /// The page's bytes, header included.
    pub bytes: &'a [u8],
}

impl<'a> RefPage<'a> {
    /// Wraps the bytes of a page.
    pub fn new(bytes: &'a [u8]) -> (r: RefPage<'a>)
        requires
            bytes@.len() >= PAGE_HEADER_SIZE,
        ensures
            r.bytes@ == bytes@,
    {
        RefPage { bytes }
    }

    /// Parses the page header.
    pub fn header(&self) -> (r: Page)
        requires
            self.bytes@.len() >= PAGE_HEADER_SIZE,
        ensures
            r.id == u64_le(self.bytes@.subrange(0, 8)),
            r.flags == u16_le(self.bytes@.subrange(8, 10)),
            r.count == u16_le(self.bytes@.subrange(10, 12)),
            r.overflow == u32_le(self.bytes@.subrange(12, 16)),
    {
        parse_page_header(self.bytes)
    }
}

/// A page buffer being built by a writer transaction; always a whole number
/// of pages long, beginning with a page header.
pub struct MutPage {
    /// The buffer's bytes.
    pub bytes: Vec<u8>,
}

impl MutPage {
    /// A zeroed buffer of `size` bytes.
    pub fn new(size: usize) -> (r: MutPage)
        ensures
            r.bytes@.len() == size,
            forall|j: int| 0 <= j < size ==> r.bytes@[j] == 0u8,
    {
        let mut bytes: Vec<u8> = Vec::new();
        crate::bytes::put_zeros(&mut bytes, size);
        MutPage { bytes }
    }
}

/// A page type that a raw page can be checked against by its flag.
pub trait CoerciblePage {
    /// The flag value marking this page kind.
    spec fn spec_page_flag() -> u16;

    /// The flag value marking this page kind.
    fn page_flag() -> (f: u16)
        ensures
            f == Self::spec_page_flag(),
    ;

    /// Stamps a page header with this kind's flag.
    fn set_flag(page: &mut Page)
        ensures
            *final(page) == (Page { flags: Self::spec_page_flag(), ..*old(page) }),
    ;
}

/// Human-readable information about one page, as reported to callers.
#[derive(Debug, PartialEq, Eq)]
pub struct PageInfo {
    /// The page id.
    pub id: u64,
    /// The page kind, or "free" for a page on the freelist.
    pub t: &'static str,
    /// The header's element count.
    pub count: u64,
    /// The header's overflow count.
    pub overflow_count: u64,
}

} // verus!
