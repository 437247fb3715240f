//! Tree page codec: serialising nodes to pages and reading them back.
//!
//! A leaf page holds a sorted array of element descriptors
//! `(flags, pos, ksize, vsize)` followed by the key and value bytes; a
//! branch page holds `(pos, ksize, pgid)` descriptors followed by the key
//! bytes. Each `pos` is the distance from the descriptor's own position to
//! its key. A page whose body outgrows one page continues into `overflow`
//! contiguous pages; the buffer is padded with zeros to a whole number of
//! pages.

use vstd::prelude::*;

use crate::bytes::{le32, le64, u16_le, u32_le, u64_le, put_u32, put_u64, get_u32, get_u64,
    put_bytes, get_bytes, put_zeros};
use crate::errors::Error;
use crate::node::{INode, EntryV, entries_view, entries_size, entry_size, wf_entries,
    lemma_entries_size_take, lemma_entries_size_nonneg, lemma_entries_size_prefix};
use crate::page::{Page, page_header_bytes, put_page_header, parse_page_header,
    lemma_page_header_roundtrip, PAGE_HEADER_SIZE, LEAF_PAGE_FLAG, BRANCH_PAGE_FLAG,
    LEAF_PAGE_ELEMENT_SIZE, BRANCH_PAGE_ELEMENT_SIZE};

verus! {

/// Offset of element `i`'s key inside the data area: the key and value
/// bytes of all elements before it.
pub open spec fn data_off(es: Seq<EntryV>, i: int) -> int {
    entries_size(es.take(i), 0)
}

/// The data area of a tree page: each element's key then value, in order.
/// Branch elements carry empty values, so for them this is the keys alone.
pub open spec fn tree_data(es: Seq<EntryV>) -> Seq<u8>
    decreases es.len(),
{
    if es.len() == 0 {
        Seq::<u8>::empty()
    } else {
        es[0].key + es[0].value + tree_data(es.skip(1))
    }
}

/// The `pos` field of element `i`: distance from its descriptor to its key.
pub open spec fn elem_pos(es: Seq<EntryV>, n: int, i: int) -> int {
    16 * (n - i) + data_off(es, i)
}

/// The 16 descriptor bytes of leaf element `i`.
pub open spec fn leaf_elem_bytes(es: Seq<EntryV>, n: int, i: int) -> Seq<u8> {
    le32(es[i].flags) + le32(elem_pos(es, n, i) as u32) + le32(es[i].key.len() as u32) + le32(
        es[i].value.len() as u32,
    )
}

/// The 16 descriptor bytes of branch element `i`.
pub open spec fn branch_elem_bytes(es: Seq<EntryV>, n: int, i: int) -> Seq<u8> {
    le32(elem_pos(es, n, i) as u32) + le32(es[i].key.len() as u32) + le64(es[i].pgid)
}

/// The descriptor array from element `i` on.
pub open spec fn tree_elems_from(es: Seq<EntryV>, n: int, i: int, leaf: bool) -> Seq<u8>
    decreases n - i,
{
    if i < 0 || i >= n {
        Seq::<u8>::empty()
    } else if leaf {
        leaf_elem_bytes(es, n, i) + tree_elems_from(es, n, i + 1, leaf)
    } else {
        branch_elem_bytes(es, n, i) + tree_elems_from(es, n, i + 1, leaf)
    }
}

/// The whole encoded tree page before padding: header, descriptors, data.
pub open spec fn tree_page_bytes(id: u64, overflow: u32, es: Seq<EntryV>, leaf: bool) -> Seq<u8> {
    page_header_bytes(
        Page {
            id,
            flags: if leaf {
                LEAF_PAGE_FLAG
            } else {
                BRANCH_PAGE_FLAG
            },
            count: es.len() as u16,
            overflow,
        },
    ) + tree_elems_from(es, es.len() as int, 0, leaf) + tree_data(es)
}

/// Size in bytes of the encoded page before padding.
pub open spec fn tree_page_size(es: Seq<EntryV>) -> int {
    PAGE_HEADER_SIZE + entries_size(es, 16)
}

/// The data area splits at each element boundary.
pub proof fn lemma_tree_data_len(es: Seq<EntryV>)
    ensures
        tree_data(es).len() == entries_size(es, 0),
    decreases es.len(),
{
    if es.len() > 0 {
        lemma_tree_data_len(es.skip(1));
    }
}

/// The descriptor array from `i` has one 16-byte descriptor per element.
pub proof fn lemma_tree_elems_len(es: Seq<EntryV>, n: int, i: int, leaf: bool)
    requires
        0 <= i <= n,
    ensures
        tree_elems_from(es, n, i, leaf).len() == 16 * (n - i),
    decreases n - i,
{
    if i < n {
        lemma_tree_elems_len(es, n, i + 1, leaf);
    }
}

/// Writes the encoded tree page of `inodes`, padded with zeros to
/// `buf_len` bytes.
pub fn write_tree_page(
    id: u64,
    overflow: u32,
    inodes: &Vec<INode>,
    leaf: bool,
    buf_len: usize,
) -> (r: Vec<u8>)
    requires
        wf_entries(entries_view(inodes@)),
        inodes@.len() <= 0xffff,
        tree_page_size(entries_view(inodes@)) < 0x100000000,
        tree_page_size(entries_view(inodes@)) <= buf_len,
    ensures
        r@.len() == buf_len,
        r@.subrange(0, tree_page_size(entries_view(inodes@))) == tree_page_bytes(
            id,
            overflow,
            entries_view(inodes@),
            leaf,
        ),
        forall|j: int| tree_page_size(entries_view(inodes@)) <= j < buf_len ==> r@[j] == 0u8,
{
    let ghost es = entries_view(inodes@);
    let n = inodes.len();
    let mut buf: Vec<u8> = Vec::new();
    let header = Page {
        id,
        flags: if leaf {
            LEAF_PAGE_FLAG
        } else {
            BRANCH_PAGE_FLAG
        },
        count: n as u16,
        overflow,
    };
    put_page_header(&mut buf, header);
    // descriptors
    let mut doff: u64 = 0;
    let mut i: usize = 0;
    proof {
        assert(es.take(0) =~= Seq::<EntryV>::empty());
        lemma_tree_elems_len(es, n as int, 0, leaf);
    }
    while i < n
        invariant
            i <= n,
            n == inodes@.len(),
            es == entries_view(inodes@),
            wf_entries(es),
            n <= 0xffff,
            tree_page_size(es) < 0x100000000,
            doff == data_off(es, i as int),
            buf@ == page_header_bytes(header) + tree_elems_from(es, n as int, 0, leaf).take(
                16 * i,
            ),
            header == (Page {
                id,
                flags: if leaf {
                    LEAF_PAGE_FLAG
                } else {
                    BRANCH_PAGE_FLAG
                },
                count: n as u16,
                overflow,
            }),
        decreases n - i,
    {
        proof {
            lemma_entries_size_nonneg(es.take(i as int), 0);
            lemma_entries_size_prefix(es, i as int, 0);
            lemma_size_zero_vs_sixteen(es, n as int);
            assert(es.take(n as int) =~= es);
            assert(entries_size(es, 16) == entries_size(es, 0) + 16 * (n as int));
            assert(inodes@[i as int]@ == es[i as int]);
            lemma_entries_size_take(es, i as int, 0);
            assert(doff <= entries_size(es, 0));
            assert(doff + 16 * (n - i) < 0x100000000);
        }
        let kl = inodes[i].key.len();
        let vl = inodes[i].value.len();
        let pos: u64 = 16 * ((n - i) as u64) + doff;
        proof {
            assert(pos == elem_pos(es, n as int, i as int));
            assert(pos < 0x100000000);
        }
        let ghost buf_pre = buf@;
        if leaf {
            put_u32(&mut buf, inodes[i].flags);
            put_u32(&mut buf, pos as u32);
            put_u32(&mut buf, kl as u32);
            put_u32(&mut buf, vl as u32);
            proof {
                assert(buf@ =~= buf_pre + leaf_elem_bytes(es, n as int, i as int));
            }
        } else {
            put_u32(&mut buf, pos as u32);
            put_u32(&mut buf, kl as u32);
            put_u64(&mut buf, inodes[i].pgid);
            proof {
                assert(buf@ =~= buf_pre + branch_elem_bytes(es, n as int, i as int));
            }
        }
        proof {
            lemma_tree_elems_take_step(es, n as int, i as int, leaf);
            assert(buf@ =~= page_header_bytes(header) + tree_elems_from(es, n as int, 0, leaf).take(
                16 * (i + 1),
            ));
        }
        doff = doff + kl as u64 + vl as u64;
        i = i + 1;
    }
    proof {
        assert(tree_elems_from(es, n as int, 0, leaf).take(16 * (n as int)) =~= tree_elems_from(
            es,
            n as int,
            0,
            leaf,
        ));
    }
    // data area
    let mut i: usize = 0;
    proof {
        assert(es.take(0) =~= Seq::<EntryV>::empty());
        assert(tree_data(es.take(0)) =~= Seq::<u8>::empty());
        assert(buf@ =~= page_header_bytes(header) + tree_elems_from(es, n as int, 0, leaf)
            + tree_data(es.take(0)));
    }
    while i < n
        invariant
            i <= n,
            n == inodes@.len(),
            es == entries_view(inodes@),
            wf_entries(es),
            buf@ == page_header_bytes(header) + tree_elems_from(es, n as int, 0, leaf) + tree_data(
                es.take(i as int),
            ),
            header == (Page {
                id,
                flags: if leaf {
                    LEAF_PAGE_FLAG
                } else {
                    BRANCH_PAGE_FLAG
                },
                count: n as u16,
                overflow,
            }),
        decreases n - i,
    {
        proof {
            assert(inodes@[i as int]@ == es[i as int]);
        }
        let ghost buf_pre = buf@;
        put_bytes(&mut buf, inodes[i].key.as_slice());
        put_bytes(&mut buf, inodes[i].value.as_slice());
        proof {
            lemma_tree_data_take_step(es, i as int);
            assert(buf@ =~= page_header_bytes(header) + tree_elems_from(es, n as int, 0, leaf)
                + tree_data(es.take(i + 1)));
        }
        i = i + 1;
    }
    proof {
        assert(es.take(n as int) =~= es);
        assert(buf@ =~= tree_page_bytes(id, overflow, es, leaf));
        lemma_tree_elems_len(es, n as int, 0, leaf);
        lemma_tree_data_len(es);
        lemma_size_zero_vs_sixteen(es, n as int);
        assert(buf@.len() == tree_page_size(es));
    }
    let written = buf.len();
    put_zeros(&mut buf, buf_len - written);
    proof {
        assert(buf@.subrange(0, written as int) =~= tree_page_bytes(id, overflow, es, leaf));
    }
    buf
}

/// Sizes with and without descriptors differ by 16 bytes per element.
pub proof fn lemma_size_zero_vs_sixteen(es: Seq<EntryV>, i: int)
    requires
        0 <= i <= es.len(),
    ensures
        entries_size(es.take(i), 16) == entries_size(es.take(i), 0) + 16 * i,
    decreases i,
{
    if i > 0 {
        lemma_size_zero_vs_sixteen(es, i - 1);
        lemma_entries_size_take(es, i - 1, 0);
        lemma_entries_size_take(es, i - 1, 16);
    }
}

/// One more descriptor extends the descriptor array by 16 bytes.
pub proof fn lemma_tree_elems_take_step(es: Seq<EntryV>, n: int, i: int, leaf: bool)
    requires
        0 <= i < n,
    ensures
        tree_elems_from(es, n, 0, leaf).take(16 * (i + 1)) == tree_elems_from(
            es,
            n,
            0,
            leaf,
        ).take(16 * i) + (if leaf {
            leaf_elem_bytes(es, n, i)
        } else {
            branch_elem_bytes(es, n, i)
        }),
    decreases n,
{
    lemma_tree_elems_index(es, n, i, leaf);
    let all = tree_elems_from(es, n, 0, leaf);
    lemma_tree_elems_len(es, n, 0, leaf);
    assert(all.take(16 * (i + 1)) =~= all.take(16 * i) + all.subrange(16 * i, 16 * (i + 1)));
}

/// The descriptor array holds element `i`'s descriptor at offset `16 * i`.
pub proof fn lemma_tree_elems_index(es: Seq<EntryV>, n: int, i: int, leaf: bool)
    requires
        0 <= i < n,
    ensures
        tree_elems_from(es, n, 0, leaf).subrange(16 * i, 16 * (i + 1)) == (if leaf {
            leaf_elem_bytes(es, n, i)
        } else {
            branch_elem_bytes(es, n, i)
        }),
{
    lemma_tree_elems_index_from(es, n, 0, i, leaf);
}

/// Generalisation over the array's starting element.
pub proof fn lemma_tree_elems_index_from(es: Seq<EntryV>, n: int, lo: int, i: int, leaf: bool)
    requires
        0 <= lo <= i < n,
    ensures
        tree_elems_from(es, n, lo, leaf).subrange(16 * (i - lo), 16 * (i - lo) + 16) == (if leaf {
            leaf_elem_bytes(es, n, i)
        } else {
            branch_elem_bytes(es, n, i)
        }),
    decreases i - lo,
{
    let cur = tree_elems_from(es, n, lo, leaf);
    let head = if leaf {
        leaf_elem_bytes(es, n, lo)
    } else {
        branch_elem_bytes(es, n, lo)
    };
    lemma_tree_elems_len(es, n, lo + 1, leaf);
    if i == lo {
        assert(cur.subrange(0, 16) =~= head);
    } else {
        lemma_tree_elems_index_from(es, n, lo + 1, i, leaf);
        assert(cur.subrange(16 * (i - lo), 16 * (i - lo) + 16) =~= tree_elems_from(
            es,
            n,
            lo + 1,
            leaf,
        ).subrange(16 * (i - lo - 1), 16 * (i - lo - 1) + 16));
    }
}

/// The fields of element `i` as read back from an encoded page.
pub open spec fn spec_parse_elem(b: Seq<u8>, i: int, leaf: bool) -> EntryV {
    let eoff = PAGE_HEADER_SIZE + 16 * i;
    if leaf {
        let pos = u32_le(b.subrange(eoff + 4, eoff + 8)) as int;
        let ksize = u32_le(b.subrange(eoff + 8, eoff + 12)) as int;
        let vsize = u32_le(b.subrange(eoff + 12, eoff + 16)) as int;
        EntryV {
            flags: u32_le(b.subrange(eoff, eoff + 4)),
            pgid: 0,
            key: b.subrange(eoff + pos, eoff + pos + ksize),
            value: b.subrange(eoff + pos + ksize, eoff + pos + ksize + vsize),
        }
    } else {
        let pos = u32_le(b.subrange(eoff, eoff + 4)) as int;
        let ksize = u32_le(b.subrange(eoff + 4, eoff + 8)) as int;
        EntryV {
            flags: 0,
            pgid: u64_le(b.subrange(eoff + 8, eoff + 16)),
            key: b.subrange(eoff + pos, eoff + pos + ksize),
            value: Seq::<u8>::empty(),
        }
    }
}

/// Whether element `i`'s descriptor and bytes lie within the page.
pub open spec fn spec_elem_ok(b: Seq<u8>, i: int, leaf: bool) -> bool {
    let eoff = PAGE_HEADER_SIZE + 16 * i;
    eoff + 16 <= b.len() && {
        if leaf {
            let pos = u32_le(b.subrange(eoff + 4, eoff + 8)) as int;
            let ksize = u32_le(b.subrange(eoff + 8, eoff + 12)) as int;
            let vsize = u32_le(b.subrange(eoff + 12, eoff + 16)) as int;
            eoff + pos + ksize + vsize <= b.len()
        } else {
            let pos = u32_le(b.subrange(eoff, eoff + 4)) as int;
            let ksize = u32_le(b.subrange(eoff + 4, eoff + 8)) as int;
            eoff + pos + ksize <= b.len()
        }
    }
}

/// The elements read back from an encoded tree page: all of them when the
/// page kind matches and every element lies within the page.
pub open spec fn spec_parse_tree_page(b: Seq<u8>, leaf: bool) -> Option<Seq<EntryV>> {
    if b.len() < PAGE_HEADER_SIZE {
        None
    } else {
        let flags = u16_le(b.subrange(8, 10));
        let n = u16_le(b.subrange(10, 12)) as int;
        let expected = if leaf {
            LEAF_PAGE_FLAG
        } else {
            BRANCH_PAGE_FLAG
        };
        if flags != expected {
            None
        } else if !(forall|i: int| 0 <= i < n ==> spec_elem_ok(b, i, leaf)) {
            None
        } else {
            Some(Seq::new(n as nat, |i: int| spec_parse_elem(b, i, leaf)))
        }
    }
}

/// Reads the elements of a tree page back out of its bytes.
pub fn parse_tree_page(b: &[u8], leaf: bool) -> (r: Result<Vec<INode>, Error>)
    ensures
        match r {
            Ok(inodes) => spec_parse_tree_page(b@, leaf) == Some(entries_view(inodes@)),
            Err(e) => spec_parse_tree_page(b@, leaf) is None && e == Error::InvalidDatabase(true),
        },
{
    let blen = b.len();
    if blen < PAGE_HEADER_SIZE {
        return Err(Error::InvalidDatabase(true));
    }
    let header = parse_page_header(b);
    let expected = if leaf {
        LEAF_PAGE_FLAG
    } else {
        BRANCH_PAGE_FLAG
    };
    if header.flags != expected {
        return Err(Error::InvalidDatabase(true));
    }
    let n = header.count as usize;
    let mut out: Vec<INode> = Vec::new();
    let mut i: usize = 0;
    while i < n
        invariant
            i <= n,
            n <= 0xffff,
            n == u16_le(b@.subrange(10, 12)) as int,
            blen == b@.len(),
            blen >= PAGE_HEADER_SIZE,
            u16_le(b@.subrange(8, 10)) == if leaf {
                LEAF_PAGE_FLAG
            } else {
                BRANCH_PAGE_FLAG
            },
            forall|j: int| 0 <= j < i ==> spec_elem_ok(b@, j, leaf),
            entries_view(out@) == Seq::new(i as nat, |j: int| spec_parse_elem(b@, j, leaf)),
        decreases n - i,
    {
        if PAGE_HEADER_SIZE + 16 * i + 16 > blen {
            proof {
                assert(!spec_elem_ok(b@, i as int, leaf));
            }
            return Err(Error::InvalidDatabase(true));
        }
        let eoff = PAGE_HEADER_SIZE + 16 * i;
        let rem = blen - eoff;
        let e = if leaf {
            let flags = get_u32(b, eoff);
            let pos = get_u32(b, eoff + 4) as usize;
            let ksize = get_u32(b, eoff + 8) as usize;
            let vsize = get_u32(b, eoff + 12) as usize;
            if pos > rem {
                proof {
                    assert(!spec_elem_ok(b@, i as int, leaf));
                }
                return Err(Error::InvalidDatabase(true));
            }
            if ksize > rem - pos {
                proof {
                    assert(!spec_elem_ok(b@, i as int, leaf));
                }
                return Err(Error::InvalidDatabase(true));
            }
            if vsize > rem - pos - ksize {
                proof {
                    assert(!spec_elem_ok(b@, i as int, leaf));
                }
                return Err(Error::InvalidDatabase(true));
            }
            let key = get_bytes(b, eoff + pos, ksize);
            let value = get_bytes(b, eoff + pos + ksize, vsize);
            INode { flags, pgid: 0, key, value }
        } else {
            let pos = get_u32(b, eoff) as usize;
            let ksize = get_u32(b, eoff + 4) as usize;
            let pgid = get_u64(b, eoff + 8);
            if pos > rem {
                proof {
                    assert(!spec_elem_ok(b@, i as int, leaf));
                }
                return Err(Error::InvalidDatabase(true));
            }
            if ksize > rem - pos {
                proof {
                    assert(!spec_elem_ok(b@, i as int, leaf));
                }
                return Err(Error::InvalidDatabase(true));
            }
            let key = get_bytes(b, eoff + pos, ksize);
            INode { flags: 0, pgid, key, value: Vec::new() }
        };
        proof {
            assert(spec_elem_ok(b@, i as int, leaf));
            assert(e@ == spec_parse_elem(b@, i as int, leaf));
        }
        let ghost out_before = out@;
        out.push(e);
        proof {
            assert(out@ == out_before.push(e));
            assert(entries_view(out@) =~= entries_view(out_before).push(e@));
            assert(entries_view(out@) =~= Seq::new(
                (i + 1) as nat,
                |j: int| spec_parse_elem(b@, j, leaf),
            ));
        }
        i = i + 1;
    }
    proof {
        assert(spec_parse_tree_page(b@, leaf) == Some(
            Seq::new(n as nat, |j: int| spec_parse_elem(b@, j, leaf)),
        ));
    }
    Ok(out)
}

/// The data area holds element `i`'s key at its data offset, and its value
/// right after.
pub proof fn lemma_tree_data_index(es: Seq<EntryV>, i: int)
    requires
        0 <= i < es.len(),
    ensures
        tree_data(es).subrange(data_off(es, i), data_off(es, i) + es[i].key.len()) == es[i].key,
        tree_data(es).subrange(
            data_off(es, i) + es[i].key.len(),
            data_off(es, i) + es[i].key.len() + es[i].value.len(),
        ) == es[i].value,
    decreases i,
{
    lemma_tree_data_len(es);
    lemma_entries_size_nonneg(es.take(i), 0);
    lemma_entries_size_prefix(es, i, 0);
    lemma_entries_size_take(es, i, 0);
    lemma_entries_size_prefix(es, i + 1, 0);
    if i == 0 {
        assert(es.take(0) =~= Seq::<EntryV>::empty());
        assert(data_off(es, 0) == 0);
        assert(tree_data(es).subrange(0, es[0].key.len() as int) =~= es[0].key);
        assert(tree_data(es).subrange(
            es[0].key.len() as int,
            es[0].key.len() + es[0].value.len() as int,
        ) =~= es[0].value);
    } else {
        lemma_tree_data_index(es.skip(1), i - 1);
        assert(es.skip(1)[i - 1] == es[i]);
        let head = es[0].key.len() + es[0].value.len();
        assert(data_off(es, i) == head + data_off(es.skip(1), i - 1)) by {
            assert(es.take(i).skip(1) =~= es.skip(1).take(i - 1));
            assert(es.take(i)[0] == es[0]);
        }
        lemma_tree_data_len(es.skip(1));
        lemma_entries_size_nonneg(es.skip(1).take(i - 1), 0);
        lemma_entries_size_prefix(es.skip(1), i - 1, 0);
        assert(tree_data(es).subrange(data_off(es, i), data_off(es, i) + es[i].key.len())
            =~= tree_data(es.skip(1)).subrange(
            data_off(es.skip(1), i - 1),
            data_off(es.skip(1), i - 1) + es[i].key.len(),
        ));
        assert(tree_data(es).subrange(
            data_off(es, i) + es[i].key.len(),
            data_off(es, i) + es[i].key.len() + es[i].value.len(),
        ) =~= tree_data(es.skip(1)).subrange(
            data_off(es.skip(1), i - 1) + es[i].key.len(),
            data_off(es.skip(1), i - 1) + es[i].key.len() + es[i].value.len(),
        ));
    }
}

/// An encoded tree page parses back to its elements, whatever padding
/// follows. Branch elements must carry no value and no flags, and leaf
/// elements no child page id, as the two descriptor forms store only their
/// own fields.
pub proof fn lemma_tree_page_roundtrip(
    id: u64,
    overflow: u32,
    es: Seq<EntryV>,
    leaf: bool,
    pad: Seq<u8>,
)
    requires
        wf_entries(es),
        es.len() <= 0xffff,
        tree_page_size(es) < 0x100000000,
        leaf ==> forall|i: int| 0 <= i < es.len() ==> es[i].pgid == 0,
        !leaf ==> forall|i: int|
            0 <= i < es.len() ==> es[i].value.len() == 0 && es[i].flags == 0,
    ensures
        spec_parse_tree_page(tree_page_bytes(id, overflow, es, leaf) + pad, leaf) == Some(es),
{
    let n = es.len() as int;
    let header = Page {
        id,
        flags: if leaf {
            LEAF_PAGE_FLAG
        } else {
            BRANCH_PAGE_FLAG
        },
        count: es.len() as u16,
        overflow,
    };
    let elems = tree_elems_from(es, n, 0, leaf);
    let data = tree_data(es);
    let b = tree_page_bytes(id, overflow, es, leaf) + pad;
    lemma_tree_elems_len(es, n, 0, leaf);
    lemma_tree_data_len(es);
    lemma_size_zero_vs_sixteen(es, n);
    assert(es.take(n) =~= es);
    assert(b =~= page_header_bytes(header) + (elems + data + pad));
    lemma_page_header_roundtrip(header, elems + data + pad);
    assert(b.subrange(8, 10) =~= (page_header_bytes(header) + (elems + data + pad)).subrange(
        8,
        10,
    ));
    assert(b.subrange(10, 12) =~= (page_header_bytes(header) + (elems + data + pad)).subrange(
        10,
        12,
    ));
    assert(u16_le(b.subrange(8, 10)) == header.flags);
    assert(u16_le(b.subrange(10, 12)) == header.count);
    assert(header.count == n);
    assert forall|i: int|
        0 <= i < u16_le(b.subrange(10, 12)) as int implies #[trigger] spec_elem_ok(b, i, leaf) by {
        lemma_tree_page_elem(id, overflow, es, leaf, pad, i);
    }
    assert(spec_parse_tree_page(b, leaf) == Some(Seq::new(n as nat, |i: int| spec_parse_elem(
        b,
        i,
        leaf,
    ))));
    assert forall|i: int| 0 <= i < n implies #[trigger] spec_parse_elem(b, i, leaf) == es[i] by {
        lemma_tree_page_elem(id, overflow, es, leaf, pad, i);
    }
    assert(Seq::new(n as nat, |i: int| spec_parse_elem(b, i, leaf)) =~= es);
}

/// One element of an encoded tree page parses back to itself.
#[verifier::rlimit(60)]
proof fn lemma_tree_page_elem(
    id: u64,
    overflow: u32,
    es: Seq<EntryV>,
    leaf: bool,
    pad: Seq<u8>,
    i: int,
)
    requires
        wf_entries(es),
        es.len() <= 0xffff,
        tree_page_size(es) < 0x100000000,
        0 <= i < es.len(),
        leaf ==> es[i].pgid == 0,
        !leaf ==> es[i].value.len() == 0 && es[i].flags == 0,
    ensures
        spec_elem_ok(tree_page_bytes(id, overflow, es, leaf) + pad, i, leaf),
        spec_parse_elem(tree_page_bytes(id, overflow, es, leaf) + pad, i, leaf) == es[i],
{
    let n = es.len() as int;
    let header = Page {
        id,
        flags: if leaf {
            LEAF_PAGE_FLAG
        } else {
            BRANCH_PAGE_FLAG
        },
        count: es.len() as u16,
        overflow,
    };
    let elems = tree_elems_from(es, n, 0, leaf);
    let data = tree_data(es);
    let b = tree_page_bytes(id, overflow, es, leaf) + pad;
    lemma_tree_elems_len(es, n, 0, leaf);
    lemma_tree_data_len(es);
    lemma_size_zero_vs_sixteen(es, n);
    assert(es.take(n) =~= es);
    let data_start = PAGE_HEADER_SIZE + 16 * n;
    let eoff = PAGE_HEADER_SIZE + 16 * i;
    lemma_tree_elems_index(es, n, i, leaf);
    assert(b.subrange(eoff, eoff + 16) =~= elems.subrange(16 * i, 16 * (i + 1)));
    lemma_entries_size_nonneg(es.take(i), 0);
    lemma_entries_size_prefix(es, i, 0);
    lemma_entries_size_take(es, i, 0);
    lemma_entries_size_prefix(es, i + 1, 0);
    let pos = elem_pos(es, n, i);
    let ksize = es[i].key.len() as int;
    let vsize = es[i].value.len() as int;
    if leaf {
        let eb = leaf_elem_bytes(es, n, i);
        assert(eb.subrange(0, 4) =~= le32(es[i].flags));
        assert(eb.subrange(4, 8) =~= le32(pos as u32));
        assert(eb.subrange(8, 12) =~= le32(ksize as u32));
        assert(eb.subrange(12, 16) =~= le32(vsize as u32));
        assert(b.subrange(eoff, eoff + 4) =~= eb.subrange(0, 4));
        assert(b.subrange(eoff + 4, eoff + 8) =~= eb.subrange(4, 8));
        assert(b.subrange(eoff + 8, eoff + 12) =~= eb.subrange(8, 12));
        assert(b.subrange(eoff + 12, eoff + 16) =~= eb.subrange(12, 16));
        crate::bytes::lemma_le32_roundtrip(es[i].flags);
        crate::bytes::lemma_le32_roundtrip(pos as u32);
        crate::bytes::lemma_le32_roundtrip(ksize as u32);
        crate::bytes::lemma_le32_roundtrip(vsize as u32);
    } else {
        let eb = branch_elem_bytes(es, n, i);
        assert(eb.subrange(0, 4) =~= le32(pos as u32));
        assert(eb.subrange(4, 8) =~= le32(ksize as u32));
        assert(eb.subrange(8, 16) =~= le64(es[i].pgid));
        assert(b.subrange(eoff, eoff + 4) =~= eb.subrange(0, 4));
        assert(b.subrange(eoff + 4, eoff + 8) =~= eb.subrange(4, 8));
        assert(b.subrange(eoff + 8, eoff + 16) =~= eb.subrange(8, 16));
        crate::bytes::lemma_le32_roundtrip(pos as u32);
        crate::bytes::lemma_le32_roundtrip(ksize as u32);
        crate::bytes::lemma_le64_roundtrip(es[i].pgid);
    }
    // the key and value bytes sit in the data area at the element's pos
    assert(eoff + pos == data_start + data_off(es, i));
    lemma_tree_data_index(es, i);
    assert(b.subrange(eoff + pos, eoff + pos + ksize) =~= data.subrange(
        data_off(es, i),
        data_off(es, i) + ksize,
    ));
    assert(b.subrange(eoff + pos + ksize, eoff + pos + ksize + vsize) =~= data.subrange(
        data_off(es, i) + ksize,
        data_off(es, i) + ksize + vsize,
    ));
    if !leaf {
        assert(es[i].value =~= Seq::<u8>::empty());
    }
}

/// One more element extends the data area by its key and value bytes.
pub proof fn lemma_tree_data_take_step(es: Seq<EntryV>, i: int)
    requires
        0 <= i < es.len(),
    ensures
        tree_data(es.take(i + 1)) == tree_data(es.take(i)) + es[i].key + es[i].value,
    decreases i,
{
    if i == 0 {
        assert(es.take(1)[0] == es[0]);
        assert(es.take(1).skip(1) =~= Seq::<EntryV>::empty());
        assert(tree_data(Seq::<EntryV>::empty()) == Seq::<u8>::empty());
        assert(es.take(0) =~= Seq::<EntryV>::empty());
        assert(tree_data(es.take(0)) == Seq::<u8>::empty());
        assert(tree_data(es.take(1).skip(1)) == Seq::<u8>::empty());
        assert(tree_data(es.take(1)) =~= tree_data(es.take(0)) + es[0].key + es[0].value);
    } else {
        lemma_tree_data_take_step(es.skip(1), i - 1);
        assert(es.take(i + 1).skip(1) =~= es.skip(1).take(i));
        assert(es.take(i).skip(1) =~= es.skip(1).take(i - 1));
        assert(es.take(i + 1)[0] == es[0] && es.take(i)[0] == es[0]);
        assert(es.skip(1)[i - 1] == es[i]);
        assert(tree_data(es.take(i + 1)) =~= tree_data(es.take(i)) + es[i].key + es[i].value);
    }
}

} // verus!
