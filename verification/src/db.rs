//! The database: an in-memory file image, its transactions, and commit.
//!
//! The file is a byte image of whole pages. Readers take a full snapshot of
//! the tree at begin and never look at the image again, so a later commit
//! cannot reach them. A writer stages every change in its own transaction
//! value; commit serialises the new tree copy-on-write into freshly
//! allocated pages, writes the freelist, and finally publishes one new meta
//! page. Nothing in the image changes when a transaction fails or rolls
//! back.

use vstd::prelude::*;

use crate::bucket::{Bucket, BucketR, BucketOp, OpV, wf_bucket, bucket_at, path_view, op_post,
    wf_bucket_shallow, max_inline_bucket_size};
use crate::bytes::{get_bytes, put_bytes, put_zeros};
use crate::errors::Error;
use crate::freelist::{Freelist, PendingTx, sorted_u64, distinct_u64, pending_seq,
    write_freelist_page, parse_freelist_page, insert_sorted_u64, lb_u64, lemma_lb_u64_props};
use crate::meta::{Meta, InBucket, MAGIC, VERSION, META_SIZE, meta_valid, meta_bytes, meta_payload,
    put_meta,
    compute_checksum, spec_meta_at, spec_select_meta, select_meta, meta_at, parse_in_bucket,
    IN_BUCKET_SIZE, lemma_meta_roundtrip};
use crate::node::{INode, NodeW, EntryV, entries_view, wf_entries, entries_sorted, nodes_flat,
    node_size, MAX_KEY_SIZE, MAX_VALUE_SIZE};
use crate::page::{Page, PageInfo, PAGE_HEADER_SIZE, MIN_KEYS_PER_PAGE, LEAF_PAGE_FLAG,
    BRANCH_PAGE_FLAG, META_PAGE_FLAG, FREE_LIST_PAGE_FLAG, BUCKET_LEAF_FLAG, parse_page_header,
    put_page_header, page_header_bytes};
use crate::tree::{write_tree_page, parse_tree_page, tree_page_size, spec_parse_tree_page};

verus! {

/// The deepest bucket nesting the engine materialises.
pub const MAX_BUCKET_DEPTH: usize = 64;

/// Counters of a transaction's work.
#[derive(Clone, Copy, Debug, PartialEq, Eq, Structural)]
pub struct TxStats {
    /// Number of page allocations.
    pub page_count: u64,
    /// Total bytes allocated for pages.
    pub page_alloc: u64,
    /// Number of cursors created.
    pub cursor_count: u64,
    /// Number of node allocations.
    pub node_count: u64,
    /// Number of node dereferences.
    pub node_deref: u64,
    /// Number of node rebalances.
    pub rebalance: u64,
    /// Number of nodes split.
    pub split: u64,
    /// Number of nodes spilled.
    pub spill: u64,
    /// Number of writes performed.
    pub write: u64,
}

impl TxStats {
    /// All counters zero.
    pub fn new() -> (r: TxStats)
        ensures
            r == (TxStats {
                page_count: 0,
                page_alloc: 0,
                cursor_count: 0,
                node_count: 0,
                node_deref: 0,
                rebalance: 0,
                split: 0,
                spill: 0,
                write: 0,
            }),
    {
        TxStats {
            page_count: 0,
            page_alloc: 0,
            cursor_count: 0,
            node_count: 0,
            node_deref: 0,
            rebalance: 0,
            split: 0,
            spill: 0,
            write: 0,
        }
    }

    /// Adds another transaction's counters onto these, saturating.
    pub fn add_assign(&mut self, rhs: TxStats)
        ensures
            final(self).page_count == sat_add(old(self).page_count, rhs.page_count),
            final(self).page_alloc == sat_add(old(self).page_alloc, rhs.page_alloc),
            final(self).cursor_count == sat_add(old(self).cursor_count, rhs.cursor_count),
            final(self).node_count == sat_add(old(self).node_count, rhs.node_count),
            final(self).node_deref == sat_add(old(self).node_deref, rhs.node_deref),
            final(self).rebalance == sat_add(old(self).rebalance, rhs.rebalance),
            final(self).split == sat_add(old(self).split, rhs.split),
            final(self).spill == sat_add(old(self).spill, rhs.spill),
            final(self).write == sat_add(old(self).write, rhs.write),
    {
        self.page_count = self.page_count.saturating_add(rhs.page_count);
        self.page_alloc = self.page_alloc.saturating_add(rhs.page_alloc);
        self.cursor_count = self.cursor_count.saturating_add(rhs.cursor_count);
        self.node_count = self.node_count.saturating_add(rhs.node_count);
        self.node_deref = self.node_deref.saturating_add(rhs.node_deref);
        self.rebalance = self.rebalance.saturating_add(rhs.rebalance);
        self.split = self.split.saturating_add(rhs.split);
        self.spill = self.spill.saturating_add(rhs.spill);
        self.write = self.write.saturating_add(rhs.write);
    }

    /// The difference of two counter sets, saturating at zero.
    pub fn sub(&self, rhs: &TxStats) -> (r: TxStats)
        ensures
            r.page_count == sat_sub(self.page_count, rhs.page_count),
            r.page_alloc == sat_sub(self.page_alloc, rhs.page_alloc),
            r.cursor_count == sat_sub(self.cursor_count, rhs.cursor_count),
            r.node_count == sat_sub(self.node_count, rhs.node_count),
            r.node_deref == sat_sub(self.node_deref, rhs.node_deref),
            r.rebalance == sat_sub(self.rebalance, rhs.rebalance),
            r.split == sat_sub(self.split, rhs.split),
            r.spill == sat_sub(self.spill, rhs.spill),
            r.write == sat_sub(self.write, rhs.write),
    {
        TxStats {
            page_count: self.page_count.saturating_sub(rhs.page_count),
            page_alloc: self.page_alloc.saturating_sub(rhs.page_alloc),
            cursor_count: self.cursor_count.saturating_sub(rhs.cursor_count),
            node_count: self.node_count.saturating_sub(rhs.node_count),
            node_deref: self.node_deref.saturating_sub(rhs.node_deref),
            rebalance: self.rebalance.saturating_sub(rhs.rebalance),
            split: self.split.saturating_sub(rhs.split),
            spill: self.spill.saturating_sub(rhs.spill),
            write: self.write.saturating_sub(rhs.write),
        }
    }
}

/// Saturating 64-bit addition.
pub open spec fn sat_add(a: u64, b: u64) -> u64 {
    if a + b > u64::MAX {
        u64::MAX
    } else {
        (a + b) as u64
    }
}

/// Saturating 64-bit subtraction.
pub open spec fn sat_sub(a: u64, b: u64) -> u64 {
    if a < b {
        0u64
    } else {
        (a - b) as u64
    }
}

/// The write-side state of a transaction: its staged dirty pages.
pub struct TxW {
    /// Freshly written pages by id; each buffer is a whole page run.
    pub pages: Vec<(u64, Vec<u8>)>,
}

/// A writer's page source: the transaction's freelist, high-water mark and
/// staged dirty pages.
pub struct TxAlloc {
    /// The freelist as this transaction will publish it.
    pub freelist: Freelist,
    /// One past the greatest allocated page id.
    pub hwm: u64,
    /// Staged page writes.
    pub w: TxW,
    /// The id of the committing transaction.
    pub txid: u64,
    /// The database page size.
    pub page_size: u32,
}

impl TxAlloc {
    /// Well-formed: the freelist books only ids below the high-water mark,
    /// every staged page run lies in `[2, hwm)`, and the image after growth
    /// stays addressable.
    pub open spec fn wf(&self) -> bool {
        &&& self.freelist.wf()
        &&& 128 <= self.page_size <= 65536
        &&& 4 <= self.hwm
        &&& self.hwm * self.page_size <= usize::MAX
        &&& forall|i: int|
            0 <= i < self.freelist.ids_seq().len() ==> #[trigger] self.freelist.ids_seq()[i]
                < self.hwm
        &&& forall|i: int|
            0 <= i < self.w.pages@.len() ==> {
                let p = #[trigger] self.w.pages@[i];
                &&& 2 <= p.0
                &&& p.1@.len() >= self.page_size
                &&& p.1@.len() % (self.page_size as nat) == 0
                &&& p.0 * self.page_size + p.1@.len() <= self.hwm * self.page_size
            }
        &&& self.freelist.pending@.len() > 0 ==> self.freelist.pending@.last().txid <= self.txid
    }

    /// Allocates a run of `n` pages: from the freelist when a contiguous run
    /// is free, otherwise by raising the high-water mark. Fails only when
    /// the file would outgrow the address space.
    pub fn allocate(&mut self, n: usize) -> (r: Result<u64, Error>)
        requires
            old(self).wf(),
            1 <= n <= 0x7fffffff,
        ensures
            final(self).wf(),
            final(self).txid == old(self).txid,
            final(self).page_size == old(self).page_size,
            final(self).w == old(self).w,
            final(self).hwm >= old(self).hwm,
            final(self).freelist.pending@ == old(self).freelist.pending@,
            final(self).freelist.ids_seq().len() <= old(self).freelist.ids_seq().len(),
            match r {
                Ok(id) => 2 <= id && id + n <= final(self).hwm,
                Err(e) => e == Error::MMapTooLarge && *final(self) == *old(self),
            },
    {
        let got = self.freelist.allocate(self.txid, n);
        match got {
            Some(id) => {
                proof {
                    let ids0 = old(self).freelist.ids_seq();
                    assert(old(self).freelist.free@.contains((id + (n - 1)) as u64));
                    let xlast = (id + (n - 1)) as u64;
                    let wl = choose|wl: int|
                        0 <= wl < old(self).freelist.free@.len() && old(self).freelist.free@[wl]
                            == xlast;
                    assert(ids0[wl] == xlast);
                    assert(xlast < self.hwm);
                    assert forall|i: int|
                        0 <= i < self.freelist.ids_seq().len() implies #[trigger] self.freelist.ids_seq()[i]
                        < self.hwm by {
                        let x = self.freelist.ids_seq()[i];
                        assert(self.freelist.ids_seq().contains(x));
                        crate::freelist::lemma_concat_contains(
                            self.freelist.free@,
                            pending_seq(self.freelist.pending@),
                        );
                        crate::freelist::lemma_concat_contains(
                            old(self).freelist.free@,
                            pending_seq(old(self).freelist.pending@),
                        );
                        assert(old(self).freelist.ids_seq().contains(x));
                        let w = choose|w: int|
                            0 <= w < ids0.len() && ids0[w] == x;
                    }
                }
                Ok(id)
            },
            None => {
                // grow the file
                let ps = self.page_size as u64;
                if self.hwm > (u64::MAX - n as u64) || ((self.hwm + n as u64) > (usize::MAX as u64)
                    / ps) {
                    return Err(Error::MMapTooLarge);
                }
                let id = self.hwm;
                proof {
                    assert((self.hwm + n as u64) * ps <= ((usize::MAX as u64) / ps) * ps <= usize::MAX)
                        by (nonlinear_arith)
                        requires
                            ps >= 1,
                            self.hwm + n as u64 <= (usize::MAX as u64) / ps,
                    ;
                }
                self.hwm = self.hwm + n as u64;
                proof {
                    assert forall|i: int|
                        0 <= i < self.freelist.ids_seq().len() implies #[trigger] self.freelist.ids_seq()[i]
                        < self.hwm by {
                        assert(self.freelist.ids_seq()[i] < old(self).hwm);
                    }
                    assert forall|i: int|
                        0 <= i < self.w.pages@.len() implies {
                        let p = #[trigger] self.w.pages@[i];
                        &&& 2 <= p.0
                        &&& p.1@.len() >= self.page_size
                        &&& p.1@.len() % (self.page_size as nat) == 0
                        &&& p.0 * self.page_size + p.1@.len() <= self.hwm * self.page_size
                    } by {
                        assert(old(self).w.pages@[i] == self.w.pages@[i]);
                        let h0 = old(self).hwm;
                        let h1 = self.hwm;
                        assert(h0 * ps <= h1 * ps) by (nonlinear_arith)
                            requires
                                h0 <= h1,
                                ps >= 0,
                        ;
                    }
                }
                Ok(id)
            },
        }
    }

    /// Stages the write of a page run.
    pub fn write_page(&mut self, id: u64, bytes: Vec<u8>)
        requires
            old(self).wf(),
            2 <= id,
            bytes@.len() >= old(self).page_size,
            bytes@.len() % (old(self).page_size as nat) == 0,
            id * old(self).page_size + bytes@.len() <= old(self).hwm * old(self).page_size,
        ensures
            final(self).wf(),
            *final(self) == (TxAlloc {
                w: TxW { pages: final(self).w.pages },
                ..*old(self)
            }),
            final(self).w.pages@ == old(self).w.pages@.push((id, bytes)),
    {
        let ghost pages0 = self.w.pages@;
        self.w.pages.push((id, bytes));
        proof {
            assert forall|i: int|
                0 <= i < self.w.pages@.len() implies {
                let p = #[trigger] self.w.pages@[i];
                &&& 2 <= p.0
                &&& p.1@.len() >= self.page_size
                &&& p.1@.len() % (self.page_size as nat) == 0
                &&& p.0 * self.page_size + p.1@.len() <= self.hwm * self.page_size
            } by {
                if i < pages0.len() {
                    assert(self.w.pages@[i] == pages0[i]);
                }
            }
        }
    }

    /// Books the run `id ..= id + overflow` as freed by this transaction.
    /// A run already booked means the tree and the freelist disagree: the
    /// database is not sound, and the commit is abandoned.
    pub fn free_run(&mut self, id: u64, overflow: u32) -> (r: Result<(), Error>)
        requires
            old(self).wf(),
        ensures
            final(self).wf(),
            final(self).txid == old(self).txid,
            final(self).page_size == old(self).page_size,
            final(self).hwm == old(self).hwm,
            final(self).w == old(self).w,
            r is Err ==> *final(self) == *old(self) && r == Result::<(), Error>::Err(
                Error::InvalidDatabase(true),
            ),
    {
        if id < 2 || overflow >= 0xffffffffu32 - 1 || id > u64::MAX - overflow as u64 || id
            + overflow as u64 >= self.hwm {
            return Err(Error::InvalidDatabase(true));
        }
        let mut k: u64 = 0;
        let n = overflow as u64 + 1;
        while k < n
            invariant
                *self == *old(self),
                self.wf(),
                k <= n,
                n == overflow as u64 + 1,
                (id + overflow as u64) < self.hwm,
                id >= 2,
                forall|x: u64| id <= x && x < id + k ==> !self.freelist.in_cache(x),
            decreases n - k,
        {
            if self.freelist.freed(id + k) {
                return Err(Error::InvalidDatabase(true));
            }
            k = k + 1;
        }
        let page = Page { id, flags: 0, count: 0, overflow };
        self.freelist.free(self.txid, &page);
        proof {
            assert forall|i: int|
                0 <= i < self.freelist.ids_seq().len() implies #[trigger] self.freelist.ids_seq()[i]
                < self.hwm by {
                let run = crate::freelist::run_seq(id, overflow + 1);
                if i < old(self).freelist.ids_seq().len() {
                    assert(self.freelist.ids_seq()[i] == old(self).freelist.ids_seq()[i]);
                } else {
                    assert(self.freelist.ids_seq()[i] == run[i - old(
                        self,
                    ).freelist.ids_seq().len()]);
                }
            }
        }
        Ok(())
    }
}

/// Reads the whole page run starting at `id` out of the image: the page
/// and its overflow continuation pages.
pub fn read_page_run(image: &Vec<u8>, page_size: u32, id: u64) -> (r: Result<Vec<u8>, Error>)
    requires
        128 <= page_size <= 65536,
    ensures
        r is Err ==> r == Result::<Vec<u8>, Error>::Err(Error::InvalidDatabase(true)),
        match r {
            Ok(bytes) => {
                &&& id * page_size + bytes@.len() <= image@.len()
                &&& bytes@.len() >= page_size
                &&& bytes@.len() == (crate::bytes::u32_le(
                    image@.subrange(id * page_size + 12, id * page_size + 16),
                ) + 1) * page_size
                &&& bytes@ == image@.subrange(
                    id * page_size,
                    id * page_size + bytes@.len(),
                )
            },
            Err(_) => true,
        },
{
    let ilen = image.len();
    let ps = page_size as u64;
    if id >= (ilen as u64) / ps {
        return Err(Error::InvalidDatabase(true));
    }
    proof {
        assert(id * ps + ps <= ilen) by (nonlinear_arith)
            requires
                ps >= 1,
                id < (ilen as u64) / ps,
        ;
    }
    let off = (id * ps) as usize;
    let overflow = crate::bytes::get_u32(image.as_slice(), off + 12);
    if overflow > 65536 {
        return Err(Error::InvalidDatabase(true));
    }
    let run_pages = overflow as u64 + 1;
    if id > u64::MAX / ps || run_pages > (ilen as u64) / ps || id > (ilen as u64) / ps - run_pages
    {
        return Err(Error::InvalidDatabase(true));
    }
    proof {
        assert((id + run_pages) * ps <= ilen) by (nonlinear_arith)
            requires
                ps >= 1,
                id + run_pages <= (ilen as u64) / ps,
        ;
        assert(run_pages * ps <= ilen) by (nonlinear_arith)
            requires
                ps >= 1,
                run_pages <= (ilen as u64) / ps,
        ;
        assert(id * ps + run_pages * ps == (id + run_pages) * ps) by (nonlinear_arith);
    }
    proof {
        assert(run_pages * ps >= ps) by (nonlinear_arith)
            requires
                run_pages >= 1,
                ps >= 0,
        ;
    }
    let len = (run_pages * ps) as usize;
    Ok(get_bytes(image.as_slice(), off, len))
}

/// Copies a byte vector.
pub fn clone_vec_u8(v: &Vec<u8>) -> (r: Vec<u8>)
    ensures
        r@ == v@,
{
    let r = get_bytes(v.as_slice(), 0, v.len());
    proof {
        assert(v@.subrange(0, v@.len() as int) =~= v@);
    }
    r
}

/// Copies a freelist: same free ids, same pending sets.
pub fn clone_freelist(fl: &Freelist) -> (r: Freelist)
    ensures
        r.free@ == fl.free@,
        r.pending@.len() == fl.pending@.len(),
        forall|i: int|
            0 <= i < r.pending@.len() ==> (#[trigger] r.pending@[i]).txid == fl.pending@[i].txid
                && r.pending@[i].ids@ == fl.pending@[i].ids@,
        pending_seq(r.pending@) == pending_seq(fl.pending@),
        r.ids_seq() == fl.ids_seq(),
        fl.wf() ==> r.wf(),
{
    let mut free: Vec<u64> = Vec::new();
    let mut i: usize = 0;
    while i < fl.free.len()
        invariant
            i <= fl.free@.len(),
            free@ == fl.free@.subrange(0, i as int),
        decreases fl.free@.len() - i,
    {
        free.push(fl.free[i]);
        proof {
            assert(free@ =~= fl.free@.subrange(0, i + 1));
        }
        i = i + 1;
    }
    proof {
        assert(fl.free@.subrange(0, fl.free@.len() as int) =~= fl.free@);
    }
    let mut pending: Vec<PendingTx> = Vec::new();
    let mut t: usize = 0;
    while t < fl.pending.len()
        invariant
            t <= fl.pending@.len(),
            pending@.len() == t,
            forall|j: int|
                0 <= j < t ==> (#[trigger] pending@[j]).txid == fl.pending@[j].txid
                    && pending@[j].ids@ == fl.pending@[j].ids@,
        decreases fl.pending@.len() - t,
    {
        let src = &fl.pending[t];
        let mut ids: Vec<u64> = Vec::new();
        let mut a: usize = 0;
        while a < src.ids.len()
            invariant
                a <= src.ids@.len(),
                ids@ == src.ids@.subrange(0, a as int),
                src.ids@ == fl.pending@[t as int].ids@,
                t < fl.pending@.len(),
            decreases src.ids@.len() - a,
        {
            ids.push(src.ids[a]);
            proof {
                assert(ids@ =~= src.ids@.subrange(0, a + 1));
            }
            a = a + 1;
        }
        proof {
            assert(src.ids@.subrange(0, src.ids@.len() as int) =~= src.ids@);
        }
        let ghost pending_before = pending@;
        pending.push(PendingTx { txid: src.txid, ids });
        proof {
            assert forall|j: int|
                0 <= j < pending@.len() implies (#[trigger] pending@[j]).txid
                == fl.pending@[j].txid && pending@[j].ids@ == fl.pending@[j].ids@ by {
                if j < pending_before.len() {
                    assert(pending@[j] == pending_before[j]);
                }
            }
        }
        t = t + 1;
    }
    let r = Freelist { free, pending };
    proof {
        lemma_pending_seq_congruent(r.pending@, fl.pending@);
        assert(r.ids_seq() == fl.ids_seq());
        if fl.wf() {
            assert forall|a: int, b: int|
                0 <= a < b < r.pending@.len() implies r.pending@[a].txid < r.pending@[b].txid by {}
        }
    }
    r
}

/// Pending lists with pointwise-equal ids have the same id sequence.
proof fn lemma_pending_seq_congruent(a: Seq<PendingTx>, b: Seq<PendingTx>)
    requires
        a.len() == b.len(),
        forall|i: int| 0 <= i < a.len() ==> (#[trigger] a[i]).ids@ == b[i].ids@,
    ensures
        pending_seq(a) == pending_seq(b),
    decreases a.len(),
{
    if a.len() > 0 {
        assert forall|i: int|
            0 <= i < a.skip(1).len() implies (#[trigger] a.skip(1)[i]).ids@ == b.skip(
            1,
        )[i].ids@ by {
            assert(a.skip(1)[i] == a[i + 1] && b.skip(1)[i] == b[i + 1]);
        }
        lemma_pending_seq_congruent(a.skip(1), b.skip(1));
        assert(a[0].ids@ == b[0].ids@);
    }
}

/// The process-wide open database: the file image and what frames it.
pub struct Bolt {
    /// The page size the file was created with.
    pub page_size: u32,
    /// The file bytes: a whole number of pages.
    pub image: Vec<u8>,
    /// The loaded freelist.
    pub freelist: Freelist,
    /// The page run the loaded freelist was read from: id and overflow.
    pub freelist_page: (u64, u32),
    /// The transaction ids of the open readers.
    pub readers: Vec<u64>,
}

/// A materialised root bucket whose root page is a single leaf holds
/// exactly that page's parse: the snapshot is tied to the image bytes.
pub open spec fn reader_root_parses(root: Bucket, db: Bolt) -> bool {
    let m = db_meta(db);
    let psn = db.page_size as int;
    let off = m.root.root * psn;
    let ov = crate::bytes::u32_le(db.image@.subrange(off + 12, off + 16)) as int;
    m.root.root != 0 && crate::bytes::u16_le(db.image@.subrange(off + 8, off + 10))
        == LEAF_PAGE_FLAG ==> root.node.entries() == spec_parse_tree_page(
        db.image@.subrange(off, off + (ov + 1) * psn),
        true,
    ).unwrap()
}

/// The authoritative meta of a database.
pub open spec fn db_meta(db: Bolt) -> Meta {
    let m0 = spec_meta_at(db.image@, db.page_size as int, 0);
    let m1 = spec_meta_at(db.image@, db.page_size as int, 1);
    if m0.txid >= m1.txid {
        m0
    } else {
        m1
    }
}

/// A sound open database: both metas valid with distinct transaction ids,
/// the authoritative one framing the image, and a freelist booking only
/// live-range pages.
pub open spec fn wf_db(db: Bolt) -> bool {
    let m0 = spec_meta_at(db.image@, db.page_size as int, 0);
    let m1 = spec_meta_at(db.image@, db.page_size as int, 1);
    let m = db_meta(db);
    &&& 128 <= db.page_size <= 65536
    &&& db.image@.len() >= 2 * db.page_size
    &&& meta_valid(m0)
    &&& meta_valid(m1)
    &&& m0.txid != m1.txid
    &&& m.page_size == db.page_size
    &&& 4 <= m.pgid
    &&& m.pgid * db.page_size <= db.image@.len()
    &&& db.freelist.wf()
    &&& forall|i: int|
        0 <= i < db.freelist.ids_seq().len() ==> #[trigger] db.freelist.ids_seq()[i] < m.pgid
    &&& (db.freelist.pending@.len() > 0 ==> db.freelist.pending@.last().txid <= m.txid)
    &&& 2 <= db.freelist_page.0
    &&& db.freelist_page.0 + db.freelist_page.1 < m.pgid
    &&& db.freelist_page.1 < 0xfffffffeu32
}

/// Whether an element list holds a bucket-flagged element.
pub open spec fn has_bucket_entry(s: Seq<EntryV>) -> bool {
    exists|i: int| 0 <= i < s.len() && (#[trigger] s[i]).flags & BUCKET_LEAF_FLAG != 0
}

/// Checks that an element list is well-formed: sorted, non-empty keys, and
/// sizes within the caps.
fn validate_entries(inodes: &Vec<INode>) -> (r: bool)
    ensures
        r ==> wf_entries(entries_view(inodes@)) && entries_view(inodes@).len() <= 0x20000000,
{
    let ghost s = entries_view(inodes@);
    let n = inodes.len();
    if n > 0x20000000 {
        return false;
    }
    let mut i: usize = 0;
    while i < n
        invariant
            i <= n,
            n == inodes@.len(),
            s == entries_view(inodes@),
            n <= 0x20000000,
            forall|j: int|
                0 <= j < i ==> 0 < (#[trigger] s[j]).key.len() <= MAX_KEY_SIZE && s[j].value.len()
                    <= MAX_VALUE_SIZE,
            forall|j: int| 0 <= j < i - 1 ==> crate::bytes::lex_lt((#[trigger] s[j]).key, s[j + 1].key),
        decreases n - i,
    {
        proof {
            assert(inodes@[i as int]@ == s[i as int]);
        }
        if inodes[i].key.len() == 0 || inodes[i].key.len() > MAX_KEY_SIZE as usize
            || inodes[i].value.len() > MAX_VALUE_SIZE as usize {
            return false;
        }
        if i > 0 {
            proof {
                assert(inodes@[i - 1]@ == s[i - 1]);
            }
            if crate::bytes::key_cmp(inodes[i - 1].key.as_slice(), inodes[i].key.as_slice())
                != crate::bytes::KeyOrder::Less {
                return false;
            }
        }
        i = i + 1;
    }
    proof {
        lemma_adjacent_sorted(s);
    }
    true
}

/// Adjacent order gives total order.
proof fn lemma_adjacent_sorted(s: Seq<EntryV>)
    requires
        forall|j: int|
            0 <= j < s.len() - 1 ==> crate::bytes::lex_lt((#[trigger] s[j]).key, s[j + 1].key),
    ensures
        entries_sorted(s),
{
    assert forall|i: int, j: int| 0 <= i < j < s.len() implies crate::bytes::lex_lt(
        s[i].key,
        s[j].key,
    ) by {
        lemma_chain(s, i, j);
    }
}

/// Order chains from `i` to `j` through the adjacent steps.
proof fn lemma_chain(s: Seq<EntryV>, i: int, j: int)
    requires
        forall|t: int|
            0 <= t < s.len() - 1 ==> crate::bytes::lex_lt((#[trigger] s[t]).key, s[t + 1].key),
        0 <= i < j < s.len(),
    ensures
        crate::bytes::lex_lt(s[i].key, s[j].key),
    decreases j - i,
{
    if j == i + 1 {
    } else {
        lemma_chain(s, i, j - 1);
        crate::bytes::lemma_lex_trans(s[i].key, s[j - 1].key, s[j].key);
    }
}

/// Reads the tree rooted at `id` from the image: all leaf elements in key
/// order, and every page run the tree occupies. When the root page itself is
/// a leaf, the collected elements are exactly that page's parse.
fn read_tree(
    image: &Vec<u8>,
    page_size: u32,
    id: u64,
    fuel: usize,
    out: &mut Vec<INode>,
    pages: &mut Vec<(u64, u32)>,
) -> (r: Result<(), Error>)
    requires
        128 <= page_size <= 65536,
    ensures
        match r {
            Ok(()) => ({
                let off = id * page_size;
                let ov = crate::bytes::u32_le(image@.subrange(off + 12, off + 16)) as int;
                crate::bytes::u16_le(image@.subrange(off + 8, off + 10)) == LEAF_PAGE_FLAG
                    ==> entries_view(final(out)@) == entries_view(old(out)@)
                    + spec_parse_tree_page(
                    image@.subrange(off, off + (ov + 1) * page_size),
                    true,
                ).unwrap()
            }),
            Err(_) => true,
        },
    decreases fuel,
{
    if fuel == 0 {
        return Err(Error::InvalidDatabase(true));
    }
    if id < 2 {
        return Err(Error::InvalidDatabase(true));
    }
    let run = read_page_run(image, page_size, id)?;
    let header = parse_page_header(run.as_slice());
    if header.id != id {
        return Err(Error::InvalidDatabase(true));
    }
    pages.push((id, header.overflow));
    proof {
        let off = id * page_size;
        assert(run@.subrange(8, 10) =~= image@.subrange(off + 8, off + 10));
        assert(run@.subrange(12, 16) =~= image@.subrange(off + 12, off + 16));
    }
    if header.flags == LEAF_PAGE_FLAG {
        let inodes = parse_tree_page(run.as_slice(), true)?;
        let ghost out0 = out@;
        let mut k: usize = 0;
        proof {
            assert(entries_view(out@) =~= entries_view(out0) + entries_view(inodes@).take(0));
        }
        while k < inodes.len()
            invariant
                k <= inodes@.len(),
                entries_view(out@) == entries_view(out0) + entries_view(inodes@).take(k as int),
            decreases inodes@.len() - k,
        {
            let e = &inodes[k];
            let c = INode {
                flags: e.flags,
                pgid: e.pgid,
                key: crate::node::slice_to_vec(e.key.as_slice()),
                value: crate::node::slice_to_vec(e.value.as_slice()),
            };
            let ghost cv = c@;
            let ghost out_pre = out@;
            out.push(c);
            proof {
                assert(cv == inodes@[k as int]@);
                assert(out@ == out_pre.push(c));
                assert(entries_view(out@) =~= entries_view(out_pre).push(cv));
                assert(entries_view(inodes@).take(k + 1) =~= entries_view(inodes@).take(
                    k as int,
                ).push(inodes@[k as int]@));
                assert(entries_view(out@) =~= entries_view(out0) + entries_view(inodes@).take(
                    k + 1,
                ));
            }
            k = k + 1;
        }
        proof {
            assert(entries_view(inodes@).take(inodes@.len() as int) =~= entries_view(inodes@));
        }
        Ok(())
    } else if header.flags == BRANCH_PAGE_FLAG {
        let elems = parse_tree_page(run.as_slice(), false)?;
        if elems.len() == 0 {
            return Err(Error::InvalidDatabase(true));
        }
        let mut k: usize = 0;
        while k < elems.len()
            invariant
                128 <= page_size <= 65536,
                fuel >= 1,
            decreases elems@.len() - k,
        {
            read_tree(image, page_size, elems[k].pgid, fuel - 1, out, pages)?;
            k = k + 1;
        }
        Ok(())
    } else {
        Err(Error::InvalidDatabase(true))
    }
}

/// Materialises the bucket under `header` from the image: its element list,
/// all nested buckets, and every page its old tree occupies.
fn read_bucket(
    image: &Vec<u8>,
    page_size: u32,
    header: InBucket,
    inline: Option<Vec<u8>>,
    depth: usize,
) -> (r: Result<Bucket, Error>)
    requires
        128 <= page_size <= 65536,
    ensures
        match r {
            Ok(b) => {
                &&& wf_bucket(b, depth as int)
                &&& b.r.bucket_header == header
                &&& (header.root == 0 ==> (inline matches Some(bytes) && b.node.entries()
                    == spec_parse_tree_page(bytes@, true).unwrap()))
                &&& (header.root != 0 ==> ({
                    let off = header.root * page_size;
                    let ov = crate::bytes::u32_le(image@.subrange(off + 12, off + 16)) as int;
                    crate::bytes::u16_le(image@.subrange(off + 8, off + 10)) == LEAF_PAGE_FLAG
                        ==> b.node.entries() == spec_parse_tree_page(
                        image@.subrange(off, off + (ov + 1) * page_size),
                        true,
                    ).unwrap()
                }))
            },
            Err(_) => true,
        },
    decreases depth,
{
    let mut inodes: Vec<INode> = Vec::new();
    let mut pages: Vec<(u64, u32)> = Vec::new();
    if header.root == 0 {
        match inline {
            None => {
                return Err(Error::InvalidDatabase(true));
            },
            Some(bytes) => {
                inodes = parse_tree_page(bytes.as_slice(), true)?;
            },
        }
    } else {
        proof {
            assert(entries_view(inodes@) =~= Seq::<EntryV>::empty());
        }
        read_tree(image, page_size, header.root, MAX_BUCKET_DEPTH, &mut inodes, &mut pages)?;
        proof {
            assert(Seq::<EntryV>::empty() + entries_view(inodes@) =~= entries_view(inodes@));
        }
    }
    if !validate_entries(&inodes) {
        return Err(Error::InvalidDatabase(true));
    }
    let node = NodeW {
        is_leaf: true,
        pgid: header.root,
        key: Vec::new(),
        inodes,
        unbalanced: false,
        spilled: false,
    };
    let ghost s = node.entries();
    let mut children: Vec<(Vec<u8>, Bucket)> = Vec::new();
    let mut i: usize = 0;
    while i < node.inodes.len()
        invariant
            i <= node.inodes@.len(),
            s == node.entries(),
            wf_entries(s),
            s.len() <= 0x20000000,
            node.is_leaf,
            128 <= page_size <= 65536,
            depth == 0 ==> children@.len() == 0,
            children@.len() <= i,
            forall|a: int|
                0 <= a < children@.len() ==> 0 < (#[trigger] children@[a]).0@.len() <= MAX_KEY_SIZE
                    && {
                    let e = crate::node::find_entry(s, children@[a].0@);
                    e is Some && e.unwrap().flags & BUCKET_LEAF_FLAG != 0
                },
            forall|a: int, b: int|
                0 <= a < b < children@.len() ==> children@[a].0@ != children@[b].0@,
            forall|a: int|
                0 <= a < children@.len() ==> wf_bucket((#[trigger] children@[a]).1, depth - 1),
            forall|a: int|
                0 <= a < children@.len() ==> exists|j: int|
                    0 <= j < i && s[j].key == (#[trigger] children@[a]).0@,
            forall|j: int|
                0 <= j < i && (#[trigger] s[j]).flags & BUCKET_LEAF_FLAG != 0 ==> exists|a: int|
                    0 <= a < children@.len() && (#[trigger] children@[a]).0@ == s[j].key,
        decreases node.inodes@.len() - i,
    {
        proof {
            assert(node.inodes@[i as int]@ == s[i as int]);
        }
        if node.inodes[i].flags & BUCKET_LEAF_FLAG != 0 {
            if depth == 0 {
                return Err(Error::InvalidDatabase(true));
            }
            let value = &node.inodes[i].value;
            if value.len() < IN_BUCKET_SIZE {
                return Err(Error::InvalidDatabase(true));
            }
            let child_header = parse_in_bucket(value.as_slice(), 0);
            let child_inline: Option<Vec<u8>> = if child_header.root == 0 {
                Some(get_bytes(value.as_slice(), IN_BUCKET_SIZE, value.len() - IN_BUCKET_SIZE))
            } else {
                None
            };
            let child = read_bucket(image, page_size, child_header, child_inline, depth - 1)?;
            let name = crate::node::slice_to_vec(node.inodes[i].key.as_slice());
            let ghost children_before = children@;
            children.push((name, child));
            proof {
                crate::node::lemma_find_entry(s, s[i as int].key);
                assert forall|a: int, b: int|
                    0 <= a < b < children@.len() implies children@[a].0@ != children@[b].0@ by {
                    if b == children_before.len() as int {
                        assert(children@[a] == children_before[a]);
                        let w = choose|w: int|
                            0 <= w < i && s[w].key == (children_before[a]).0@;
                        assert(crate::bytes::lex_lt(s[w].key, s[i as int].key));
                        crate::bytes::lemma_lex_asym(s[w].key, s[i as int].key);
                    } else {
                        assert(children@[a] == children_before[a]);
                        assert(children@[b] == children_before[b]);
                    }
                }
                assert forall|a: int|
                    0 <= a < children@.len() implies exists|j: int|
                    0 <= j < i + 1 && s[j].key == (#[trigger] children@[a]).0@ by {
                    if a < children_before.len() {
                        assert(children@[a] == children_before[a]);
                        let w = choose|w: int|
                            0 <= w < i && s[w].key == (children_before[a]).0@;
                        assert(0 <= w < i + 1 && s[w].key == children@[a].0@);
                    } else {
                        assert(s[i as int].key == children@[a].0@);
                    }
                }
                assert forall|j: int|
                    0 <= j < i + 1 && (#[trigger] s[j]).flags & BUCKET_LEAF_FLAG != 0 implies exists|a: int|
                    0 <= a < children@.len() && (#[trigger] children@[a]).0@ == s[j].key by {
                    if j < i {
                        let a0 = choose|a0: int|
                            0 <= a0 < children_before.len() && (#[trigger] children_before[a0]).0@
                                == s[j].key;
                        assert(children@[a0] == children_before[a0]);
                    } else {
                        assert(children@[children_before.len() as int].0@ == s[j].key);
                    }
                }
            }
        }
        i = i + 1;
    }
    let b = Bucket { r: BucketR::new(header), node, children, old_pages: pages };
    proof {
        assert(b.node.entries() == s);
        assert(wf_bucket(b, depth as int)) by {
            if depth == 0 {
                assert(b.children@.len() == 0);
            }
        }
    }
    Ok(b)
}

/// Validates a database value field by field; exactly the checks of
/// `wf_db` that cannot be carried statically.
#[verifier::rlimit(100)]
fn check_db(db: &Bolt) -> (r: bool)
    requires
        db.freelist.wf(),
        db.freelist.pending@.len() == 0,
    ensures
        r ==> wf_db(*db) && db.freelist.pending@.len() == 0,
{
    let ps = db.page_size;
    if ps < 128 || ps > 65536 {
        return false;
    }
    let ilen = db.image.len();
    if (ilen as u64) < 2 * (ps as u64) {
        return false;
    }
    let m0 = meta_at(&db.image, ps, 0);
    let m1 = meta_at(&db.image, ps, 1);
    if m0.validate().is_err() || m1.validate().is_err() {
        return false;
    }
    if m0.txid == m1.txid {
        return false;
    }
    let m = if m0.txid >= m1.txid {
        m0
    } else {
        m1
    };
    if m.page_size != ps {
        return false;
    }
    if m.pgid < 4 {
        return false;
    }
    if m.pgid > (u64::MAX / ps as u64) {
        return false;
    }
    proof {
        let p = m.pgid;
        let pu = ps as u64;
        assert(p * pu <= (u64::MAX / pu) * pu <= u64::MAX) by (nonlinear_arith)
            requires
                pu >= 1,
                p <= u64::MAX / pu,
        ;
    }
    if m.pgid * (ps as u64) > ilen as u64 {
        return false;
    }
    // every free id must lie below the high-water mark; the freelist holds
    // no pending sets right after a load or a commit-release
    let mut i: usize = 0;
    while i < db.freelist.free.len()
        invariant
            i <= db.freelist.free@.len(),
            forall|j: int| 0 <= j < i ==> db.freelist.free@[j] < m.pgid,
            m == db_meta(*db),
        decreases db.freelist.free@.len() - i,
    {
        if db.freelist.free[i] >= m.pgid {
            return false;
        }
        i = i + 1;
    }
    if db.freelist_page.0 < 2 || db.freelist_page.1 >= 0xfffffffeu32 || db.freelist_page.0
        > u64::MAX - db.freelist_page.1 as u64 || db.freelist_page.0 + db.freelist_page.1 as u64
        >= m.pgid {
        return false;
    }
    proof {
        assert(pending_seq(db.freelist.pending@) == Seq::<u64>::empty()) by {
            assert(db.freelist.pending@ =~= Seq::<PendingTx>::empty());
        }
        assert forall|j: int|
            0 <= j < db.freelist.ids_seq().len() implies #[trigger] db.freelist.ids_seq()[j]
            < db_meta(*db).pgid by {
            assert(db.freelist.ids_seq() =~= db.freelist.free@);
        }
    }
    true
}

/// Builds one meta page of `page_size` bytes.
fn make_meta_page(page_size: u32, slot: u64, m: Meta) -> (r: Vec<u8>)
    requires
        128 <= page_size,
    ensures
        r@.len() == page_size,
        r@.subrange(PAGE_HEADER_SIZE as int, PAGE_HEADER_SIZE + META_SIZE) == meta_bytes(m),
{
    let mut buf: Vec<u8> = Vec::new();
    let flags = <Meta as crate::page::CoerciblePage>::page_flag();
    put_page_header(&mut buf, Page { id: slot, flags, count: 0, overflow: 0 });
    put_meta(&mut buf, m);
    let written = buf.len();
    put_zeros(&mut buf, page_size as usize - written);
    proof {
        assert(buf@.subrange(0, written as int) =~= page_header_bytes(
            Page { id: slot, flags: META_PAGE_FLAG, count: 0, overflow: 0 },
        ) + meta_bytes(m));
        assert(flags == META_PAGE_FLAG);
        assert(written == PAGE_HEADER_SIZE + META_SIZE);
        assert forall|j: int|
            0 <= j < META_SIZE implies buf@[PAGE_HEADER_SIZE + j] == meta_bytes(m)[j] by {
            assert(buf@.subrange(0, written as int)[PAGE_HEADER_SIZE + j] == buf@[PAGE_HEADER_SIZE
                + j]);
        }
        assert(buf@.subrange(PAGE_HEADER_SIZE as int, PAGE_HEADER_SIZE + META_SIZE)
            =~= meta_bytes(m));
    }
    buf
}

/// Writes `bytes` over the page run starting at `id` of `image`.
fn write_page_into(image: &mut Vec<u8>, page_size: u32, id: u64, bytes: &Vec<u8>) -> (r: Result<
    (),
    Error,
>)
    requires
        128 <= page_size <= 65536,
    ensures
        final(image)@.len() == old(image)@.len(),
        r is Err ==> final(image)@ == old(image)@ && r == Result::<(), Error>::Err(
            Error::MMapTooSmall(id),
        ),
    {
    let ilen = image.len();
    let ps = page_size as u64;
    if id > (u64::MAX / ps) {
        return Err(Error::MMapTooSmall(id));
    }
    proof {
        assert(id * ps <= (u64::MAX / ps) * ps <= u64::MAX) by (nonlinear_arith)
            requires
                ps >= 1,
                id <= u64::MAX / ps,
        ;
    }
    let off = id * ps;
    if off > usize::MAX as u64 || (off as usize) > ilen || bytes.len() > ilen - (off as usize) {
        return Err(Error::MMapTooSmall(id));
    }
    let off = off as usize;
    let ilen2 = image.len();
    let mut k: usize = 0;
    while k < bytes.len()
        invariant
            k <= bytes@.len(),
            off + bytes@.len() <= image@.len(),
            image@.len() == ilen2,
            image@.len() == old(image)@.len(),
        decreases bytes@.len() - k,
    {
        let b = bytes[k];
        image.set(off + k, b);
        k = k + 1;
    }
    Ok(())
}

/// Collects every booked id of a freelist, sorted: the ids its page will
/// carry.
fn merged_ids(fl: &Freelist) -> (r: Vec<u64>)
    requires
        fl.wf(),
        fl.ids_seq().len() <= usize::MAX,
    ensures
        sorted_u64(r@),
        r@.len() == fl.ids_seq().len(),
        forall|x: u64| r@.contains(x) <==> fl.in_cache(x),
{
    let mut out = clone_vec_u8_ids(&fl.free);
    let ghost rest_all = pending_seq(fl.pending@);
    proof {
        crate::freelist::lemma_concat_contains(fl.free@, pending_seq(fl.pending@));
        assert(fl.pending@.take(0) =~= Seq::<PendingTx>::empty());
        assert(pending_seq(fl.pending@.take(0)) == Seq::<u64>::empty());
        assert(fl.pending@.skip(0) =~= fl.pending@);
    }
    let mut t: usize = 0;
    while t < fl.pending.len()
        invariant
            t <= fl.pending@.len(),
            fl.wf(),
            fl.ids_seq().len() <= usize::MAX,
            sorted_u64(out@),
            out@.len() == fl.free@.len() + pending_seq(fl.pending@.take(t as int)).len(),
            forall|x: u64|
                #[trigger] out@.contains(x) <==> (fl.free@.contains(x) || pending_seq(
                    fl.pending@.take(t as int),
                ).contains(x)),
            distinct_u64(out@ + pending_seq(fl.pending@.skip(t as int))),
            forall|j: int|
                0 <= j < (out@ + pending_seq(fl.pending@.skip(t as int))).len() ==> #[trigger] (out@
                    + pending_seq(fl.pending@.skip(t as int)))[j] >= 2,
        decreases fl.pending@.len() - t,
    {
        let ghost out_pre = out@;
        proof {
            assert(fl.pending@ =~= fl.pending@.take(t as int) + fl.pending@.skip(t as int));
            crate::freelist::lemma_pending_seq_concat(
                fl.pending@.take(t as int),
                fl.pending@.skip(t as int),
            );
            crate::freelist::lemma_pending_seq_skip(fl.pending@.skip(t as int));
            assert(fl.pending@.skip(t as int)[0] == fl.pending@[t as int]);
            assert(fl.pending@.skip(t as int).skip(1) =~= fl.pending@.skip(t + 1));
            assert(pending_seq(fl.pending@.skip(t as int)) == fl.pending@[t as int].ids@
                + pending_seq(fl.pending@.skip(t + 1)));
            crate::freelist::lemma_three_way_regroup(
                out@,
                fl.pending@[t as int].ids@,
                pending_seq(fl.pending@.skip(t + 1)),
            );
            assert(out@ + pending_seq(fl.pending@.skip(t as int)) =~= out@ + fl.pending@[
                t as int
            ].ids@ + pending_seq(fl.pending@.skip(t + 1)));
            assert(out@.len() + fl.pending@[t as int].ids@.len() <= fl.ids_seq().len());
        }
        crate::freelist::merge_into_sorted(
            &mut out,
            &fl.pending[t].ids,
            Ghost(pending_seq(fl.pending@.skip(t + 1))),
        );
        proof {
            crate::freelist::lemma_pending_seq_take_step(fl.pending@, t as int);
            assert forall|x: u64|
                #[trigger] out@.contains(x) <==> (fl.free@.contains(x) || pending_seq(
                    fl.pending@.take(t + 1),
                ).contains(x)) by {
                crate::freelist::lemma_concat_contains(
                    pending_seq(fl.pending@.take(t as int)),
                    fl.pending@[t as int].ids@,
                );
            }
        }
        t = t + 1;
    }
    proof {
        assert(fl.pending@.take(fl.pending@.len() as int) =~= fl.pending@);
        assert(fl.pending@.skip(fl.pending@.len() as int) =~= Seq::<PendingTx>::empty());
    }
    out
}

/// Copies a vector of page ids.
fn clone_vec_u8_ids(v: &Vec<u64>) -> (r: Vec<u64>)
    ensures
        r@ == v@,
{
    let mut r: Vec<u64> = Vec::new();
    let mut i: usize = 0;
    while i < v.len()
        invariant
            i <= v@.len(),
            r@ == v@.subrange(0, i as int),
        decreases v@.len() - i,
    {
        r.push(v[i]);
        proof {
            assert(r@ =~= v@.subrange(0, i + 1));
        }
        i = i + 1;
    }
    proof {
        assert(v@.subrange(0, v@.len() as int) =~= v@);
    }
    r
}

/// Writes one tree chunk to a freshly allocated page run. The first key of
/// the chunk is returned so that the parent's branch element carries exactly
/// the first key of the subtree it points to.
fn write_chunk(ctx: &mut TxAlloc, chunk: &NodeW, leaf: bool) -> (r: Result<
    (u64, Vec<u8>, usize),
    Error,
>)
    requires
        old(ctx).wf(),
        wf_entries(chunk.entries()),
        chunk.inodes@.len() >= 1,
    ensures
        final(ctx).wf(),
        final(ctx).txid == old(ctx).txid,
        final(ctx).page_size == old(ctx).page_size,
        final(ctx).hwm >= old(ctx).hwm,
        final(ctx).freelist.pending@ == old(ctx).freelist.pending@,
        match r {
            Ok((id, fk, count)) => {
                &&& 2 <= id < final(ctx).hwm
                &&& fk@ == chunk.entries()[0].key
                &&& count == chunk.inodes@.len()
                &&& final(ctx).w.pages@.len() == old(ctx).w.pages@.len() + 1
                &&& final(ctx).w.pages@.last().0 == id
                // the staged page parses back to exactly this chunk, so a
                // branch element's key is the first key of the page it names
                &&& ((leaf ==> forall|j: int|
                    0 <= j < chunk.entries().len() ==> (#[trigger] chunk.entries()[j]).pgid == 0)
                    && (!leaf ==> forall|j: int|
                    0 <= j < chunk.entries().len() ==> (#[trigger] chunk.entries()[j]).value.len()
                        == 0 && chunk.entries()[j].flags == 0) ==> spec_parse_tree_page(
                    final(ctx).w.pages@.last().1@,
                    leaf,
                ) == Some(chunk.entries()))
            },
            Err(_) => true,
        },
{
    let size = chunk.size();
    if size >= 0x100000000u64 {
        return Err(Error::MMapTooLarge);
    }
    if chunk.inodes.len() > 0xffff {
        return Err(Error::MMapTooLarge);
    }
    let ps = ctx.page_size as u64;
    let pages = (size + ps - 1) / ps;
    let pages = if pages == 0 {
        1
    } else {
        pages
    };
    proof {
        let p0 = ((size + ps - 1) as u64) / ps;
        assert(pages * ps >= size && pages >= 1 && pages <= 0x2000001) by (nonlinear_arith)
            requires
                pages == if p0 == 0 {
                    1u64
                } else {
                    p0
                },
                p0 == ((size + ps - 1) as u64) / ps,
                128 <= ps <= 65536,
                size < 0x100000000,
        ;
    }
    proof {
        assert(pages * ps <= 0x2000001u64 * 65536) by (nonlinear_arith)
            requires
                pages <= 0x2000001,
                ps <= 65536,
                pages >= 0,
                ps >= 0,
        ;
    }
    let buf_len = pages * ps;
    if buf_len > usize::MAX as u64 {
        return Err(Error::MMapTooLarge);
    }
    let id = ctx.allocate(pages as usize)?;
    proof {
        assert(node_size(chunk.entries(), chunk.is_leaf) == tree_page_size(chunk.entries()));
        assert(id * ps + pages * ps <= ctx.hwm * ps) by (nonlinear_arith)
            requires
                id + pages <= ctx.hwm,
                ps >= 0,
        ;
    }
    proof {
        assert((pages * ps) % (ps as int) == 0 && pages * ps >= ps) by (nonlinear_arith)
            requires
                ps >= 1,
                pages >= 1,
        ;
    }
    let buf = write_tree_page(id, (pages - 1) as u32, &chunk.inodes, leaf, buf_len as usize);
    proof {
        let es = chunk.entries();
        let sz = tree_page_size(es);
        assert(buf@ =~= crate::tree::tree_page_bytes(id, (pages - 1) as u32, es, leaf)
            + buf@.subrange(sz, buf@.len() as int)) by {
            assert(buf@.subrange(0, sz) == crate::tree::tree_page_bytes(
                id,
                (pages - 1) as u32,
                es,
                leaf,
            ));
        }
        if (leaf ==> forall|j: int| 0 <= j < es.len() ==> (#[trigger] es[j]).pgid == 0) && (!leaf
            ==> forall|j: int|
            0 <= j < es.len() ==> (#[trigger] es[j]).value.len() == 0 && es[j].flags == 0) {
            crate::tree::lemma_tree_page_roundtrip(
                id,
                (pages - 1) as u32,
                es,
                leaf,
                buf@.subrange(sz, buf@.len() as int),
            );
        }
    }
    let fk = crate::node::slice_to_vec(chunk.inodes[0].key.as_slice());
    let count = chunk.inodes.len();
    ctx.write_page(id, buf);
    proof {
        assert(chunk.inodes@[0]@ == chunk.entries()[0]);
    }
    Ok((id, fk, count))
}

/// Serialises an element list into a page tree: leaves first, then branch
/// levels, until a single root page remains. Every branch element carries
/// the first key of its subtree, and a branch root always has at least two
/// children.
fn build_tree(ctx: &mut TxAlloc, node: NodeW, fill_percent: u32) -> (r: Result<
    (u64, bool, usize),
    Error,
>)
    requires
        old(ctx).wf(),
        wf_entries(node.entries()),
        node.is_leaf,
        node.inodes@.len() >= 1,
        1 <= fill_percent <= 100,
    ensures
        final(ctx).wf(),
        final(ctx).txid == old(ctx).txid,
        final(ctx).page_size == old(ctx).page_size,
        final(ctx).hwm >= old(ctx).hwm,
        final(ctx).freelist.pending@ == old(ctx).freelist.pending@,
        match r {
            Ok((root, root_is_leaf, root_count)) => {
                &&& 2 <= root < final(ctx).hwm
                &&& (!root_is_leaf ==> root_count >= 2)
            },
            Err(_) => true,
        },
{
    let ghost ctx0 = *ctx;
    let chunks = node.split(ctx.page_size, fill_percent);
    let mut level: Vec<INode> = Vec::new();
    let mut last_count: usize = 0;
    let mut i: usize = 0;
    while i < chunks.len()
        invariant
            old(ctx).wf(),
            ctx.wf(),
            ctx.txid == old(ctx).txid,
            ctx.page_size == old(ctx).page_size,
            ctx.hwm >= old(ctx).hwm,
            ctx.freelist.pending@ == old(ctx).freelist.pending@,
            i <= chunks@.len(),
            level@.len() == i,
            forall|j: int|
                0 <= j < chunks@.len() ==> wf_entries(#[trigger] chunks@[j].entries()),
            forall|j: int|
                0 <= j < level@.len() ==> 2 <= (#[trigger] level@[j]).pgid < ctx.hwm,
            i > 0 ==> 1 <= last_count,
            i > 0 ==> last_count == chunks@[i - 1].inodes@.len(),
        decreases chunks@.len() - i,
    {
        if chunks[i].inodes.len() == 0 {
            return Err(Error::MMapTooLarge);
        }
        let (id, fk, count) = write_chunk(ctx, &chunks[i], true)?;
        level.push(INode { flags: 0, pgid: id, key: fk, value: Vec::new() });
        last_count = count;
        proof {
            assert forall|j: int|
                0 <= j < level@.len() implies 2 <= (#[trigger] level@[j]).pgid < ctx.hwm by {}
        }
        i = i + 1;
    }
    if level.len() == 0 {
        return Err(Error::MMapTooLarge);
    }
    if level.len() == 1 {
        let root = level[0].pgid;
        return Ok((root, true, last_count));
    }
    // branch levels
    loop
        invariant_except_break
            ctx.wf(),
            ctx.txid == old(ctx).txid,
            ctx.page_size == old(ctx).page_size,
            ctx.hwm >= old(ctx).hwm,
            ctx.freelist.pending@ == old(ctx).freelist.pending@,
            level@.len() >= 2,
            1 <= fill_percent <= 100,
            forall|j: int|
                0 <= j < level@.len() ==> 2 <= (#[trigger] level@[j]).pgid < ctx.hwm,
        ensures
            ctx.wf(),
            ctx.txid == old(ctx).txid,
            ctx.page_size == old(ctx).page_size,
            ctx.hwm >= old(ctx).hwm,
            ctx.freelist.pending@ == old(ctx).freelist.pending@,
            level@.len() == 1,
            2 <= level@[0].pgid < ctx.hwm,
            last_count >= 2,
        decreases level@.len(),
    {
        if !validate_entries(&level) {
            return Err(Error::InvalidDatabase(true));
        }
        let ghost prev_len = level@.len();
        let bn = NodeW {
            is_leaf: false,
            pgid: 0,
            key: Vec::new(),
            inodes: level,
            unbalanced: false,
            spilled: false,
        };
        let bchunks = bn.split(ctx.page_size, fill_percent);
        proof {
            assert(nodes_flat(bchunks@).len() == prev_len);
            if bchunks@.len() > 1 {
                crate::node::lemma_flat_min_len(bchunks@);
            } else {
                assert(bchunks@.skip(1) =~= Seq::<NodeW>::empty());
                assert(nodes_flat(bchunks@.skip(1)) == Seq::<EntryV>::empty());
                assert(nodes_flat(bchunks@) =~= entries_view(bchunks@[0].inodes@));
            }
        }
        let mut new_level: Vec<INode> = Vec::new();
        let mut k: usize = 0;
        while k < bchunks.len()
            invariant
                ctx.wf(),
                ctx.txid == old(ctx).txid,
                ctx.page_size == old(ctx).page_size,
                ctx.hwm >= old(ctx).hwm,
                ctx.freelist.pending@ == old(ctx).freelist.pending@,
                k <= bchunks@.len(),
                new_level@.len() == k,
                forall|j: int|
                    0 <= j < bchunks@.len() ==> wf_entries(#[trigger] bchunks@[j].entries()),
                forall|j: int|
                    0 <= j < new_level@.len() ==> 2 <= (#[trigger] new_level@[j]).pgid < ctx.hwm,
                k > 0 ==> last_count == bchunks@[k - 1].inodes@.len(),
                bchunks@.len() > 1 ==> forall|j: int|
                    0 <= j < bchunks@.len() ==> #[trigger] bchunks@[j].inodes@.len()
                        >= MIN_KEYS_PER_PAGE,
                bchunks@.len() == 1 ==> bchunks@[0].inodes@.len() >= 2,
            decreases bchunks@.len() - k,
        {
            if bchunks[k].inodes.len() == 0 {
                return Err(Error::MMapTooLarge);
            }
            let (id, fk, count) = write_chunk(ctx, &bchunks[k], false)?;
            new_level.push(INode { flags: 0, pgid: id, key: fk, value: Vec::new() });
            last_count = count;
            k = k + 1;
        }
        if new_level.len() == 0 {
            return Err(Error::MMapTooLarge);
        }
        if new_level.len() == 1 {
            proof {
                assert(last_count >= 2);
            }
            level = new_level;
            break;
        }
        proof {
            assert(new_level@.len() < prev_len) by {
                assert(bchunks@.len() >= 2);
                assert(2 * bchunks@.len() <= prev_len);
            }
        }
        level = new_level;
    }
    let root = level[0].pgid;
    Ok((root, false, last_count))
}

/// Serialises a bucket bottom-up: every materialised sub-bucket first, then
/// this bucket's element list. A childless bucket that fits in a quarter
/// page is returned inline; anything else becomes a page tree. The bucket's
/// previous pages are booked for freeing.
fn spill_bucket(ctx: &mut TxAlloc, b: Bucket, depth: usize, is_root: bool) -> (r: Result<
    (InBucket, Option<Vec<u8>>),
    Error,
>)
    requires
        old(ctx).wf(),
        wf_bucket(b, depth as int),
    ensures
        final(ctx).wf(),
        final(ctx).txid == old(ctx).txid,
        final(ctx).page_size == old(ctx).page_size,
        final(ctx).hwm >= old(ctx).hwm,
        match r {
            Ok((hdr, inl)) => {
                &&& hdr.sequence == b.r.bucket_header.sequence
                &&& (inl is Some <==> hdr.root == 0)
                &&& (is_root ==> inl is None)
                &&& (hdr.root != 0 ==> 2 <= hdr.root < final(ctx).hwm)
                &&& (!is_root && b.children@.len() == 0 ==> ((inl is Some) <==> (
                !has_bucket_entry(b.node.entries()) && node_size(b.node.entries(), true)
                    <= old(ctx).page_size / 4)))
                &&& (inl matches Some(v) ==> v@.len() <= old(ctx).page_size / 4
                    && (b.children@.len() == 0 ==> v@ == crate::tree::tree_page_bytes(
                    0,
                    0,
                    b.node.entries(),
                    true,
                )))
            },
            Err(_) => true,
        },
    decreases depth,
{
    let Bucket { r: br, node, children, old_pages } = b;
    let mut node = node;
    let mut children = children;
    let ghost had_children = children@.len() > 0;
    let seqnum = br.bucket_header.sequence;
    // children first, bottom-up
    while children.len() > 0
        invariant
            ctx.wf(),
            ctx.txid == old(ctx).txid,
            ctx.page_size == old(ctx).page_size,
            ctx.hwm >= old(ctx).hwm,
            depth as int >= 1 || children@.len() == 0,
            wf_entries(node.entries()),
            node.is_leaf == b.node.is_leaf,
            children@.len() <= b.children@.len(),
            node.entries().len() <= b.node.entries().len() + (b.children@.len()
                - children@.len()),
            b.node.entries().len() + b.children@.len() < 0x40000002,
            forall|i: int|
                0 <= i < children@.len() ==> wf_bucket((#[trigger] children@[i]).1, depth - 1)
                    && 0 < children@[i].0@.len() <= MAX_KEY_SIZE,
            children@.len() == 0 && b.children@.len() == 0 ==> node == b.node,
        decreases children@.len(),
    {
        let (name, child) = match children.pop() {
            Some(entry) => entry,
            None => {
                return Err(Error::InvalidDatabase(true));
            },
        };
        let (chdr, cinl) = spill_bucket(ctx, child, depth - 1, false)?;
        let mut value: Vec<u8> = Vec::new();
        crate::meta::put_in_bucket(&mut value, chdr);
        match cinl {
            Some(tail) => {
                put_bytes(&mut value, tail.as_slice());
            },
            None => {},
        }
        if value.len() > MAX_VALUE_SIZE as usize {
            return Err(Error::MMapTooLarge);
        }
        let ghost entries_pre = node.entries();
        node.put(name.as_slice(), name.as_slice(), value.as_slice(), 0, BUCKET_LEAF_FLAG);
        proof {
            let e = EntryV {
                flags: BUCKET_LEAF_FLAG,
                pgid: 0,
                key: name@,
                value: value@,
            };
            crate::node::lemma_put_entry(entries_pre, e);
            crate::bucket::lemma_put_entry_caps(entries_pre, e);
        }
    }
    // free the old tree
    let mut p: usize = 0;
    let mut pages = old_pages;
    while p < pages.len()
        invariant
            ctx.wf(),
            ctx.txid == old(ctx).txid,
            ctx.page_size == old(ctx).page_size,
            ctx.hwm >= old(ctx).hwm,
            p <= pages@.len(),
        decreases pages@.len() - p,
    {
        let (pid, pov) = pages[p];
        ctx.free_run(pid, pov)?;
        p = p + 1;
    }
    // decide inline
    let mut has_sub = false;
    let mut i: usize = 0;
    while i < node.inodes.len()
        invariant
            i <= node.inodes@.len(),
            has_sub == exists|j: int|
                0 <= j < i && (#[trigger] node.entries()[j]).flags & BUCKET_LEAF_FLAG != 0,
        decreases node.inodes@.len() - i,
    {
        proof {
            assert(node.inodes@[i as int]@ == node.entries()[i as int]);
        }
        if node.inodes[i].flags & BUCKET_LEAF_FLAG != 0 {
            has_sub = true;
        }
        i = i + 1;
    }
    proof {
        assert(has_sub == has_bucket_entry(node.entries()));
    }
    let quarter = (ctx.page_size / 4) as u64;
    if !is_root && !has_sub && node.size_less_than(quarter) {
        let size = node.size();
        if node.inodes.len() > 0xffff {
            return Err(Error::MMapTooLarge);
        }
        let hdr = InBucket { root: 0, sequence: seqnum };
        proof {
            assert(node_size(node.entries(), node.is_leaf) == tree_page_size(node.entries()));
        }
        let page = write_tree_page(0, 0, &node.inodes, true, size as usize);
        proof {
            assert(page@.subrange(0, tree_page_size(node.entries())) =~= page@);
        }
        return Ok((hdr, Some(page)));
    }
    // a tree; an empty bucket still gets one empty leaf page
    let (root, _, _) = build_tree_or_empty(ctx, node)?;
    Ok((InBucket { root, sequence: seqnum }, None))
}

/// Serialises an element list into a page tree, writing a single empty leaf
/// page when the list is empty.
fn build_tree_or_empty(ctx: &mut TxAlloc, node: NodeW) -> (r: Result<(u64, bool, usize), Error>)
    requires
        old(ctx).wf(),
        wf_entries(node.entries()),
        node.is_leaf,
    ensures
        final(ctx).wf(),
        final(ctx).txid == old(ctx).txid,
        final(ctx).page_size == old(ctx).page_size,
        final(ctx).hwm >= old(ctx).hwm,
        match r {
            Ok((root, root_is_leaf, root_count)) => {
                &&& 2 <= root < final(ctx).hwm
                &&& (!root_is_leaf ==> root_count >= 2)
            },
            Err(_) => true,
        },
{
    if node.inodes.len() == 0 {
        let (id, _, _) = write_chunk_empty(ctx)?;
        return Ok((id, true, 0));
    }
    build_tree(ctx, node, 50)
}

/// Writes one empty leaf page.
fn write_chunk_empty(ctx: &mut TxAlloc) -> (r: Result<(u64, Vec<u8>, usize), Error>)
    requires
        old(ctx).wf(),
    ensures
        final(ctx).wf(),
        final(ctx).txid == old(ctx).txid,
        final(ctx).page_size == old(ctx).page_size,
        final(ctx).hwm >= old(ctx).hwm,
        match r {
            Ok((id, _, _)) => 2 <= id < final(ctx).hwm,
            Err(_) => true,
        },
{
    let id = ctx.allocate(1)?;
    let empty: Vec<INode> = Vec::new();
    proof {
        assert(entries_view(empty@) =~= Seq::<EntryV>::empty());
        assert(crate::node::entries_size(Seq::<EntryV>::empty(), 16) == 0);
        let ps = ctx.page_size as int;
        assert(id * ps + ps <= ctx.hwm * ps) by (nonlinear_arith)
            requires
                id + 1 <= ctx.hwm,
                ps >= 0,
        ;
    }
    let buf = write_tree_page(id, 0, &empty, true, ctx.page_size as usize);
    ctx.write_page(id, buf);
    Ok((id, Vec::new(), 0))
}

/// The sequence with the first occurrence of `x` removed, or unchanged when
/// `x` is absent.
pub open spec fn remove_first(s: Seq<u64>, x: u64) -> Seq<u64>
    decreases s.len(),
{
    if s.len() == 0 {
        s
    } else if s[0] == x {
        s.skip(1)
    } else {
        seq![s[0]] + remove_first(s.skip(1), x)
    }
}

/// Removing at the first position holding `x` is `remove_first`.
proof fn lemma_remove_first_at(s: Seq<u64>, x: u64, i: int)
    requires
        0 <= i < s.len(),
        s[i] == x,
        forall|j: int| 0 <= j < i ==> s[j] != x,
    ensures
        remove_first(s, x) == s.remove(i),
    decreases i,
{
    if i == 0 {
        assert(remove_first(s, x) =~= s.remove(0));
    } else {
        assert(s.skip(1)[i - 1] == s[i]);
        assert forall|j: int| 0 <= j < i - 1 implies s.skip(1)[j] != x by {
            assert(s.skip(1)[j] == s[j + 1]);
        }
        lemma_remove_first_at(s.skip(1), x, i - 1);
        assert(remove_first(s, x) =~= s.remove(i)) by {
            assert(remove_first(s, x) == seq![s[0]] + s.skip(1).remove(i - 1));
        }
    }
}

/// When `x` is absent, `remove_first` changes nothing.
proof fn lemma_remove_first_absent(s: Seq<u64>, x: u64)
    requires
        forall|j: int| 0 <= j < s.len() ==> s[j] != x,
    ensures
        remove_first(s, x) == s,
    decreases s.len(),
{
    if s.len() > 0 {
        assert forall|j: int| 0 <= j < s.skip(1).len() implies s.skip(1)[j] != x by {
            assert(s.skip(1)[j] == s[j + 1]);
        }
        lemma_remove_first_absent(s.skip(1), x);
        assert(remove_first(s, x) =~= s);
    }
}

/// A read-only transaction: a full snapshot of the tree taken at begin. A
/// later commit can change nothing a reader holds.
pub struct TxR {
    /// The authoritative meta at begin.
    pub meta: Meta,
    /// The materialised root bucket.
    pub root: Bucket,
}

impl TxR {
    /// The transaction id.
    pub fn id(&self) -> (r: u64)
        ensures
            r == self.meta.txid,
    {
        self.meta.txid
    }

    /// Readers cannot write.
    pub fn writeable(&self) -> (r: bool)
        ensures
            !r,
    {
        false
    }

    /// The database size in bytes as this transaction sees it.
    pub fn size(&self) -> (r: u64)
        ensures
            self.meta.page_size >= 1 ==> r == if self.meta.pgid > u64::MAX as int / (
            self.meta.page_size as int) {
                u64::MAX
            } else {
                (self.meta.pgid * self.meta.page_size) as u64
            },
    {
        let ps = self.meta.page_size as u64;
        if ps == 0 {
            return u64::MAX;
        }
        if self.meta.pgid > u64::MAX / ps {
            u64::MAX
        } else {
            proof {
                assert(self.meta.pgid * ps <= (u64::MAX / ps) * ps <= u64::MAX)
                    by (nonlinear_arith)
                    requires
                        ps >= 1,
                        self.meta.pgid <= u64::MAX / ps,
                ;
            }
            self.meta.pgid * ps
        }
    }

    /// Reads `key` in the bucket `path` names.
    pub fn get(&self, path: &[Vec<u8>], key: &[u8]) -> (r: Option<Vec<u8>>)
        requires
            wf_bucket(self.root, MAX_BUCKET_DEPTH as int),
            path@.len() < MAX_BUCKET_DEPTH,
        ensures
            match bucket_at(self.root, path_view(path@), 0) {
                None => r is None,
                Some(tb) => match crate::node::find_entry(tb.node.entries(), key@) {
                    Some(e) => if e.flags & BUCKET_LEAF_FLAG == 0 {
                        r is Some && r.unwrap()@ == e.value
                    } else {
                        r is None
                    },
                    None => r is None,
                },
            },
    {
        self.root.get_at(path, 0, key, MAX_BUCKET_DEPTH)
    }

    /// Ends the reader: unregisters it so its snapshot pages may be reused.
    /// The file image, freelist and meta are untouched.
    pub fn rollback(self, db: &mut Bolt) -> (r: Result<(), Error>)
        ensures
            r is Ok,
            final(db).image == old(db).image,
            final(db).freelist == old(db).freelist,
            final(db).page_size == old(db).page_size,
            final(db).freelist_page == old(db).freelist_page,
            final(db).readers@ == remove_first(old(db).readers@, self.meta.txid),
    {
        let mut i: usize = 0;
        let n = db.readers.len();
        while i < n
            invariant
                i <= n,
                n == db.readers@.len(),
                *db == *old(db),
                forall|j: int| 0 <= j < i ==> old(db).readers@[j] != self.meta.txid,
            decreases n - i,
        {
            if db.readers[i] == self.meta.txid {
                proof {
                    lemma_remove_first_at(old(db).readers@, self.meta.txid, i as int);
                }
                db.readers.remove(i);
                return Ok(());
            }
            i = i + 1;
        }
        proof {
            lemma_remove_first_absent(old(db).readers@, self.meta.txid);
        }
        Ok(())
    }
}

/// A writer transaction: the staged new version of the whole tree.
pub struct TxRW {
    /// The authoritative meta at begin.
    pub meta: Meta,
    /// The materialised root bucket with every staged change.
    pub root: Bucket,
    /// The transaction's freelist copy.
    pub freelist: Freelist,
    /// Counters of this transaction's work.
    pub stats: TxStats,
}

/// The writer matches the database it was begun on.
pub open spec fn tx_ok(tx: TxRW, db: Bolt) -> bool {
    &&& wf_db(db)
    &&& wf_bucket(tx.root, MAX_BUCKET_DEPTH as int)
    &&& tx.meta == db_meta(db)
    &&& tx.freelist.wf()
    &&& forall|i: int|
        0 <= i < tx.freelist.ids_seq().len() ==> #[trigger] tx.freelist.ids_seq()[i]
            < tx.meta.pgid
    &&& (tx.freelist.pending@.len() > 0 ==> tx.freelist.pending@.last().txid <= tx.meta.txid)
}

impl TxRW {
    /// The id this transaction will commit as.
    pub fn id(&self) -> (r: u64)
        ensures
            r == self.meta.txid,
    {
        self.meta.txid
    }

    /// Writers write.
    pub fn writeable(&self) -> (r: bool)
        ensures
            r,
    {
        true
    }

    /// A copy of this transaction's statistics.
    pub fn stats(&self) -> (r: TxStats)
        ensures
            r == self.stats,
    {
        self.stats
    }

    /// Reads `key` in the bucket `path` names, seeing the staged changes.
    pub fn get(&self, path: &[Vec<u8>], key: &[u8]) -> (r: Option<Vec<u8>>)
        requires
            wf_bucket(self.root, MAX_BUCKET_DEPTH as int),
            path@.len() < MAX_BUCKET_DEPTH,
        ensures
            match bucket_at(self.root, path_view(path@), 0) {
                None => r is None,
                Some(tb) => match crate::node::find_entry(tb.node.entries(), key@) {
                    Some(e) => if e.flags & BUCKET_LEAF_FLAG == 0 {
                        r is Some && r.unwrap()@ == e.value
                    } else {
                        r is None
                    },
                    None => r is None,
                },
            },
    {
        self.root.get_at(path, 0, key, MAX_BUCKET_DEPTH)
    }

    /// Applies one write operation to the bucket `path` names.
    pub fn apply(&mut self, path: &[Vec<u8>], op: BucketOp) -> (r: Result<u64, Error>)
        requires
            wf_bucket(old(self).root, MAX_BUCKET_DEPTH as int),
            path@.len() < MAX_BUCKET_DEPTH,
        ensures
            wf_bucket(final(self).root, MAX_BUCKET_DEPTH as int),
            final(self).meta == old(self).meta,
            final(self).freelist == old(self).freelist,
            final(self).stats == old(self).stats,
            match bucket_at(old(self).root, path_view(path@), 0) {
                None => r == Result::<u64, Error>::Err(Error::BucketNotFound) && final(self).root
                    == old(self).root,
                Some(tb) => bucket_at(final(self).root, path_view(path@), 0) is Some && op_post(
                    op@,
                    tb,
                    bucket_at(final(self).root, path_view(path@), 0).unwrap(),
                    r,
                    MAX_BUCKET_DEPTH - path@.len(),
                ),
            },
    {
        self.root.apply_at(path, 0, op, MAX_BUCKET_DEPTH)
    }

    /// Creates a bucket under the root.
    pub fn create_bucket(&mut self, name: &[u8]) -> (r: Result<u64, Error>)
        requires
            wf_bucket(old(self).root, MAX_BUCKET_DEPTH as int),
        ensures
            wf_bucket(final(self).root, MAX_BUCKET_DEPTH as int),
            final(self).meta == old(self).meta,
            final(self).freelist == old(self).freelist,
            op_post(OpV::CreateBucket(name@), old(self).root, final(self).root, r, MAX_BUCKET_DEPTH as int),
    {
        let op = BucketOp::CreateBucket(crate::node::slice_to_vec(name));
        let path: Vec<Vec<u8>> = Vec::new();
        let ghost pv = path_view(path@);
        proof {
            assert(pv.len() == 0);
            assert(bucket_at(old(self).root, pv, 0) == Some(old(self).root));
        }
        let r = self.root.apply_at(path.as_slice(), 0, op, MAX_BUCKET_DEPTH);
        proof {
            assert(bucket_at(self.root, pv, 0) == Some(self.root));
        }
        r
    }

    /// Creates a bucket under the root unless it exists.
    pub fn create_bucket_if_not_exists(&mut self, name: &[u8]) -> (r: Result<u64, Error>)
        requires
            wf_bucket(old(self).root, MAX_BUCKET_DEPTH as int),
        ensures
            wf_bucket(final(self).root, MAX_BUCKET_DEPTH as int),
            final(self).meta == old(self).meta,
            final(self).freelist == old(self).freelist,
            op_post(
                OpV::CreateBucketIfNotExists(name@),
                old(self).root,
                final(self).root,
                r,
                MAX_BUCKET_DEPTH as int,
            ),
    {
        let op = BucketOp::CreateBucketIfNotExists(crate::node::slice_to_vec(name));
        let path: Vec<Vec<u8>> = Vec::new();
        let ghost pv = path_view(path@);
        proof {
            assert(bucket_at(old(self).root, pv, 0) == Some(old(self).root));
        }
        let r = self.root.apply_at(path.as_slice(), 0, op, MAX_BUCKET_DEPTH);
        proof {
            assert(bucket_at(self.root, pv, 0) == Some(self.root));
        }
        r
    }

    /// Deletes the bucket `name` under the root, with everything in it.
    pub fn delete_bucket(&mut self, name: &[u8]) -> (r: Result<u64, Error>)
        requires
            wf_bucket(old(self).root, MAX_BUCKET_DEPTH as int),
        ensures
            wf_bucket(final(self).root, MAX_BUCKET_DEPTH as int),
            final(self).meta == old(self).meta,
            final(self).freelist == old(self).freelist,
            op_post(
                OpV::DeleteBucket(name@),
                old(self).root,
                final(self).root,
                r,
                MAX_BUCKET_DEPTH as int,
            ),
    {
        let op = BucketOp::DeleteBucket(crate::node::slice_to_vec(name));
        let path: Vec<Vec<u8>> = Vec::new();
        let ghost pv = path_view(path@);
        proof {
            assert(bucket_at(old(self).root, pv, 0) == Some(old(self).root));
        }
        let r = self.root.apply_at(path.as_slice(), 0, op, MAX_BUCKET_DEPTH);
        proof {
            assert(bucket_at(self.root, pv, 0) == Some(self.root));
        }
        r
    }

    /// Inserts or overwrites `key` with `value` in the bucket `path` names.
    pub fn put(&mut self, path: &[Vec<u8>], key: &[u8], value: &[u8]) -> (r: Result<u64, Error>)
        requires
            wf_bucket(old(self).root, MAX_BUCKET_DEPTH as int),
            path@.len() < MAX_BUCKET_DEPTH,
        ensures
            wf_bucket(final(self).root, MAX_BUCKET_DEPTH as int),
            final(self).meta == old(self).meta,
            final(self).freelist == old(self).freelist,
            match bucket_at(old(self).root, path_view(path@), 0) {
                None => r == Result::<u64, Error>::Err(Error::BucketNotFound),
                Some(tb) => bucket_at(final(self).root, path_view(path@), 0) is Some && op_post(
                    OpV::Put(key@, value@),
                    tb,
                    bucket_at(final(self).root, path_view(path@), 0).unwrap(),
                    r,
                    MAX_BUCKET_DEPTH - path@.len(),
                ),
            },
    {
        let op = BucketOp::Put(
            crate::node::slice_to_vec(key),
            crate::node::slice_to_vec(value),
        );
        self.root.apply_at(path, 0, op, MAX_BUCKET_DEPTH)
    }

    /// Deletes `key` in the bucket `path` names.
    pub fn delete(&mut self, path: &[Vec<u8>], key: &[u8]) -> (r: Result<u64, Error>)
        requires
            wf_bucket(old(self).root, MAX_BUCKET_DEPTH as int),
            path@.len() < MAX_BUCKET_DEPTH,
        ensures
            wf_bucket(final(self).root, MAX_BUCKET_DEPTH as int),
            final(self).meta == old(self).meta,
            final(self).freelist == old(self).freelist,
            match bucket_at(old(self).root, path_view(path@), 0) {
                None => r == Result::<u64, Error>::Err(Error::BucketNotFound),
                Some(tb) => bucket_at(final(self).root, path_view(path@), 0) is Some && op_post(
                    OpV::DeleteKey(key@),
                    tb,
                    bucket_at(final(self).root, path_view(path@), 0).unwrap(),
                    r,
                    MAX_BUCKET_DEPTH - path@.len(),
                ),
            },
    {
        let op = BucketOp::DeleteKey(crate::node::slice_to_vec(key));
        self.root.apply_at(path, 0, op, MAX_BUCKET_DEPTH)
    }

    /// Abandons the transaction: everything staged is dropped, and the
    /// database value was never touched.
    pub fn rollback(self) -> (r: Result<(), Error>)
        ensures
            r is Ok,
    {
        Ok(())
    }

    /// Publishes the staged tree: serialises it copy-on-write into fresh
    /// pages, writes the freelist page, and installs a new meta with the
    /// next transaction id. On any failure the database is byte-identical
    /// to what it was.
    #[verifier::rlimit(100)]
    #[verifier::spinoff_prover]
    pub fn commit(self, db: &mut Bolt) -> (r: Result<(), Error>)
        requires
            tx_ok(self, *old(db)),
        ensures
            final(db).page_size == old(db).page_size,
            final(db).readers == old(db).readers,
            r is Err ==> *final(db) == *old(db),
            r is Ok ==> wf_db(*final(db)) && db_meta(*final(db)).txid == self.meta.txid + 1
                && db_meta(*final(db)).page_size == old(db).page_size && db_meta(
                *final(db),
            ).freelist == final(db).freelist_page.0 && db_meta(*final(db)) == spec_meta_at(
                final(db).image@,
                old(db).page_size as int,
                ((self.meta.txid + 1) % 2) as int,
            ),
    {
        let ghost m_txid = self.meta.txid;
        let prepared = commit_prepare(self, &db.image, &db.readers, db.freelist_page, db.page_size);
        match prepared {
            Err(e) => Err(e),
            Ok((new_image, fl_final, fl_page)) => {
                db.image = new_image;
                db.freelist = fl_final;
                db.freelist_page = fl_page;
                Ok(())
            },
        }
    }
}

/// Assembles everything a commit publishes, touching nothing: the new image,
/// the released freelist and the freelist page run. The returned pieces
/// satisfy the database well-formedness exactly.
#[verifier::rlimit(100)]
#[verifier::spinoff_prover]
fn commit_prepare(
    tx: TxRW,
    image: &Vec<u8>,
    readers: &Vec<u64>,
    old_fl_page: (u64, u32),
    page_size: u32,
) -> (r: Result<(Vec<u8>, Freelist, (u64, u32)), Error>)
    requires
        wf_bucket(tx.root, MAX_BUCKET_DEPTH as int),
        tx.freelist.wf(),
        128 <= page_size <= 65536,
        4 <= tx.meta.pgid,
        tx.meta.pgid * page_size <= image@.len(),
        forall|i: int|
            0 <= i < tx.freelist.ids_seq().len() ==> #[trigger] tx.freelist.ids_seq()[i]
                < tx.meta.pgid,
        tx.freelist.pending@.len() > 0 ==> tx.freelist.pending@.last().txid <= tx.meta.txid,
    ensures
        match r {
            Ok((new_image, fl, flp)) => {
                let m0 = spec_meta_at(new_image@, page_size as int, 0);
                let m1 = spec_meta_at(new_image@, page_size as int, 1);
                let m = if m0.txid >= m1.txid {
                    m0
                } else {
                    m1
                };
                &&& new_image@.len() >= 2 * page_size
                &&& meta_valid(m0)
                &&& meta_valid(m1)
                &&& m0.txid != m1.txid
                &&& m.txid == tx.meta.txid + 1
                &&& m == spec_meta_at(new_image@, page_size as int, ((tx.meta.txid + 1) % 2) as int)
                &&& m.page_size == page_size
                &&& m.freelist == flp.0
                &&& 4 <= m.pgid
                &&& m.pgid * page_size <= new_image@.len()
                &&& fl.wf()
                &&& forall|i: int|
                    0 <= i < fl.ids_seq().len() ==> #[trigger] fl.ids_seq()[i] < m.pgid
                &&& (fl.pending@.len() > 0 ==> fl.pending@.last().txid <= m.txid)
                &&& 2 <= flp.0
                &&& flp.0 + flp.1 < m.pgid
                &&& flp.1 < 0xfffffffeu32
            },
            Err(_) => true,
        },
{
    let TxRW { meta: m, root, freelist, stats: _ } = tx;
    if m.txid == u64::MAX {
        return Err(Error::Other);
    }
    let txid_new = m.txid + 1;
    let ilen = image.len();
    proof {
        assert(m.pgid * page_size <= ilen);
    }
    let mut ctx = TxAlloc {
        freelist,
        hwm: m.pgid,
        w: TxW { pages: Vec::new() },
        txid: txid_new,
        page_size,
    };
    // free the old freelist page, then serialise the whole tree bottom-up
    let root_hdr = stage_tree(&mut ctx, root, old_fl_page)?;
    // the freelist page: its size is known before the page is allocated
    let (fl_id, fl_pages) = stage_freelist_page(&mut ctx)?;
    // build the new meta
    let mut new_meta = Meta {
        magic: MAGIC,
        version: VERSION,
        page_size,
        flags: 0,
        root: root_hdr,
        freelist: fl_id,
        pgid: ctx.hwm,
        txid: txid_new,
        checksum: 0,
    };
    let cs = compute_checksum(&new_meta);
    new_meta.checksum = cs;
    let slot = txid_new % 2;
    let meta_buf = make_meta_page(page_size, slot, new_meta);
    // everything below happens on a scratch image
    let new_image = assemble_image(image, page_size, &ctx.w, ctx.hwm, slot, &meta_buf)?;
    // release what no open reader can still see
    let limit = reader_limit(readers, txid_new);
    let ghost fl_pre_release = ctx.freelist;
    let mut fl_final = ctx.freelist;
    fl_final.release(limit);
    // validate the candidate state before publishing anything
    let cand_ok = validate_candidate(&new_image, page_size, txid_new, ctx.hwm, fl_id, fl_pages);
    if !cand_ok {
        return Err(Error::InvalidDatabase(false));
    }
    proof {
        lemma_commit_freelist(
            fl_pre_release,
            fl_final,
            limit,
            spec_meta_at(new_image@, page_size as int, 0),
            spec_meta_at(new_image@, page_size as int, 1),
            txid_new,
        );
    }
    Ok((new_image, fl_final, (fl_id, (fl_pages - 1) as u32)))
}

/// After a release, the published freelist still books only pages below the
/// new high-water mark, and its pending sets stay no newer than the old
/// transaction.
proof fn lemma_commit_freelist(
    fl_pre: Freelist,
    fl_post: Freelist,
    limit: u64,
    m0: Meta,
    m1: Meta,
    old_txid: u64,
)
    requires
        forall|x: u64| fl_post.in_cache(x) <==> fl_pre.in_cache(x),
        fl_post.pending@ == fl_pre.pending@.skip(
            crate::freelist::spec_release_cut(fl_pre.pending@, limit),
        ),
        forall|i: int|
            0 <= i < fl_pre.ids_seq().len() ==> #[trigger] fl_pre.ids_seq()[i] < (if m0.txid
                >= m1.txid {
                m0
            } else {
                m1
            }).pgid,
        fl_pre.pending@.len() > 0 ==> fl_pre.pending@.last().txid <= old_txid,
        forall|i: int, j: int|
            0 <= i < j < fl_pre.pending@.len() ==> fl_pre.pending@[i].txid
                < fl_pre.pending@[j].txid,
    ensures
        forall|i: int|
            0 <= i < fl_post.ids_seq().len() ==> #[trigger] fl_post.ids_seq()[i] < (if m0.txid
                >= m1.txid {
                m0
            } else {
                m1
            }).pgid,
        fl_post.pending@.len() > 0 ==> fl_post.pending@.last().txid <= old_txid,
{
    let bound = (if m0.txid >= m1.txid {
        m0
    } else {
        m1
    }).pgid;
    assert forall|i: int|
        0 <= i < fl_post.ids_seq().len() implies #[trigger] fl_post.ids_seq()[i] < bound by {
        let x = fl_post.ids_seq()[i];
        assert(fl_post.ids_seq().contains(x));
        assert(fl_post.in_cache(x));
        assert(fl_pre.in_cache(x));
        let w = choose|w: int| 0 <= w < fl_pre.ids_seq().len() && fl_pre.ids_seq()[w] == x;
    }
    if fl_post.pending@.len() > 0 {
        let cut = crate::freelist::spec_release_cut(fl_pre.pending@, limit);
        crate::freelist::lemma_release_cut_bounds(fl_pre.pending@, limit);
        assert(fl_post.pending@.len() == fl_pre.pending@.len() - cut);
        assert(fl_post.pending@.last() == fl_pre.pending@.skip(cut)[fl_pre.pending@.len() - cut
            - 1]);
        assert(fl_post.pending@.last() == fl_pre.pending@[fl_pre.pending@.len() - 1]);
    }
}

/// The meta a fresh database writes into one of its two slots.
fn fresh_meta(page_size: u32, txid: u64) -> (r: Meta)
    ensures
        meta_valid(r),
        r == (Meta {
            magic: MAGIC,
            version: VERSION,
            page_size,
            flags: 0,
            root: InBucket { root: 3, sequence: 0 },
            freelist: 2,
            pgid: 4,
            txid,
            checksum: r.checksum,
        }),
{
    let mut m = Meta {
        magic: MAGIC,
        version: VERSION,
        page_size,
        flags: 0,
        root: InBucket { root: 3, sequence: 0 },
        freelist: 2,
        pgid: 4,
        txid,
        checksum: 0,
    };
    let cs = compute_checksum(&m);
    m.checksum = cs;
    proof {
        assert(meta_payload(m) =~= meta_payload(Meta { checksum: 0, ..m }));
    }
    m
}

impl Bolt {
    /// A fresh database: two meta pages, an empty freelist page and an
    /// empty root leaf page. Creation never fails for a page size in range:
    /// the root page of the new file parses to an empty leaf, so every key
    /// reads as absent.
    #[verifier::rlimit(100)]
    #[verifier::spinoff_prover]
    pub fn new(page_size: u32) -> (r: Result<Bolt, Error>)
        requires
            128 <= page_size <= 65536,
        ensures
            r is Ok,
            match r {
                Ok(db) => {
                    &&& wf_db(db)
                    &&& db.page_size == page_size
                    &&& db.readers@.len() == 0
                    &&& db.freelist.pending@.len() == 0
                    &&& db.freelist.free@.len() == 0
                    &&& db_meta(db).txid == 1
                    &&& db_meta(db).root == (InBucket { root: 3, sequence: 0 })
                    &&& db_meta(db).freelist == 2
                    &&& db_meta(db).pgid == 4
                    &&& spec_parse_tree_page(
                        db.image@.subrange(3 * page_size, 4 * page_size),
                        true,
                    ) == Some(Seq::<EntryV>::empty())
                },
                Err(_) => true,
            },
    {
        let ps = page_size as usize;
        let m0 = fresh_meta(page_size, 0);
        let m1 = fresh_meta(page_size, 1);
        let mut image = make_meta_page(page_size, 0, m0);
        let mut p1 = make_meta_page(page_size, 1, m1);
        let ghost p1v = p1@;
        image.append(&mut p1);
        let empty_ids: Vec<u64> = Vec::new();
        let mut p2 = write_freelist_page(2, 0, &empty_ids, ps);
        let ghost p2v = p2@;
        image.append(&mut p2);
        let empty_nodes: Vec<INode> = Vec::new();
        proof {
            assert(entries_view(empty_nodes@) =~= Seq::<EntryV>::empty());
            assert(crate::node::entries_size(Seq::<EntryV>::empty(), 16) == 0);
        }
        let mut p3 = write_tree_page(3, 0, &empty_nodes, true, ps);
        let ghost p3v = p3@;
        image.append(&mut p3);
        let db = Bolt {
            page_size,
            image,
            freelist: Freelist::new(),
            freelist_page: (2, 0),
            readers: Vec::new(),
        };
        proof {
            let iv = db.image@;
            let psn = page_size as int;
            // the two meta regions carry the two fresh metas
            assert(iv.subrange(16, 80) =~= meta_bytes(m0));
            crate::meta::lemma_meta_region(iv, 16, m0);
            assert(iv.subrange(psn + 16, psn + 80) =~= p1v.subrange(16, 80));
            assert(iv.subrange(psn + 16, psn + 80) =~= meta_bytes(m1));
            crate::meta::lemma_meta_region(iv, psn + 16, m1);
            assert(spec_meta_at(iv, psn, 0) == m0);
            assert(spec_meta_at(iv, psn, 1) == m1);
            assert(db_meta(db) == m1);
            assert(db.freelist.ids_seq() =~= Seq::<u64>::empty());
            assert(pending_seq(db.freelist.pending@) == Seq::<u64>::empty()) by {
                assert(db.freelist.pending@ =~= Seq::<PendingTx>::empty());
            }
            assert(wf_db(db));
            // the root page region is exactly the empty leaf page written
            assert(iv.subrange(3 * psn, 4 * psn) =~= p3v);
            assert(p3v =~= crate::tree::tree_page_bytes(3, 0, Seq::<EntryV>::empty(), true)
                + p3v.subrange(PAGE_HEADER_SIZE as int, psn)) by {
                assert(p3v.subrange(0, PAGE_HEADER_SIZE as int) == crate::tree::tree_page_bytes(
                    3,
                    0,
                    Seq::<EntryV>::empty(),
                    true,
                ));
            }
            crate::tree::lemma_tree_page_roundtrip(
                3,
                0,
                Seq::<EntryV>::empty(),
                true,
                p3v.subrange(PAGE_HEADER_SIZE as int, psn),
            );
        }
        Ok(db)
    }

    /// Opens a database from its file bytes: picks the authoritative meta,
    /// loads the freelist, and validates the whole frame.
    #[verifier::rlimit(100)]
    #[verifier::spinoff_prover]
    pub fn open(image: Vec<u8>) -> (r: Result<Bolt, Error>)
        ensures
            match r {
                Ok(db) => {
                    &&& wf_db(db)
                    &&& db.readers@.len() == 0
                    &&& db.freelist.pending@.len() == 0
                    &&& db.image@ == image@
                    &&& ({
                        // the loaded free list is exactly the id array of the
                        // authoritative meta's freelist page
                        let m = db_meta(db);
                        let psn = db.page_size as int;
                        let off = m.freelist * psn;
                        let ov = crate::bytes::u32_le(image@.subrange(off + 12, off + 16)) as int;
                        crate::freelist::spec_parse_freelist(
                            image@.subrange(off, off + (ov + 1) * psn),
                        ) == Some(db.freelist.free@)
                    })
                },
                Err(_) => true,
            },
    {
        if image.len() < 28 {
            return Err(Error::FileSizeTooSmall(image.len() as u64));
        }
        let ps = crate::bytes::get_u32(image.as_slice(), 24);
        if ps < 128 || ps > 65536 {
            return Err(Error::InvalidDatabase(true));
        }
        if (image.len() as u64) < 2 * (ps as u64) {
            return Err(Error::FileSizeTooSmall(image.len() as u64));
        }
        let m0 = meta_at(&image, ps, 0);
        let m1 = meta_at(&image, ps, 1);
        match m0.validate() {
            Err(e) => {
                return Err(e);
            },
            Ok(()) => {},
        }
        match m1.validate() {
            Err(e) => {
                return Err(e);
            },
            Ok(()) => {},
        }
        if m0.txid == m1.txid {
            return Err(Error::InvalidDatabase(true));
        }
        let m = if m0.txid >= m1.txid {
            m0
        } else {
            m1
        };
        let run = read_page_run(&image, ps, m.freelist)?;
        let header = parse_page_header(run.as_slice());
        let ids = parse_freelist_page(run.as_slice())?;
        // a loaded freelist must be strictly sorted with in-range ids
        let mut i: usize = 0;
        while i < ids.len()
            invariant
                i <= ids@.len(),
                forall|j: int| 0 <= j < i ==> 2 <= #[trigger] ids@[j],
                forall|j: int| 0 < j < i ==> ids@[j - 1] < #[trigger] ids@[j],
            decreases ids@.len() - i,
        {
            if ids[i] < 2 {
                return Err(Error::InvalidDatabase(true));
            }
            if i > 0 && ids[i - 1] >= ids[i] {
                return Err(Error::InvalidDatabase(true));
            }
            i = i + 1;
        }
        proof {
            assert forall|a: int, b: int| 0 <= a < b < ids@.len() implies ids@[a] < ids@[b] by {
                lemma_ids_chain(ids@, a, b);
            }
        }
        let fl = Freelist { free: ids, pending: Vec::new() };
        proof {
            assert(fl.ids_seq() =~= fl.free@);
        }
        let db = Bolt {
            page_size: ps,
            image,
            freelist: fl,
            freelist_page: (m.freelist, header.overflow),
            readers: Vec::new(),
        };
        if !check_db(&db) {
            return Err(Error::InvalidDatabase(true));
        }
        Ok(db)
    }

    /// The authoritative meta.
    pub fn meta(&self) -> (r: Result<Meta, Error>)
        requires
            wf_db(*self),
        ensures
            r == spec_select_meta(self.image@, self.page_size as int),
            r matches Ok(m) && m == db_meta(*self),
    {
        let r = select_meta(&self.image, self.page_size);
        proof {
            assert(spec_select_meta(self.image@, self.page_size as int) is Ok);
        }
        r
    }

    /// Begins a read-only transaction: a full snapshot of the tree, and a
    /// registration so the pages it sees are not reused while it is open.
    pub fn begin(&mut self) -> (r: Result<TxR, Error>)
        requires
            wf_db(*old(self)),
        ensures
            wf_db(*final(self)),
            final(self).image == old(self).image,
            final(self).freelist == old(self).freelist,
            final(self).page_size == old(self).page_size,
            final(self).freelist_page == old(self).freelist_page,
            match r {
                Ok(tx) => wf_bucket(tx.root, MAX_BUCKET_DEPTH as int) && tx.meta == db_meta(
                    *old(self),
                ) && tx.root.r.bucket_header == db_meta(*old(self)).root && final(self).readers@
                    == old(self).readers@.push(tx.meta.txid) && reader_root_parses(
                    tx.root,
                    *old(self),
                ),
                Err(_) => *final(self) == *old(self),
            },
    {
        let m = self.meta()?;
        let root = read_bucket(&self.image, self.page_size, m.root, None, MAX_BUCKET_DEPTH)?;
        self.readers.push(m.txid);
        Ok(TxR { meta: m, root })
    }

    /// Begins the writer transaction: a private copy of the tree and the
    /// freelist; the database itself is untouched until commit.
    pub fn begin_rw(&self) -> (r: Result<TxRW, Error>)
        requires
            wf_db(*self),
        ensures
            match r {
                Ok(tx) => tx_ok(tx, *self) && tx.root.r.bucket_header == db_meta(*self).root
                    && reader_root_parses(tx.root, *self) && tx.stats == (TxStats {
                    page_count: 0,
                    page_alloc: 0,
                    cursor_count: 0,
                    node_count: 0,
                    node_deref: 0,
                    rebalance: 0,
                    split: 0,
                    spill: 0,
                    write: 0,
                }),
                Err(_) => true,
            },
    {
        let m = self.meta()?;
        let root = read_bucket(&self.image, self.page_size, m.root, None, MAX_BUCKET_DEPTH)?;
        let fl = clone_freelist(&self.freelist);
        proof {
            assert forall|i: int|
                0 <= i < fl.ids_seq().len() implies #[trigger] fl.ids_seq()[i] < m.pgid by {
                assert(fl.ids_seq() == self.freelist.ids_seq());
            }
            if fl.pending@.len() > 0 {
                assert(fl.pending@.last().txid == self.freelist.pending@.last().txid);
            }
        }
        Ok(TxRW { meta: m, root, freelist: fl, stats: TxStats::new() })
    }

    /// Page information for `id`: its kind, element count and overflow from
    /// the page header, "free" when the freelist books the id, or nothing
    /// past the high-water mark.
    #[verifier::rlimit(100)]
    #[verifier::spinoff_prover]
    pub fn page(&self, id: u64) -> (r: Result<Option<PageInfo>, Error>)
        requires
            wf_db(*self),
        ensures
            match r {
                Ok(None) => id >= db_meta(*self).pgid,
                Ok(Some(info)) => {
                    let psn = self.page_size as int;
                    let off = id * psn;
                    &&& id < db_meta(*self).pgid
                    &&& info.id == id
                    &&& info.count == crate::bytes::u16_le(
                        self.image@.subrange(off + 10, off + 12),
                    )
                    &&& info.overflow_count == crate::bytes::u32_le(
                        self.image@.subrange(off + 12, off + 16),
                    )
                    &&& info.t@ == if self.freelist.in_cache(id) {
                        "free"@
                    } else {
                        crate::page::spec_page_type(
                            crate::bytes::u16_le(self.image@.subrange(off + 8, off + 10)),
                        )
                    }
                },
                Err(_) => true,
            },
    {
        let m = self.meta()?;
        if id >= m.pgid {
            return Ok(None);
        }
        let run = read_page_run(&self.image, self.page_size, id)?;
        let header = parse_page_header(run.as_slice());
        proof {
            let psn = self.page_size as int;
            let off = id * psn;
            assert(run@.subrange(8, 10) =~= self.image@.subrange(off + 8, off + 10));
            assert(run@.subrange(10, 12) =~= self.image@.subrange(off + 10, off + 12));
            assert(run@.subrange(12, 16) =~= self.image@.subrange(off + 12, off + 16));
        }
        let t = if self.freelist.freed(id) {
            "free"
        } else {
            header.page_type()
        };
        Ok(
            Some(
                PageInfo {
                    id,
                    t,
                    count: header.count as u64,
                    overflow_count: header.overflow as u64,
                },
            ),
        )
    }
}

/// Chained strict order gives total strict order on ids.
proof fn lemma_ids_chain(s: Seq<u64>, a: int, b: int)
    requires
        forall|j: int| 0 < j < s.len() ==> s[j - 1] < #[trigger] s[j],
        0 <= a < b < s.len(),
    ensures
        s[a] < s[b],
    decreases b - a,
{
    if b > a + 1 {
        lemma_ids_chain(s, a, b - 1);
    }
}

/// The release horizon: one below the oldest open reader, or the committing
/// transaction itself when no reader is open.
fn reader_limit(readers: &Vec<u64>, txid_new: u64) -> (r: u64)
    ensures
        r <= txid_new,
{
    let mut limit = txid_new;
    let mut ri: usize = 0;
    while ri < readers.len()
        invariant
            ri <= readers@.len(),
            limit <= txid_new,
        decreases readers@.len() - ri,
    {
        let rt = readers[ri];
        let rl = if rt == 0 {
            0
        } else {
            rt - 1
        };
        if rl < limit {
            limit = rl;
        }
        ri = ri + 1;
    }
    limit
}

/// Validates a freshly assembled image and its framing against what commit
/// meant to publish; exactly the meta-side conjuncts of `wf_db`.
#[verifier::rlimit(100)]
fn validate_candidate(
    image: &Vec<u8>,
    page_size: u32,
    txid_new: u64,
    hwm: u64,
    fl_id: u64,
    fl_pages: u64,
) -> (r: bool)
    requires
        128 <= page_size <= 65536,
        fl_pages >= 1,
    ensures
        r ==> ({
            let m0 = spec_meta_at(image@, page_size as int, 0);
            let m1 = spec_meta_at(image@, page_size as int, 1);
            let m = if m0.txid >= m1.txid {
                m0
            } else {
                m1
            };
            &&& image@.len() >= 2 * page_size
            &&& meta_valid(m0)
            &&& meta_valid(m1)
            &&& m0.txid != m1.txid
            &&& m.txid == txid_new
            &&& m == spec_meta_at(image@, page_size as int, (txid_new % 2) as int)
            &&& m.page_size == page_size
            &&& 4 <= m.pgid
            &&& m.pgid == hwm
            &&& m.pgid * page_size <= image@.len()
            &&& m.freelist == fl_id
            &&& 2 <= fl_id
            &&& fl_id + (fl_pages - 1) < m.pgid
            &&& fl_pages - 1 < 0xfffffffeu64
        }),
{
    let ilen = image.len();
    if (ilen as u64) < 2 * (page_size as u64) {
        return false;
    }
    let m0 = meta_at(image, page_size, 0);
    let m1 = meta_at(image, page_size, 1);
    if m0.validate().is_err() || m1.validate().is_err() {
        return false;
    }
    if m0.txid == m1.txid {
        return false;
    }
    let m = if m0.txid >= m1.txid {
        m0
    } else {
        m1
    };
    let ps64 = page_size as u64;
    if m.txid != txid_new || m.page_size != page_size || m.pgid != hwm || m.pgid < 4 {
        return false;
    }
    if m.freelist != fl_id {
        return false;
    }
    let slot_meta = if txid_new % 2 == 0 {
        m0
    } else {
        m1
    };
    if slot_meta != m {
        return false;
    }
    if m.pgid > u64::MAX / ps64 {
        return false;
    }
    proof {
        assert(m.pgid * ps64 <= (u64::MAX / ps64) * ps64 <= u64::MAX) by (nonlinear_arith)
            requires
                ps64 >= 1,
                m.pgid <= u64::MAX / ps64,
        ;
    }
    if m.pgid * ps64 > ilen as u64 {
        return false;
    }
    if fl_id < 2 || fl_pages - 1 >= 0xfffffffeu64 || fl_id > u64::MAX - (fl_pages - 1) || fl_id
        + (fl_pages - 1) >= m.pgid {
        return false;
    }
    true
}

/// Frees the old freelist page and serialises the whole staged tree.
fn stage_tree(ctx: &mut TxAlloc, root: Bucket, old_fl_page: (u64, u32)) -> (r: Result<
    InBucket,
    Error,
>)
    requires
        old(ctx).wf(),
        wf_bucket(root, MAX_BUCKET_DEPTH as int),
    ensures
        final(ctx).wf(),
        final(ctx).txid == old(ctx).txid,
        final(ctx).page_size == old(ctx).page_size,
        final(ctx).hwm >= old(ctx).hwm,
        match r {
            Ok(hdr) => hdr.root != 0 ==> 2 <= hdr.root < final(ctx).hwm,
            Err(_) => true,
        },
{
    ctx.free_run(old_fl_page.0, old_fl_page.1)?;
    let (root_hdr, _) = spill_bucket(ctx, root, MAX_BUCKET_DEPTH, true)?;
    Ok(root_hdr)
}

/// Allocates and stages the freelist page carrying every booked id.
#[verifier::rlimit(100)]
fn stage_freelist_page(ctx: &mut TxAlloc) -> (r: Result<(u64, u64), Error>)
    requires
        old(ctx).wf(),
    ensures
        final(ctx).wf(),
        final(ctx).txid == old(ctx).txid,
        final(ctx).page_size == old(ctx).page_size,
        final(ctx).hwm >= old(ctx).hwm,
        final(ctx).freelist.pending@ == old(ctx).freelist.pending@,
        match r {
            Ok((fl_id, fl_pages)) => {
                &&& 2 <= fl_id
                &&& 1 <= fl_pages
                &&& fl_id + fl_pages <= final(ctx).hwm
                &&& fl_pages - 1 < 0xfffffffeu64
                &&& final(ctx).freelist.ids_seq().len() <= usize::MAX
            },
            Err(_) => true,
        },
{
    let count_bound = match count_booked(&ctx.freelist) {
        Some(c) => c,
        None => {
            return Err(Error::MMapTooLarge);
        },
    };
    if count_bound > usize::MAX as u64 || count_bound > (u64::MAX - 24) / 8 {
        return Err(Error::MMapTooLarge);
    }
    let fl_bytes_bound = count_bound * 8 + 24;
    let ps64 = ctx.page_size as u64;
    if fl_bytes_bound > u64::MAX - ps64 {
        return Err(Error::MMapTooLarge);
    }
    let fl_pages = (fl_bytes_bound + ps64 - 1) / ps64;
    let fl_pages = if fl_pages == 0 {
        1u64
    } else {
        fl_pages
    };
    if fl_pages > 0x7fffffff {
        return Err(Error::MMapTooLarge);
    }
    let fl_id = ctx.allocate(fl_pages as usize)?;
    let ids = merged_ids(&ctx.freelist);
    proof {
        let psn = ctx.page_size as u64;
        let q0 = ((fl_bytes_bound + psn - 1) as u64) / psn;
        assert(fl_pages * psn >= fl_bytes_bound && fl_id * psn + fl_pages * psn <= ctx.hwm
            * psn) by (nonlinear_arith)
            requires
                psn >= 128,
                fl_pages == if q0 == 0 {
                    1u64
                } else {
                    q0
                },
                q0 == ((fl_bytes_bound + psn - 1) as u64) / psn,
                fl_id + fl_pages <= ctx.hwm,
                fl_bytes_bound <= u64::MAX - psn,
        ;
        assert((fl_pages * psn) % (psn as int) == 0 && fl_pages * psn >= psn) by (nonlinear_arith)
            requires
                psn >= 1,
                fl_pages >= 1,
        ;
    }
    let fl_buf_len = fl_pages * ps64;
    if fl_buf_len > usize::MAX as u64 {
        return Err(Error::MMapTooLarge);
    }
    let fl_buf = write_freelist_page(fl_id, (fl_pages - 1) as u32, &ids, fl_buf_len as usize);
    ctx.write_page(fl_id, fl_buf);
    proof {
        assert(ctx.freelist.ids_seq().len() <= usize::MAX) by {
            assert(ids@.len() <= usize::MAX);
        }
    }
    Ok((fl_id, fl_pages))
}

/// Builds the new file image on a scratch copy: grows it to the high-water
/// mark, lays down every staged page, and writes the new meta page.
fn assemble_image(
    image: &Vec<u8>,
    page_size: u32,
    w: &TxW,
    hwm: u64,
    slot: u64,
    meta_buf: &Vec<u8>,
) -> (r: Result<Vec<u8>, Error>)
    requires
        128 <= page_size <= 65536,
{
    let mut new_image = clone_vec_u8(image);
    let need_pages = hwm;
    let ps64 = page_size as u64;
    if need_pages > u64::MAX / ps64 {
        return Err(Error::MMapTooLarge);
    }
    proof {
        assert(hwm * ps64 <= (u64::MAX / ps64) * ps64 <= u64::MAX) by (nonlinear_arith)
            requires
                ps64 >= 1,
                hwm <= u64::MAX / ps64,
        ;
    }
    let need = hwm * ps64;
    if need > usize::MAX as u64 {
        return Err(Error::MMapTooLarge);
    }
    if (need as usize) > new_image.len() {
        new_image.resize(need as usize, 0u8);
    }
    let mut k: usize = 0;
    let n_pages = w.pages.len();
    while k < n_pages
        invariant
            k <= n_pages,
            n_pages == w.pages@.len(),
            128 <= page_size <= 65536,
        decreases n_pages - k,
    {
        write_page_into(&mut new_image, page_size, w.pages[k].0, &w.pages[k].1)?;
        k = k + 1;
    }
    write_page_into(&mut new_image, page_size, slot, meta_buf)?;
    Ok(new_image)
}

/// Exactly how many ids the freelist books, or nothing when the count
/// leaves 64 bits.
fn count_booked(fl: &Freelist) -> (r: Option<u64>)
    ensures
        r matches Some(c) ==> fl.ids_seq().len() == c,
{
    let mut total: u64 = fl.free.len() as u64;
    proof {
        assert(fl.pending@.take(0) =~= Seq::<PendingTx>::empty());
        assert(pending_seq(fl.pending@.take(0)) == Seq::<u64>::empty());
    }
    let mut t: usize = 0;
    while t < fl.pending.len()
        invariant
            t <= fl.pending@.len(),
            fl.free@.len() + pending_seq(fl.pending@.take(t as int)).len() == total,
        decreases fl.pending@.len() - t,
    {
        let add = fl.pending[t].ids.len() as u64;
        if total > u64::MAX - add {
            return None;
        }
        proof {
            crate::freelist::lemma_pending_seq_take_step(fl.pending@, t as int);
        }
        total = total + add;
        t = t + 1;
    }
    proof {
        assert(fl.pending@.take(fl.pending@.len() as int) =~= fl.pending@);
    }
    Some(total)
}

} // verus!
