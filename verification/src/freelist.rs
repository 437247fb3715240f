//! The freelist: reusable and pending-reuse page ids.
//!
//! `free` holds the ids that may be reallocated at once, strictly sorted.
//! `pending` holds, per transaction id, the ids freed by that transaction;
//! they join `free` only once every reader that might still see them has
//! closed. No id is ever booked twice: the concatenation of `free` and all
//! pending lists has no duplicates, and never holds an id below 2 (the two
//! meta pages are never freed).

use vstd::prelude::*;

use crate::errors::Error;
use crate::page::{Page, CoerciblePage, FREE_LIST_PAGE_FLAG};

verus! {

/// Strictly ascending: sorted with no duplicates.
pub open spec fn sorted_u64(s: Seq<u64>) -> bool {
    forall|i: int, j: int| 0 <= i < j < s.len() ==> s[i] < s[j]
}

/// No value appears twice.
pub open spec fn distinct_u64(s: Seq<u64>) -> bool {
    forall|i: int, j: int| 0 <= i < j < s.len() ==> s[i] != s[j]
}

/// The position of the first element not below `x`.
pub open spec fn lb_u64(s: Seq<u64>, x: u64) -> int
    decreases s.len(),
{
    if s.len() == 0 {
        0
    } else if s[0] < x {
        1 + lb_u64(s.skip(1), x)
    } else {
        0
    }
}

/// Basic facts about the insertion point.
pub proof fn lemma_lb_u64_props(s: Seq<u64>, x: u64)
    ensures
        0 <= lb_u64(s, x) <= s.len(),
        forall|i: int| 0 <= i < lb_u64(s, x) ==> s[i] < x,
        lb_u64(s, x) < s.len() ==> s[lb_u64(s, x)] >= x,
    decreases s.len(),
{
    if s.len() > 0 && s[0] < x {
        lemma_lb_u64_props(s.skip(1), x);
        let lb = lb_u64(s, x);
        assert forall|i: int| 0 <= i < lb implies s[i] < x by {
            if i > 0 {
                assert(s.skip(1)[i - 1] == s[i]);
            }
        }
        if lb < s.len() {
            assert(s.skip(1)[lb - 1] == s[lb]);
        }
    }
}

/// The insertion point is unique.
pub proof fn lemma_lb_u64_unique(s: Seq<u64>, x: u64, idx: int)
    requires
        0 <= idx <= s.len(),
        forall|i: int| 0 <= i < idx ==> s[i] < x,
        forall|i: int| idx <= i < s.len() ==> s[i] >= x,
    ensures
        idx == lb_u64(s, x),
    decreases s.len(),
{
    if s.len() == 0 {
    } else if s[0] < x {
        assert(idx > 0);
        lemma_lb_u64_unique(s.skip(1), x, idx - 1);
        assert forall|i: int| 0 <= i < idx - 1 implies s.skip(1)[i] < x by {
            assert(s.skip(1)[i] == s[i + 1]);
        }
    } else {
        assert(idx == 0);
    }
}

/// In a strictly sorted list, values grow at least as fast as indices.
pub proof fn lemma_sorted_u64_gap(s: Seq<u64>, a: int, b: int)
    requires
        sorted_u64(s),
        0 <= a <= b < s.len(),
    ensures
        s[b] >= s[a] + (b - a),
    decreases b - a,
{
    if a < b {
        lemma_sorted_u64_gap(s, a, b - 1);
    }
}

/// Whether all of `v .. v + n` are members of `s`.
pub open spec fn has_free_run(s: Seq<u64>, v: u64, n: int) -> bool {
    forall|k: int| 0 <= k < n ==> s.contains(#[trigger] ((v + k) as u64))
}

/// In a strictly sorted list, consecutive values sit at consecutive
/// indices: a run of `n` consecutive members starting at `s[w]` occupies
/// exactly the indices `w .. w + n`.
pub proof fn lemma_run_indices(s: Seq<u64>, w: int, v: u64, n: int)
    requires
        sorted_u64(s),
        0 <= w < s.len(),
        s[w] == v,
        n >= 1,
        v + n - 1 <= u64::MAX,
        forall|k: int| 0 <= k < n ==> s.contains(#[trigger] ((v + k) as u64)),
    ensures
        w + n <= s.len(),
        forall|k: int| 0 <= k < n ==> #[trigger] s[w + k] == v + k,
    decreases n,
{
    if n > 1 {
        lemma_run_indices(s, w, v, n - 1);
        let x = (v + (n - 1)) as u64;
        assert(s.contains(x));
        let w2 = choose|w2: int| 0 <= w2 < s.len() && s[w2] == x;
        assert(s[w + (n - 2)] == v + (n - 2));
        assert(s[w + n - 2] == v + n - 2);
        if w2 <= w + n - 2 {
            if w2 < w + n - 2 {
                assert(s[w2] < s[w + n - 2]);
            }
            assert(false);
        }
        if w2 > w + n - 1 {
            lemma_sorted_u64_gap(s, w + n - 2, w2);
            assert(false);
        }
        assert(w2 == w + n - 1);
        assert forall|k: int| 0 <= k < n implies #[trigger] s[w + k] == v + k by {
            if k < n - 1 {
            } else {
                assert(s[w + (n - 1)] == s[w2]);
            }
        }
    }
}

/// The page ids one transaction has freed.
pub struct PendingTx {
    /// The transaction that freed the ids.
    pub txid: u64,
    /// The freed page ids, in the order they were freed.
    pub ids: Vec<u64>,
}

/// All ids of a pending list, in order.
pub open spec fn pending_seq(ps: Seq<PendingTx>) -> Seq<u64>
    decreases ps.len(),
{
    if ps.len() == 0 {
        Seq::<u64>::empty()
    } else {
        ps[0].ids@ + pending_seq(ps.skip(1))
    }
}

/// Appending a pending entry appends its ids.
pub proof fn lemma_pending_seq_push(ps: Seq<PendingTx>, p: PendingTx)
    ensures
        pending_seq(ps.push(p)) == pending_seq(ps) + p.ids@,
    decreases ps.len(),
{
    if ps.len() == 0 {
        assert(ps.push(p)[0] == p);
        assert(ps.push(p).skip(1) =~= Seq::<PendingTx>::empty());
        assert(pending_seq(ps.push(p).skip(1)) == Seq::<u64>::empty());
        assert(pending_seq(ps) == Seq::<u64>::empty());
        assert(pending_seq(ps.push(p)) =~= pending_seq(ps) + p.ids@);
    } else {
        assert(ps.push(p).skip(1) =~= ps.skip(1).push(p));
        lemma_pending_seq_push(ps.skip(1), p);
        assert(ps.push(p)[0] == ps[0]);
        assert(pending_seq(ps.push(p)) =~= pending_seq(ps) + p.ids@);
    }
}

/// Removing the first pending entry removes its ids from the front.
pub proof fn lemma_pending_seq_skip(ps: Seq<PendingTx>)
    requires
        ps.len() > 0,
    ensures
        pending_seq(ps) == ps[0].ids@ + pending_seq(ps.skip(1)),
{
}

/// Tracks free and pending-free page ids across transaction generations.
pub struct Freelist {
    /// Ids available for reallocation now; strictly sorted.
    pub free: Vec<u64>,
    /// Ids freed by recent transactions, oldest first; their readers may
    /// still be open.
    pub pending: Vec<PendingTx>,
}

impl CoerciblePage for Freelist {
    open spec fn spec_page_flag() -> u16 {
        FREE_LIST_PAGE_FLAG
    }

    fn page_flag() -> (f: u16) {
        FREE_LIST_PAGE_FLAG
    }

    fn set_flag(page: &mut Page) {
        page.set_free_list();
    }
}

impl Freelist {
    /// Every id this freelist books, free first, then pending in order.
    pub open spec fn ids_seq(&self) -> Seq<u64> {
        self.free@ + pending_seq(self.pending@)
    }

    /// Whether an id is booked free or pending: the membership cache.
    pub open spec fn in_cache(&self, id: u64) -> bool {
        self.ids_seq().contains(id)
    }

    /// Well-formed: free strictly sorted, pending txids strictly increasing,
    /// no id booked twice, no id below 2.
    pub open spec fn wf(&self) -> bool {
        &&& sorted_u64(self.free@)
        &&& forall|i: int, j: int|
            0 <= i < j < self.pending@.len() ==> self.pending@[i].txid < self.pending@[j].txid
        &&& distinct_u64(self.ids_seq())
        &&& forall|i: int| 0 <= i < self.ids_seq().len() ==> self.ids_seq()[i] >= 2
    }

    /// An empty freelist.
    pub fn new() -> (r: Freelist)
        ensures
            r.wf(),
            r.free@ == Seq::<u64>::empty(),
            r.pending@ == Seq::<PendingTx>::empty(),
    {
        let r = Freelist { free: Vec::new(), pending: Vec::new() };
        proof {
            assert(r.ids_seq() =~= Seq::<u64>::empty());
        }
        r
    }

    /// Whether `id` is booked on the freelist, free or pending.
    pub fn freed(&self, id: u64) -> (r: bool)
        ensures
            r == self.in_cache(id),
    {
        let mut i: usize = 0;
        while i < self.free.len()
            invariant
                i <= self.free@.len(),
                forall|j: int| 0 <= j < i ==> self.free@[j] != id,
            decreases self.free@.len() - i,
        {
            if self.free[i] == id {
                proof {
                    assert(self.ids_seq()[i as int] == id);
                }
                return true;
            }
            i = i + 1;
        }
        let mut t: usize = 0;
        while t < self.pending.len()
            invariant
                t <= self.pending@.len(),
                forall|j: int| 0 <= j < self.free@.len() ==> self.free@[j] != id,
                !pending_seq(self.pending@.take(t as int)).contains(id),
            decreases self.pending@.len() - t,
        {
            let ghost before = self.pending@.take(t as int);
            let ids = &self.pending[t].ids;
            let mut a: usize = 0;
            while a < ids.len()
                invariant
                    a <= ids@.len(),
                    ids@ == self.pending@[t as int].ids@,
                    t < self.pending@.len(),
                    forall|j: int| 0 <= j < a ==> ids@[j] != id,
                decreases ids@.len() - a,
            {
                if ids[a] == id {
                    proof {
                        lemma_pending_contains(self.pending@, t as int, a as int);
                        assert(self.ids_seq().contains(id)) by {
                            let w = choose|w: int|
                                0 <= w < pending_seq(self.pending@).len() && pending_seq(
                                    self.pending@,
                                )[w] == id;
                            assert(self.ids_seq()[self.free@.len() + w] == id);
                        }
                    }
                    return true;
                }
                a = a + 1;
            }
            proof {
                assert(self.pending@.take(t + 1).drop_last() =~= before);
                assert(self.pending@.take(t + 1).last() == self.pending@[t as int]);
                lemma_pending_seq_take_step(self.pending@, t as int);
                assert forall|j: int|
                    0 <= j < pending_seq(self.pending@.take(t + 1)).len() implies #[trigger] pending_seq(
                    self.pending@.take(t + 1),
                )[j] != id by {
                    assert(pending_seq(self.pending@.take(t + 1)) == pending_seq(before)
                        + self.pending@[t as int].ids@);
                }
            }
            t = t + 1;
        }
        proof {
            assert(self.pending@.take(self.pending@.len() as int) =~= self.pending@);
            if self.ids_seq().contains(id) {
                let w = choose|w: int|
                    0 <= w < self.ids_seq().len() && self.ids_seq()[w] == id;
                if w < self.free@.len() {
                    assert(self.free@[w] == id);
                } else {
                    assert(pending_seq(self.pending@)[w - self.free@.len()] == id);
                }
            }
        }
        false
    }

    /// Books the run `page.id ..= page.id + page.overflow` as pending under
    /// `txid`. A page is freed by the transaction now writing, so `txid`
    /// never lags an already-pending transaction.
    pub fn free(&mut self, txid: u64, page: &Page)
        requires
            old(self).wf(),
            page.id >= 2,
            page.id + page.overflow <= u64::MAX,
            page.overflow < 0xffffffffu32,
            forall|k: u64| page.id <= k <= page.id + page.overflow ==> !old(self).in_cache(k),
            old(self).pending@.len() > 0 ==> old(self).pending@.last().txid <= txid,
        ensures
            final(self).wf(),
            final(self).free@ == old(self).free@,
            pending_seq(final(self).pending@) == pending_seq(old(self).pending@) + run_seq(
                page.id,
                page.overflow + 1,
            ),
            final(self).ids_seq() == old(self).ids_seq() + run_seq(page.id, page.overflow + 1),
            final(self).pending@.len() > 0 && final(self).pending@.last().txid == txid,
            forall|i: int|
                0 <= i < final(self).pending@.len() - 1 ==> (#[trigger] final(self).pending@[i]).txid
                    == old(self).pending@[i].txid,
    {
        let ghost run = run_seq(page.id, page.overflow + 1);
        let n = page.overflow as u64 + 1;
        let mut ids: Vec<u64> = Vec::new();
        proof {
            assert(ids@ =~= run_seq(page.id, 0));
        }
        let mut k: u64 = 0;
        while k < n
            invariant
                k <= n,
                n == page.overflow as u64 + 1,
                page.id + page.overflow <= u64::MAX,
                ids@ == run_seq(page.id, k as int),
            decreases n - k,
        {
            ids.push(page.id + k);
            proof {
                assert(ids@ =~= run_seq(page.id, k + 1));
            }
            k = k + 1;
        }
        let plen = self.pending.len();
        if plen > 0 && self.pending[plen - 1].txid == txid {
            let ghost old_pending = self.pending@;
            let mut last = self.pending.pop().unwrap();
            last.ids.append(&mut ids);
            let ghost new_last = last;
            self.pending.push(last);
            proof {
                assert(old_pending =~= old_pending.drop_last().push(old_pending.last()));
                lemma_pending_seq_push(old_pending.drop_last(), old_pending.last());
                assert(self.pending@ == old_pending.drop_last().push(new_last));
                lemma_pending_seq_push(old_pending.drop_last(), new_last);
                assert(pending_seq(self.pending@) =~= pending_seq(old_pending) + run);
                assert(final(self).ids_seq() =~= old(self).ids_seq() + run);
                assert forall|i: int, j: int|
                    0 <= i < j < self.pending@.len() implies #[trigger] self.pending@[i].txid
                    < #[trigger] self.pending@[j].txid by {
                    assert(self.pending@[i] == old_pending[i]);
                    if j < self.pending@.len() - 1 {
                        assert(self.pending@[j] == old_pending[j]);
                    }
                }
                lemma_booked_run_wf(*old(self), *self, page.id, page.overflow + 1);
            }
        } else {
            let ghost old_pending = self.pending@;
            self.pending.push(PendingTx { txid, ids });
            proof {
                lemma_pending_seq_push(old_pending, self.pending@.last());
                assert(pending_seq(self.pending@) =~= pending_seq(old_pending) + run);
                assert(final(self).ids_seq() =~= old(self).ids_seq() + run);
                assert forall|i: int, j: int|
                    0 <= i < j < self.pending@.len() implies #[trigger] self.pending@[i].txid
                    < #[trigger] self.pending@[j].txid by {
                    assert(self.pending@[i] == old_pending[i]);
                    if j < self.pending@.len() - 1 {
                        assert(self.pending@[j] == old_pending[j]);
                    } else if old_pending.len() > 0 {
                        assert(old_pending[i].txid <= old_pending.last().txid);
                    }
                }
                lemma_booked_run_wf(*old(self), *self, page.id, page.overflow + 1);
            }
        }
    }

    /// Finds a contiguous run of `n` free ids; on success removes the run
    /// from the free list and returns its first id, otherwise changes
    /// nothing. Only already-released ids are eligible, never pending ones.
    pub fn allocate(&mut self, txid: u64, n: usize) -> (r: Option<u64>)
        requires
            old(self).wf(),
            1 <= n,
        ensures
            final(self).wf(),
            final(self).pending@ == old(self).pending@,
            match r {
                Some(start) => {
                    &&& start >= 2
                    &&& final(self).free@.len() + n == old(self).free@.len()
                    &&& start + n - 1 <= u64::MAX
                    &&& forall|k: int|
                        0 <= k < n ==> old(self).free@.contains(#[trigger] ((start + k) as u64))
                    &&& forall|x: u64|
                        #[trigger] final(self).free@.contains(x) <==> (old(self).free@.contains(x)
                            && !(start <= x < start + n))
                    &&& forall|v: u64|
                        v < start && v + n - 1 <= u64::MAX ==> !#[trigger] has_free_run(
                            old(self).free@,
                            v,
                            n as int,
                        )
                },
                None => {
                    &&& *final(self) == *old(self)
                    &&& forall|v: u64|
                        v + n - 1 <= u64::MAX ==> !#[trigger] has_free_run(
                            old(self).free@,
                            v,
                            n as int,
                        )
                },
            },
    {
        let ghost s = self.free@;
        let flen = self.free.len();
        if flen < n {
            proof {
                assert forall|v: u64|
                    v + n - 1 <= u64::MAX implies !#[trigger] has_free_run(s, v, n as int) by {
                    if has_free_run(s, v, n as int) {
                        assert(s.contains((v + 0) as u64));
                        let w = choose|w: int| 0 <= w < s.len() && s[w] == ((v + 0) as u64);
                        assert(s[w] == v);
                        lemma_run_indices(s, w, v, n as int);
                        assert(false);
                    }
                }
            }
            return None;
        }
        let mut i: usize = 0;
        while i <= flen - n
            invariant
                *self == *old(self),
                s == self.free@,
                self.wf(),
                flen == s.len(),
                1 <= n <= flen,
                i <= flen - n + 1,
                forall|ii: int| 0 <= ii < i ==> #[trigger] s[ii] + (n - 1) != s[ii + n - 1],
            decreases flen - i,
        {
            proof {
                lemma_sorted_u64_gap(s, i as int, i + n - 1);
            }
            if self.free[i + n - 1] - self.free[i] == (n - 1) as u64 {
                let start = self.free[i];
                let ghost idx = i as int;
                proof {
                    assert forall|k: int| 0 <= k < n implies #[trigger] s[idx + k] == start + k by {
                        lemma_sorted_u64_gap(s, idx, idx + k);
                        lemma_sorted_u64_gap(s, idx + k, idx + n - 1);
                    }
                    assert(self.ids_seq()[idx] == s[idx]);
                    assert(s[idx + 0] == start + 0);
                    assert forall|v: u64|
                        v < start && v + n - 1 <= u64::MAX implies !#[trigger] has_free_run(
                        s,
                        v,
                        n as int,
                    ) by {
                        if has_free_run(s, v, n as int) {
                            assert(s.contains((v + 0) as u64));
                            let w = choose|w: int| 0 <= w < s.len() && s[w] == ((v + 0) as u64);
                            assert(s[w] == v);
                            assert(w < idx) by {
                                if w > idx {
                                    lemma_sorted_u64_gap(s, idx, w);
                                }
                            }
                            lemma_run_indices(s, w, v, n as int);
                            assert(s[w + (n - 1)] == v + (n - 1));
                            assert(s[w] + (n - 1) == s[w + n - 1]);
                            assert(false);
                        }
                    }
                }
                proof {
                    assert(self.free@ =~= s.subrange(0, i as int) + s.subrange(
                        i as int,
                        s.len() as int,
                    ));
                }
                let mut k: usize = 0;
                while k < n
                    invariant
                        k <= n,
                        i + n <= s.len(),
                        self.free@ == s.subrange(0, i as int) + s.subrange(i + k, s.len() as int),
                        self.pending@ == old(self).pending@,
                    decreases n - k,
                {
                    self.free.remove(i);
                    proof {
                        assert(self.free@ =~= s.subrange(0, i as int) + s.subrange(
                            i + k + 1,
                            s.len() as int,
                        ));
                    }
                    k = k + 1;
                }
                proof {
                    lemma_allocate_after(s, idx, n as int, start, *old(self), *self);
                }
                return Some(start);
            }
            i = i + 1;
        }
        proof {
            assert forall|v: u64|
                v + n - 1 <= u64::MAX implies !#[trigger] has_free_run(s, v, n as int) by {
                if has_free_run(s, v, n as int) {
                    assert(s.contains((v + 0) as u64));
                    let w = choose|w: int| 0 <= w < s.len() && s[w] == ((v + 0) as u64);
                    assert(s[w] == v);
                    lemma_run_indices(s, w, v, n as int);
                    assert(s[w + (n - 1)] == v + (n - 1));
                    assert(s[w] + (n - 1) == s[w + n - 1]);
                    assert(false);
                }
            }
        }
        None
    }

    /// Moves every pending set with transaction id at most `txid` into the
    /// free list: their readers have all closed. The set of booked ids is
    /// unchanged; only their standing moves from pending to free.
    #[verifier::rlimit(60)]
    pub fn release(&mut self, txid: u64)
        requires
            old(self).wf(),
            old(self).ids_seq().len() <= usize::MAX,
        ensures
            final(self).wf(),
            final(self).pending@ == old(self).pending@.skip(
                spec_release_cut(old(self).pending@, txid),
            ),
            forall|x: u64|
                #[trigger] final(self).free@.contains(x) <==> (old(self).free@.contains(x)
                    || pending_seq(
                    old(self).pending@.take(spec_release_cut(old(self).pending@, txid)),
                ).contains(x)),
            forall|x: u64| #[trigger] final(self).in_cache(x) <==> old(self).in_cache(x),
    {
        let ghost ps0 = self.pending@;
        let ghost f0 = self.free@;
        let initial_len = self.pending.len();
        let mut processed: usize = 0;
        proof {
            assert(ps0.take(0) =~= Seq::<PendingTx>::empty());
            assert(ps0.skip(0) =~= ps0);
            assert(pending_seq(Seq::<PendingTx>::empty()) == Seq::<u64>::empty());
            lemma_concat_contains(f0, pending_seq(ps0));
        }
        loop
            invariant_except_break
                self.wf(),
                ps0.len() == initial_len,
                processed <= ps0.len(),
                self.pending@ == ps0.skip(processed as int),
                self.ids_seq().len() <= usize::MAX,
                forall|j: int| 0 <= j < processed ==> #[trigger] ps0[j].txid <= txid,
                forall|i: int, j: int| 0 <= i < j < ps0.len() ==> ps0[i].txid < ps0[j].txid,
                forall|x: u64|
                    #[trigger] self.free@.contains(x) <==> (f0.contains(x) || pending_seq(
                        ps0.take(processed as int),
                    ).contains(x)),
                forall|x: u64|
                    #[trigger] self.in_cache(x) <==> (f0.contains(x) || pending_seq(ps0).contains(
                        x,
                    )),
            ensures
                self.wf(),
                processed <= ps0.len(),
                self.pending@ == ps0.skip(processed as int),
                forall|j: int| 0 <= j < processed ==> #[trigger] ps0[j].txid <= txid,
                processed < ps0.len() ==> ps0[processed as int].txid > txid,
                forall|x: u64|
                    #[trigger] self.free@.contains(x) <==> (f0.contains(x) || pending_seq(
                        ps0.take(processed as int),
                    ).contains(x)),
                forall|x: u64|
                    #[trigger] self.in_cache(x) <==> (f0.contains(x) || pending_seq(ps0).contains(
                        x,
                    )),
            decreases ps0.len() - processed,
        {
            if self.pending.len() == 0 {
                proof {
                    assert(processed == ps0.len());
                }
                break;
            }
            if self.pending[0].txid > txid {
                proof {
                    assert(self.pending@[0] == ps0[processed as int]);
                }
                break;
            }
            let ghost fl_pre = *self;
            let ghost free_pre = self.free@;
            let ghost pend_pre = self.pending@;
            proof {
                assert(processed < ps0.len());
            }
            let entry = self.pending.remove(0);
            proof {
                assert(self.pending@ =~= ps0.skip(processed + 1));
                lemma_pending_seq_skip(pend_pre);
                // the booked ids were free + entry.ids + rest, in that order
                assert(free_pre + pending_seq(pend_pre) =~= free_pre + entry.ids@ + pending_seq(
                    self.pending@,
                ));
                assert(free_pre.len() + entry.ids@.len() <= usize::MAX);
                lemma_three_way_regroup(free_pre, entry.ids@, pending_seq(self.pending@));
            }
            merge_into_sorted(
                &mut self.free,
                &entry.ids,
                Ghost(pending_seq(self.pending@)),
            );
            processed = processed + 1;
            proof {
                lemma_pending_seq_take_step(ps0, processed - 1);
                assert forall|x: u64|
                    #[trigger] self.free@.contains(x) <==> (f0.contains(x) || pending_seq(
                        ps0.take(processed as int),
                    ).contains(x)) by {
                    lemma_concat_contains(
                        pending_seq(ps0.take(processed - 1)),
                        ps0[processed - 1].ids@,
                    );
                }
                assert forall|i: int, j: int|
                    0 <= i < j < self.pending@.len() implies #[trigger] self.pending@[i].txid
                    < #[trigger] self.pending@[j].txid by {
                    assert(self.pending@[i] == ps0[processed + i]);
                    assert(self.pending@[j] == ps0[processed + j]);
                }
                assert forall|x: u64|
                    #[trigger] self.in_cache(x) <==> (f0.contains(x) || pending_seq(ps0).contains(
                        x,
                    )) by {
                    lemma_concat_contains(self.free@, pending_seq(self.pending@));
                    lemma_concat_contains(free_pre, pending_seq(pend_pre));
                    lemma_concat_contains(entry.ids@, pending_seq(self.pending@));
                    assert(fl_pre.in_cache(x) <==> (f0.contains(x) || pending_seq(ps0).contains(
                        x,
                    )));
                    assert(fl_pre.ids_seq() == free_pre + pending_seq(pend_pre));
                    assert(pending_seq(pend_pre) == entry.ids@ + pending_seq(self.pending@));
                    assert(self.free@.contains(x) <==> (free_pre.contains(x)
                        || entry.ids@.contains(x)));
                    assert(self.in_cache(x) == (self.free@.contains(x) || pending_seq(
                        self.pending@,
                    ).contains(x)));
                    assert(fl_pre.in_cache(x) == (free_pre.contains(x) || (entry.ids@
                        + pending_seq(self.pending@)).contains(x)));
                    assert((entry.ids@ + pending_seq(self.pending@)).contains(x) == (
                    entry.ids@.contains(x) || pending_seq(self.pending@).contains(x)));
                }
            }
        }
        proof {
            lemma_release_cut(ps0, txid, processed as int);
        }
    }

    /// Discards the pending set of `txid`: its pages never reached the file,
    /// so they simply stop being booked. `txid` is the newest transaction.
    pub fn rollback(&mut self, txid: u64)
        requires
            old(self).wf(),
            old(self).pending@.len() > 0 ==> old(self).pending@.last().txid <= txid,
        ensures
            final(self).wf(),
            final(self).free@ == old(self).free@,
            final(self).pending@ == if old(self).pending@.len() > 0 && old(
                self,
            ).pending@.last().txid == txid {
                old(self).pending@.drop_last()
            } else {
                old(self).pending@
            },
    {
        let plen = self.pending.len();
        if plen > 0 && self.pending[plen - 1].txid == txid {
            let ghost ps0 = self.pending@;
            let entry = self.pending.pop().unwrap();
            proof {
                assert(self.pending@ =~= ps0.drop_last());
                assert(ps0 =~= ps0.drop_last().push(ps0.last()));
                lemma_pending_seq_push(ps0.drop_last(), ps0.last());
                assert(old(self).ids_seq() =~= (self.free@ + pending_seq(ps0.drop_last()))
                    + ps0.last().ids@);
                lemma_distinct_prefix(
                    self.free@ + pending_seq(ps0.drop_last()),
                    ps0.last().ids@,
                );
                assert forall|j: int|
                    0 <= j < self.ids_seq().len() implies #[trigger] self.ids_seq()[j] >= 2 by {
                    assert(old(self).ids_seq()[j] == self.ids_seq()[j]);
                }
            }
        }
    }
}

/// The run of page ids `start .. start + count`.
pub open spec fn run_seq(start: u64, count: int) -> Seq<u64> {
    Seq::new(count as nat, |k: int| (start + k) as u64)
}

/// Inserting a fresh value at its insertion point keeps a list strictly
/// sorted.
pub proof fn lemma_sorted_insert_u64(s: Seq<u64>, x: u64)
    requires
        sorted_u64(s),
        !s.contains(x),
    ensures
        sorted_u64(s.insert(lb_u64(s, x), x)),
{
    let pos = lb_u64(s, x);
    lemma_lb_u64_props(s, x);
    let r = s.insert(pos, x);
    if pos < s.len() {
        assert(s[pos] != x) by {
            if s[pos] == x {
                assert(s.contains(x));
            }
        }
    }
    assert forall|i: int, j: int| 0 <= i < j < r.len() implies r[i] < r[j] by {
        if i == pos {
            assert(r[j] == s[j - 1] && s[j - 1] >= x);
            assert(s[j - 1] != x) by {
                if s[j - 1] == x {
                    assert(s.contains(x));
                }
            }
        } else if j == pos {
            assert(r[i] == s[i] && s[i] < x);
        } else {
            let si = if i < pos {
                i
            } else {
                i - 1
            };
            let sj = if j < pos {
                j
            } else {
                j - 1
            };
            assert(r[i] == s[si] && r[j] == s[sj]);
        }
    }
}

/// Inserts `x` into a strictly sorted list at its insertion point.
pub fn insert_sorted_u64(v: &mut Vec<u64>, x: u64)
    requires
        sorted_u64(old(v)@),
        !old(v)@.contains(x),
        old(v)@.len() < usize::MAX,
    ensures
        final(v)@ == old(v)@.insert(lb_u64(old(v)@, x), x),
        sorted_u64(final(v)@),
        final(v)@.len() == old(v)@.len() + 1,
        forall|y: u64| #[trigger] final(v)@.contains(y) <==> (old(v)@.contains(y) || y == x),
{
    let ghost s = v@;
    let mut i: usize = 0;
    while i < v.len()
        invariant_except_break
            i <= v@.len(),
            v@ == s,
            sorted_u64(s),
            forall|j: int| 0 <= j < i ==> s[j] < x,
        ensures
            i <= v@.len(),
            v@ == s,
            forall|j: int| 0 <= j < i ==> s[j] < x,
            i < s.len() ==> s[i as int] >= x,
        decreases v@.len() - i,
    {
        if v[i] >= x {
            break;
        }
        i = i + 1;
    }
    proof {
        assert forall|j: int| i <= j < s.len() implies s[j] >= x by {
            if j > i {
                assert(s[i as int] < s[j]);
            }
        }
        lemma_lb_u64_unique(s, x, i as int);
        lemma_sorted_insert_u64(s, x);
    }
    v.insert(i, x);
    proof {
        assert forall|y: u64| final(v)@.contains(y) <==> (s.contains(y) || y == x) by {
            let r = s.insert(i as int, x);
            if r.contains(y) {
                let w = choose|w: int| 0 <= w < r.len() && r[w] == y;
                if w < i {
                    assert(s[w] == y);
                } else if w == i {
                } else {
                    assert(s[w - 1] == y);
                }
            }
            if s.contains(y) {
                let w = choose|w: int| 0 <= w < s.len() && s[w] == y;
                if w < i {
                    assert(r[w] == y);
                } else {
                    assert(r[w + 1] == y);
                }
            }
            if y == x {
                assert(r[i as int] == y);
            }
        }
    }
}

/// Concatenating disjoint duplicate-free lists gives a duplicate-free list.
pub proof fn lemma_distinct_concat(a: Seq<u64>, b: Seq<u64>)
    requires
        distinct_u64(a),
        distinct_u64(b),
        forall|x: u64| b.contains(x) ==> !a.contains(x),
    ensures
        distinct_u64(a + b),
{
    assert forall|i: int, j: int| 0 <= i < j < (a + b).len() implies (a + b)[i] != (a + b)[j] by {
        if i < a.len() && j >= a.len() {
            if a[i] == b[j - a.len()] {
                assert(a.contains(b[j - a.len()]));
                assert(b.contains(b[j - a.len()]));
            }
        }
    }
}

/// A prefix of a duplicate-free list is duplicate-free.
pub proof fn lemma_distinct_prefix(a: Seq<u64>, b: Seq<u64>)
    requires
        distinct_u64(a + b),
    ensures
        distinct_u64(a),
        distinct_u64(b),
        forall|x: u64| b.contains(x) ==> !a.contains(x),
{
    assert forall|i: int, j: int| 0 <= i < j < a.len() implies a[i] != a[j] by {
        assert((a + b)[i] == a[i] && (a + b)[j] == a[j]);
    }
    assert forall|i: int, j: int| 0 <= i < j < b.len() implies b[i] != b[j] by {
        assert((a + b)[a.len() + i] == b[i] && (a + b)[a.len() + j] == b[j]);
    }
    assert forall|x: u64| b.contains(x) implies !a.contains(x) by {
        if b.contains(x) && a.contains(x) {
            let wa = choose|w: int| 0 <= w < a.len() && a[w] == x;
            let wb = choose|w: int| 0 <= w < b.len() && b[w] == x;
            assert((a + b)[wa] == x && (a + b)[a.len() + wb] == x);
        }
    }
}

/// How many leading pending entries a release up to `txid` takes.
pub open spec fn spec_release_cut(ps: Seq<PendingTx>, txid: u64) -> int
    decreases ps.len(),
{
    if ps.len() == 0 {
        0
    } else if ps[0].txid <= txid {
        1 + spec_release_cut(ps.skip(1), txid)
    } else {
        0
    }
}

/// An id inside one pending entry is in the pending id list.
pub proof fn lemma_pending_contains(ps: Seq<PendingTx>, t: int, a: int)
    requires
        0 <= t < ps.len(),
        0 <= a < ps[t].ids@.len(),
    ensures
        pending_seq(ps).contains(ps[t].ids@[a]),
    decreases t,
{
    if t == 0 {
        assert(pending_seq(ps)[a] == ps[0].ids@[a]);
    } else {
        lemma_pending_contains(ps.skip(1), t - 1, a);
        assert(ps.skip(1)[t - 1] == ps[t]);
        let x = ps[t].ids@[a];
        let w = choose|w: int|
            0 <= w < pending_seq(ps.skip(1)).len() && pending_seq(ps.skip(1))[w] == x;
        assert(pending_seq(ps)[ps[0].ids@.len() + w] == x);
    }
}

/// Extending a prefix of pending entries by one extends its id list.
pub proof fn lemma_pending_seq_take_step(ps: Seq<PendingTx>, t: int)
    requires
        0 <= t < ps.len(),
    ensures
        pending_seq(ps.take(t + 1)) == pending_seq(ps.take(t)) + ps[t].ids@,
{
    assert(ps.take(t + 1) =~= ps.take(t).push(ps[t]));
    lemma_pending_seq_push(ps.take(t), ps[t]);
}

/// Pending id lists concatenate over pending-list concatenation.
pub proof fn lemma_pending_seq_concat(a: Seq<PendingTx>, b: Seq<PendingTx>)
    ensures
        pending_seq(a + b) == pending_seq(a) + pending_seq(b),
    decreases a.len(),
{
    if a.len() == 0 {
        assert(a + b =~= b);
        assert(pending_seq(a) == Seq::<u64>::empty());
        assert(pending_seq(a) + pending_seq(b) =~= pending_seq(b));
    } else {
        assert((a + b).skip(1) =~= a.skip(1) + b);
        lemma_pending_seq_concat(a.skip(1), b);
        assert((a + b)[0] == a[0]);
        assert(pending_seq(a + b) =~= pending_seq(a) + pending_seq(b));
    }
}

/// Membership in a concatenation is membership in either part.
pub proof fn lemma_concat_contains(a: Seq<u64>, b: Seq<u64>)
    ensures
        forall|x: u64| #[trigger] (a + b).contains(x) <==> (a.contains(x) || b.contains(x)),
{
    assert forall|x: u64| #[trigger] (a + b).contains(x) <==> (a.contains(x) || b.contains(x)) by {
        if (a + b).contains(x) {
            let w = choose|w: int| 0 <= w < (a + b).len() && (a + b)[w] == x;
            if w < a.len() {
                assert(a[w] == x);
            } else {
                assert(b[w - a.len()] == x);
            }
        }
        if a.contains(x) {
            let w = choose|w: int| 0 <= w < a.len() && a[w] == x;
            assert((a + b)[w] == x);
        }
        if b.contains(x) {
            let w = choose|w: int| 0 <= w < b.len() && b[w] == x;
            assert((a + b)[a.len() + w] == x);
        }
    }
}

/// The release cut is a valid prefix length.
pub proof fn lemma_release_cut_bounds(ps: Seq<PendingTx>, txid: u64)
    ensures
        0 <= spec_release_cut(ps, txid) <= ps.len(),
    decreases ps.len(),
{
    if ps.len() > 0 && ps[0].txid <= txid {
        lemma_release_cut_bounds(ps.skip(1), txid);
    }
}

/// A processed prefix bounded by the first kept entry is the release cut.
pub proof fn lemma_release_cut(ps: Seq<PendingTx>, txid: u64, processed: int)
    requires
        0 <= processed <= ps.len(),
        forall|j: int| 0 <= j < processed ==> #[trigger] ps[j].txid <= txid,
        processed < ps.len() ==> ps[processed].txid > txid,
    ensures
        processed == spec_release_cut(ps, txid),
    decreases ps.len(),
{
    if ps.len() == 0 {
    } else if ps[0].txid <= txid {
        assert(processed > 0);
        lemma_release_cut(ps.skip(1), txid, processed - 1);
        assert forall|j: int| 0 <= j < processed - 1 implies #[trigger] ps.skip(1)[j].txid
            <= txid by {
            assert(ps.skip(1)[j] == ps[j + 1]);
        }
        if processed - 1 < ps.skip(1).len() {
            assert(ps.skip(1)[processed - 1] == ps[processed]);
        }
    } else {
        assert(processed == 0);
    }
}

/// Booking a fresh run of ids keeps the freelist well-formed.
pub proof fn lemma_booked_run_wf(fl_old: Freelist, fl_new: Freelist, start: u64, count: int)
    requires
        fl_old.wf(),
        start >= 2,
        count >= 1,
        start + count - 1 <= u64::MAX,
        forall|k: u64| start <= k <= start + (count - 1) ==> !fl_old.in_cache(k),
        fl_new.free@ == fl_old.free@,
        fl_new.ids_seq() == fl_old.ids_seq() + run_seq(start, count),
        forall|i: int, j: int|
            0 <= i < j < fl_new.pending@.len() ==> fl_new.pending@[i].txid
                < fl_new.pending@[j].txid,
    ensures
        fl_new.wf(),
{
    let run = run_seq(start, count);
    assert(distinct_u64(run)) by {
        assert forall|i: int, j: int| 0 <= i < j < run.len() implies run[i] != run[j] by {
            assert(run[i] == (start + i) as u64 && run[j] == (start + j) as u64);
        }
    }
    assert forall|x: u64| run.contains(x) implies !fl_old.ids_seq().contains(x) by {
        let w = choose|w: int| 0 <= w < run.len() && run[w] == x;
        assert(x == (start + w) as u64);
        assert(start <= x <= start + (count - 1));
        assert(!fl_old.in_cache(x));
    }
    lemma_distinct_concat(fl_old.ids_seq(), run);
    assert forall|j: int| 0 <= j < fl_new.ids_seq().len() implies fl_new.ids_seq()[j] >= 2 by {
        if j < fl_old.ids_seq().len() {
            assert(fl_new.ids_seq()[j] == fl_old.ids_seq()[j]);
        } else {
            assert(fl_new.ids_seq()[j] == run[j - fl_old.ids_seq().len()]);
        }
    }
}

/// Removing a consecutive run of ids from the free list keeps the freelist
/// well-formed and removes exactly those ids.
pub proof fn lemma_allocate_after(
    s: Seq<u64>,
    idx: int,
    n: int,
    start: u64,
    fl_old: Freelist,
    fl_new: Freelist,
)
    requires
        fl_old.wf(),
        s == fl_old.free@,
        0 <= idx,
        n >= 1,
        idx + n <= s.len(),
        forall|k: int| 0 <= k < n ==> #[trigger] s[idx + k] == start + k,
        fl_new.free@ == s.subrange(0, idx) + s.subrange(idx + n, s.len() as int),
        fl_new.pending@ == fl_old.pending@,
    ensures
        fl_new.wf(),
        start >= 2,
        start + n - 1 <= u64::MAX,
        forall|k: int| 0 <= k < n ==> s.contains(#[trigger] ((start + k) as u64)),
        forall|x: u64|
            #[trigger] fl_new.free@.contains(x) <==> (s.contains(x) && !(start <= x < start + n)),
{
    let newids = fl_new.ids_seq();
    let oldids = fl_old.ids_seq();
    let nf = fl_new.free@;
    assert(s[idx + 0] == start + 0);
    assert(s[idx] == start && oldids[idx] == s[idx]);
    assert(s[idx + (n - 1)] == start + (n - 1));
    assert forall|k: int| 0 <= k < n implies s.contains(#[trigger] ((start + k) as u64)) by {
        assert(s[idx + k] == (start + k) as u64);
    }
    assert(nf.len() + n == s.len());
    assert(newids.len() + n == oldids.len());
    // each kept slot maps to its old slot, skipping the removed run
    assert forall|j: int| 0 <= j < newids.len() implies newids[j] == oldids[
        if j < idx {
            j
        } else {
            j + n
        }
    ] && (if j < idx {
        j
    } else {
        j + n
    }) < oldids.len() by {
        if j < idx {
            assert(newids[j] == nf[j] && nf[j] == s[j] && oldids[j] == s[j]);
        } else if j < nf.len() {
            assert(newids[j] == nf[j] && nf[j] == s[j + n] && oldids[j + n] == s[j + n]);
        } else {
            assert(newids[j] == pending_seq(fl_new.pending@)[j - nf.len()]);
            assert(oldids[j + n] == pending_seq(fl_old.pending@)[j + n - s.len()]);
        }
    }
    assert(distinct_u64(newids)) by {
        assert forall|i: int, j: int| 0 <= i < j < newids.len() implies newids[i] != newids[j] by {
            let mi = if i < idx {
                i
            } else {
                i + n
            };
            let mj = if j < idx {
                j
            } else {
                j + n
            };
            assert(newids[i] == oldids[mi] && newids[j] == oldids[mj]);
            assert(mi < mj);
        }
    }
    assert forall|j: int| 0 <= j < newids.len() implies newids[j] >= 2 by {
        let mj = if j < idx {
            j
        } else {
            j + n
        };
        assert(newids[j] == oldids[mj]);
    }
    assert(sorted_u64(nf)) by {
        assert forall|i: int, j: int| 0 <= i < j < nf.len() implies nf[i] < nf[j] by {
            let mi = if i < idx {
                i
            } else {
                i + n
            };
            let mj = if j < idx {
                j
            } else {
                j + n
            };
            assert(nf[i] == s[mi] && nf[j] == s[mj]);
        }
    }
    assert forall|x: u64|
        #[trigger] nf.contains(x) <==> (s.contains(x) && !(start <= x < start + n)) by {
        if nf.contains(x) {
            let w = choose|w: int| 0 <= w < nf.len() && nf[w] == x;
            let mw = if w < idx {
                w
            } else {
                w + n
            };
            assert(s[mw] == x);
            if start <= x < start + n {
                let k = x - start;
                assert(s[idx + k] == x);
                assert(mw != idx + k);
                if mw < idx + k {
                    lemma_sorted_u64_gap(s, mw, idx + k);
                } else {
                    lemma_sorted_u64_gap(s, idx + k, mw);
                }
            }
        }
        if s.contains(x) && !(start <= x < start + n) {
            let w = choose|w: int| 0 <= w < s.len() && s[w] == x;
            assert(!(idx <= w < idx + n)) by {
                if idx <= w < idx + n {
                    assert(s[w] == start + (w - idx));
                }
            }
            if w < idx {
                assert(nf[w] == x);
            } else {
                assert(nf[w - n] == s[w]);
            }
        }
    }
}

/// Merges the ids of `ids` into the sorted `free` list. The ghost `rest`
/// carries the other booked ids, so that no-double-booking survives the
/// merge.
#[verifier::rlimit(60)]
pub fn merge_into_sorted(free: &mut Vec<u64>, ids: &Vec<u64>, Ghost(rest): Ghost<Seq<u64>>)
    requires
        sorted_u64(old(free)@),
        distinct_u64(old(free)@ + ids@ + rest),
        forall|j: int|
            0 <= j < (old(free)@ + ids@ + rest).len() ==> (old(free)@ + ids@ + rest)[j] >= 2,
        old(free)@.len() + ids@.len() <= usize::MAX,
    ensures
        sorted_u64(final(free)@),
        final(free)@.len() == old(free)@.len() + ids@.len(),
        forall|x: u64| #[trigger] final(free)@.contains(x) <==> (old(free)@.contains(x) || ids@.contains(x)),
        distinct_u64(final(free)@ + rest),
        forall|j: int|
            0 <= j < (final(free)@ + rest).len() ==> (final(free)@ + rest)[j] >= 2,
{
    let ghost f0 = old(free)@;
    let mut a: usize = 0;
    proof {
        assert(ids@.skip(0) =~= ids@);
        assert(ids@.take(0) =~= Seq::<u64>::empty());
        lemma_three_way_regroup(f0, ids@, rest);
    }
    while a < ids.len()
        invariant
            a <= ids@.len(),
            sorted_u64(free@),
            free@.len() == f0.len() + a,
            f0.len() + ids@.len() <= usize::MAX,
            forall|x: u64| #[trigger] free@.contains(x) <==> (f0.contains(x) || ids@.take(a as int).contains(x)),
            distinct_u64(free@ + (ids@.skip(a as int) + rest)),
            forall|j: int|
                0 <= j < (free@ + (ids@.skip(a as int) + rest)).len() ==> (free@ + (ids@.skip(
                    a as int,
                ) + rest))[j] >= 2,
        decreases ids@.len() - a,
    {
        let id = ids[a];
        let ghost fpre = free@;
        let ghost tail = ids@.skip(a as int) + rest;
        proof {
            lemma_distinct_prefix(fpre, tail);
            assert(tail[0] == id);
            assert(!fpre.contains(id)) by {
                if fpre.contains(id) {
                    assert(tail.contains(id));
                }
            }
        }
        insert_sorted_u64(free, id);
        proof {
            lemma_merge_step(fpre, free@, ids@, rest, a as int);
            assert forall|x: u64|
                #[trigger] free@.contains(x) <==> (f0.contains(x) || ids@.take(a + 1).contains(x)) by {
                assert(fpre.contains(x) <==> (f0.contains(x) || ids@.take(a as int).contains(x)));
                assert(free@.contains(x) <==> (fpre.contains(x) || x == id));
                assert(ids@.take(a as int).contains(x) ==> ids@.take(a + 1).contains(x)) by {
                    if ids@.take(a as int).contains(x) {
                        let w = choose|w: int|
                            0 <= w < a && #[trigger] ids@.take(a as int)[w] == x;
                        assert(ids@.take(a + 1)[w] == x);
                    }
                }
                assert(ids@.take(a + 1).contains(x) ==> (ids@.take(a as int).contains(x) || x
                    == id)) by {
                    if ids@.take(a + 1).contains(x) {
                        let w = choose|w: int|
                            0 <= w < a + 1 && #[trigger] ids@.take(a + 1)[w] == x;
                        if w < a {
                            assert(ids@.take(a as int)[w] == x);
                        } else {
                            assert(ids@.take(a + 1)[a as int] == ids@[a as int]);
                        }
                    }
                }
                assert(x == id ==> ids@.take(a + 1).contains(x)) by {
                    if x == id {
                        assert(ids@.take(a + 1)[a as int] == x);
                    }
                }
            }
        }
        a = a + 1;
    }
    proof {
        assert(ids@.take(ids@.len() as int) =~= ids@);
        assert(ids@.skip(ids@.len() as int) =~= Seq::<u64>::empty());
        assert(free@ + (Seq::<u64>::empty() + rest) =~= free@ + rest);
    }
}

/// Regrouping a three-way concatenation.
pub proof fn lemma_three_way_regroup(a: Seq<u64>, b: Seq<u64>, c: Seq<u64>)
    ensures
        a + b + c == a + (b + c),
{
    assert(a + b + c =~= a + (b + c));
}

/// One merge step: after inserting the head of the remaining ids into the
/// sorted list, the no-double-booking frame still holds.
pub proof fn lemma_merge_step(
    fpre: Seq<u64>,
    fpost: Seq<u64>,
    ids: Seq<u64>,
    rest: Seq<u64>,
    a: int,
)
    requires
        0 <= a < ids.len(),
        distinct_u64(fpre + (ids.skip(a) + rest)),
        forall|j: int|
            0 <= j < (fpre + (ids.skip(a) + rest)).len() ==> (fpre + (ids.skip(a) + rest))[j] >= 2,
        forall|x: u64| #[trigger] fpost.contains(x) <==> (fpre.contains(x) || x == ids[a]),
        fpost.len() == fpre.len() + 1,
        distinct_u64(fpost),
    ensures
        distinct_u64(fpost + (ids.skip(a + 1) + rest)),
        forall|j: int|
            0 <= j < (fpost + (ids.skip(a + 1) + rest)).len() ==> #[trigger] (fpost + (ids.skip(
                a + 1,
            ) + rest))[j] >= 2,
{
    let tail = ids.skip(a) + rest;
    let tail2 = ids.skip(a + 1) + rest;
    lemma_distinct_prefix(fpre, tail);
    assert(distinct_u64(tail2)) by {
        assert forall|i: int, j: int| 0 <= i < j < tail2.len() implies tail2[i] != tail2[j] by {
            assert(tail2[i] == tail[i + 1] && tail2[j] == tail[j + 1]) by {
                lemma_tail_shift(ids, rest, a, i);
                lemma_tail_shift(ids, rest, a, j);
            }
        }
    }
    assert forall|x: u64| tail2.contains(x) implies tail.contains(x) by {
        let w = choose|w: int| 0 <= w < tail2.len() && tail2[w] == x;
        lemma_tail_shift(ids, rest, a, w);
        assert(tail[w + 1] == x);
    }
    assert forall|x: u64| tail2.contains(x) implies !fpost.contains(x) by {
        if tail2.contains(x) {
            assert(tail.contains(x));
            if x == ids[a] {
                assert(tail[0] == ids[a]);
                let w = choose|w: int| 0 <= w < tail2.len() && tail2[w] == x;
                lemma_tail_shift(ids, rest, a, w);
                assert(tail[w + 1] == x);
            }
        }
    }
    lemma_distinct_concat(fpost, tail2);
    assert forall|j: int|
        0 <= j < (fpost + tail2).len() implies (fpost + tail2)[j] >= 2 by {
        let x = (fpost + tail2)[j];
        if j < fpost.len() {
            if fpre.contains(x) {
                let w = choose|w: int| 0 <= w < fpre.len() && fpre[w] == x;
                assert((fpre + tail)[w] == x);
            } else {
                assert(fpost[j] == x);
                assert(fpost.contains(x));
                assert(x == ids[a]);
                assert((fpre + tail)[fpre.len() as int] == ids[a]);
            }
        } else {
            assert(tail2[j - fpost.len()] == x);
            assert(tail.contains(x));
            let w = choose|w: int| 0 <= w < tail.len() && tail[w] == x;
            assert((fpre + tail)[fpre.len() + w] == x);
        }
    }
}

/// The little-endian bytes of a u64 array.
pub open spec fn ids_bytes(ids: Seq<u64>) -> Seq<u8>
    decreases ids.len(),
{
    if ids.len() == 0 {
        Seq::<u8>::empty()
    } else {
        crate::bytes::le64(ids[0]) + ids_bytes(ids.skip(1))
    }
}

/// The array is eight bytes per id.
pub proof fn lemma_ids_bytes_len(ids: Seq<u64>)
    ensures
        ids_bytes(ids).len() == 8 * ids.len(),
    decreases ids.len(),
{
    if ids.len() > 0 {
        lemma_ids_bytes_len(ids.skip(1));
    }
}

/// Id `i` sits at offset `8 * i` of the array.
pub proof fn lemma_ids_bytes_index(ids: Seq<u64>, i: int)
    requires
        0 <= i < ids.len(),
    ensures
        ids_bytes(ids).subrange(8 * i, 8 * i + 8) == crate::bytes::le64(ids[i]),
    decreases i,
{
    lemma_ids_bytes_len(ids.skip(1));
    if i == 0 {
        assert(ids_bytes(ids).subrange(0, 8) =~= crate::bytes::le64(ids[0]));
    } else {
        lemma_ids_bytes_index(ids.skip(1), i - 1);
        assert(ids.skip(1)[i - 1] == ids[i]);
        assert(ids_bytes(ids).subrange(8 * i, 8 * i + 8) =~= ids_bytes(ids.skip(1)).subrange(
            8 * (i - 1),
            8 * (i - 1) + 8,
        ));
    }
}

/// One more id extends the array by its eight bytes.
pub proof fn lemma_ids_bytes_take_step(ids: Seq<u64>, i: int)
    requires
        0 <= i < ids.len(),
    ensures
        ids_bytes(ids.take(i + 1)) == ids_bytes(ids.take(i)) + crate::bytes::le64(ids[i]),
    decreases i,
{
    if i == 0 {
        assert(ids.take(1)[0] == ids[0]);
        assert(ids.take(1).skip(1) =~= Seq::<u64>::empty());
        assert(ids_bytes(Seq::<u64>::empty()) == Seq::<u8>::empty());
        assert(ids.take(0) =~= Seq::<u64>::empty());
        assert(ids_bytes(ids.take(1)) =~= ids_bytes(ids.take(0)) + crate::bytes::le64(ids[0]));
    } else {
        lemma_ids_bytes_take_step(ids.skip(1), i - 1);
        assert(ids.take(i + 1).skip(1) =~= ids.skip(1).take(i));
        assert(ids.take(i).skip(1) =~= ids.skip(1).take(i - 1));
        assert(ids.take(i + 1)[0] == ids[0] && ids.take(i)[0] == ids[0]);
        assert(ids.skip(1)[i - 1] == ids[i]);
        assert(ids_bytes(ids.take(i + 1)) =~= ids_bytes(ids.take(i)) + crate::bytes::le64(
            ids[i],
        ));
    }
}

/// The id list read back from an encoded freelist page: the page must carry
/// the freelist flag, and a count of 0xffff moves the real count into the
/// first body slot.
pub open spec fn spec_parse_freelist(b: Seq<u8>) -> Option<Seq<u64>> {
    if b.len() < 16 {
        None
    } else if crate::bytes::u16_le(b.subrange(8, 10)) != crate::page::FREE_LIST_PAGE_FLAG {
        None
    } else {
        let small = crate::bytes::u16_le(b.subrange(10, 12)) as int;
        let (n, base): (int, int) = if small == 0xffff {
            if b.len() < 24 {
                (-1int, 24int)
            } else {
                (crate::bytes::u64_le(b.subrange(16, 24)) as int, 24int)
            }
        } else {
            (small, 16int)
        };
        if n < 0 || base + 8 * n > b.len() {
            None
        } else {
            Some(Seq::new(n as nat, |i: int| crate::bytes::u64_le(b.subrange(
                base + 8 * i,
                base + 8 * i + 8,
            ))))
        }
    }
}

/// Writes a freelist page holding `ids`, padded with zeros to `buf_len`
/// bytes, and parsing back to exactly `ids`.
pub fn write_freelist_page(id: u64, overflow: u32, ids: &Vec<u64>, buf_len: usize) -> (r: Vec<u8>)
    requires
        ids@.len() < 0x10000000000000000,
        16 + 8 * ids@.len() + (if ids@.len() >= 0xffff {
            8int
        } else {
            0int
        }) <= buf_len,
    ensures
        r@.len() == buf_len,
        spec_parse_freelist(r@) == Some(ids@),
{
    let n = ids.len();
    let extended = n >= 0xffff;
    let header = Page {
        id,
        flags: crate::page::FREE_LIST_PAGE_FLAG,
        count: if extended {
            0xffff
        } else {
            n as u16
        },
        overflow,
    };
    let mut buf: Vec<u8> = Vec::new();
    crate::page::put_page_header(&mut buf, header);
    if extended {
        crate::bytes::put_u64(&mut buf, n as u64);
    }
    let base = buf.len();
    let ghost header_part = buf@;
    let mut i: usize = 0;
    proof {
        assert(ids@.take(0) =~= Seq::<u64>::empty());
        assert(ids_bytes(ids@.take(0)) == Seq::<u8>::empty());
        assert(buf@ =~= header_part + ids_bytes(ids@.take(0)));
    }
    while i < n
        invariant
            i <= n,
            n == ids@.len(),
            base == header_part.len(),
            buf@ == header_part + ids_bytes(ids@.take(i as int)),
        decreases n - i,
    {
        crate::bytes::put_u64(&mut buf, ids[i]);
        proof {
            lemma_ids_bytes_take_step(ids@, i as int);
            assert(buf@ =~= header_part + ids_bytes(ids@.take(i + 1)));
        }
        i = i + 1;
    }
    proof {
        assert(ids@.take(n as int) =~= ids@);
        lemma_ids_bytes_len(ids@);
    }
    let written = buf.len();
    crate::bytes::put_zeros(&mut buf, buf_len - written);
    proof {
        assert(buf@.subrange(0, written as int) =~= header_part + ids_bytes(ids@));
        assert(buf@.subrange(0, base as int) =~= header_part);
        assert(written == base + 8 * ids@.len());
        assert forall|j: int| 0 <= j < 8 * ids@.len() implies buf@[base + j] == ids_bytes(ids@)[j]
            by {
            assert(buf@.subrange(0, written as int)[base + j] == buf@[base + j]);
            assert((header_part + ids_bytes(ids@))[base + j] == ids_bytes(ids@)[j]);
        }
        assert(buf@.subrange(base as int, base + 8 * ids@.len()) =~= ids_bytes(ids@));
        lemma_freelist_page_parses(header_part, ids@, buf@, base as int, id, overflow, extended);
    }
    buf
}

/// A buffer laid out as freelist header, id array and padding parses back
/// to the id array.
#[verifier::rlimit(100)]
#[verifier::spinoff_prover]
proof fn lemma_freelist_page_parses(
    header_part: Seq<u8>,
    ids: Seq<u64>,
    b: Seq<u8>,
    base: int,
    id: u64,
    overflow: u32,
    extended: bool,
)
    requires
        ids.len() < 0x10000000000000000,
        extended <==> ids.len() >= 0xffff,
        header_part == crate::page::page_header_bytes(
            Page {
                id,
                flags: crate::page::FREE_LIST_PAGE_FLAG,
                count: if extended {
                    0xffff
                } else {
                    ids.len() as u16
                },
                overflow,
            },
        ) + if extended {
            crate::bytes::le64(ids.len() as u64)
        } else {
            Seq::<u8>::empty()
        },
        base == header_part.len(),
        b.len() >= base + 8 * ids.len(),
        b.subrange(0, base) == header_part,
        b.subrange(base, base + 8 * ids.len()) == ids_bytes(ids),
    ensures
        spec_parse_freelist(b) == Some(ids),
{
    let header = Page {
        id,
        flags: crate::page::FREE_LIST_PAGE_FLAG,
        count: if extended {
            0xffff
        } else {
            ids.len() as u16
        },
        overflow,
    };
    let tail = if extended {
        crate::bytes::le64(ids.len() as u64)
    } else {
        Seq::<u8>::empty()
    };
    assert(header_part =~= crate::page::page_header_bytes(header) + tail);
    assert(b =~= b.subrange(0, base) + b.subrange(base, b.len() as int));
    assert(b =~= (crate::page::page_header_bytes(header) + tail) + b.subrange(
        base,
        b.len() as int,
    ));
    assert(b =~= crate::page::page_header_bytes(header) + (tail + b.subrange(
        base,
        b.len() as int,
    )));
    crate::page::lemma_page_header_roundtrip(header, tail + b.subrange(base, b.len() as int));
    if extended {
        assert(b.subrange(16, 24) =~= crate::bytes::le64(ids.len() as u64));
        crate::bytes::lemma_le64_roundtrip(ids.len() as u64);
    }
    lemma_ids_bytes_len(ids);
    assert forall|i: int| 0 <= i < ids.len() implies crate::bytes::u64_le(b.subrange(
        base + 8 * i,
        base + 8 * i + 8,
    )) == ids[i] by {
        lemma_ids_bytes_index(ids, i);
        assert(b.subrange(base + 8 * i, base + 8 * i + 8) =~= ids_bytes(ids).subrange(
            8 * i,
            8 * i + 8,
        ));
        crate::bytes::lemma_le64_roundtrip(ids[i]);
    }
    assert(Seq::new(ids.len(), |i: int| crate::bytes::u64_le(b.subrange(
        base + 8 * i,
        base + 8 * i + 8,
    ))) =~= ids);
}

/// Reads the id list of a freelist page.
pub fn parse_freelist_page(b: &[u8]) -> (r: Result<Vec<u64>, Error>)
    ensures
        match r {
            Ok(ids) => spec_parse_freelist(b@) == Some(ids@),
            Err(e) => spec_parse_freelist(b@) is None && e == Error::InvalidDatabase(true),
        },
{
    let blen = b.len();
    if blen < 16 {
        return Err(Error::InvalidDatabase(true));
    }
    let header = crate::page::parse_page_header(b);
    if header.flags != crate::page::FREE_LIST_PAGE_FLAG {
        return Err(Error::InvalidDatabase(true));
    }
    let (n, base): (usize, usize) = if header.count == 0xffff {
        if blen < 24 {
            return Err(Error::InvalidDatabase(true));
        }
        let big = crate::bytes::get_u64(b, 16);
        if big > usize::MAX as u64 {
            return Err(Error::InvalidDatabase(true));
        }
        (big as usize, 24)
    } else {
        (header.count as usize, 16)
    };
    if n > (usize::MAX - base) / 8 || base + 8 * n > blen {
        proof {
            crate::bytes::lemma_le64_roundtrip(n as u64);
        }
        return Err(Error::InvalidDatabase(true));
    }
    let mut out: Vec<u64> = Vec::new();
    let mut i: usize = 0;
    while i < n
        invariant
            i <= n,
            blen == b@.len(),
            base + 8 * n <= blen,
            out@ == Seq::new(i as nat, |j: int| crate::bytes::u64_le(b@.subrange(
                base + 8 * j,
                base + 8 * j + 8,
            ))),
        decreases n - i,
    {
        let v = crate::bytes::get_u64(b, base + 8 * i);
        let ghost out_before = out@;
        out.push(v);
        proof {
            assert(out@ =~= Seq::new((i + 1) as nat, |j: int| crate::bytes::u64_le(b@.subrange(
                base + 8 * j,
                base + 8 * j + 8,
            ))));
        }
        i = i + 1;
    }
    Ok(out)
}

/// Index shift between the remaining-ids tails of consecutive steps.
pub proof fn lemma_tail_shift(ids: Seq<u64>, rest: Seq<u64>, a: int, i: int)
    requires
        0 <= a < ids.len(),
        0 <= i < (ids.skip(a + 1) + rest).len(),
    ensures
        (ids.skip(a + 1) + rest)[i] == (ids.skip(a) + rest)[i + 1],
{
    if i < ids.skip(a + 1).len() {
        assert(ids.skip(a + 1)[i] == ids[a + 1 + i]);
        assert(ids.skip(a)[i + 1] == ids[a + 1 + i]);
    }
}

} // verus!
