//! In-memory tree nodes: sorted element lists and their operations.
//!
//! A node is the unpacked, mutable image of one tree page: a flat, strictly
//! key-sorted list of elements (`INode`), each carrying flags, a child page
//! id, a key and a value. `put` and `del` are the primitive mutations; `split`
//! cuts an oversized node into page-sized siblings for the commit path.

use vstd::prelude::*;

use crate::bytes::{lex_lt, lemma_lex_asym, lemma_lex_total, lemma_lex_trans, key_cmp, KeyOrder};
use crate::page::{PAGE_HEADER_SIZE, MIN_KEYS_PER_PAGE, BRANCH_PAGE_ELEMENT_SIZE,
    LEAF_PAGE_ELEMENT_SIZE};

verus! {

/// Maximum key length in bytes.
pub const MAX_KEY_SIZE: u32 = 32768;

/// Maximum value length in bytes.
pub const MAX_VALUE_SIZE: u32 = 0x7ffffffe;

/// One element of a node: a key together with either a value (leaf) or a
/// child page id (branch). On leaves, `flags` marks bucket values.
#[derive(Debug, Clone)]
pub struct INode {
    /// Leaf element flags; `BUCKET_LEAF_FLAG` marks a nested bucket.
    pub flags: u32,
    /// Child page id; zero on leaf elements.
    pub pgid: u64,
    /// The element's key.
    pub key: Vec<u8>,
    /// The element's value; empty on branch elements.
    pub value: Vec<u8>,
}

/// The mathematical image of one element.
pub ghost struct EntryV {
    /// Leaf element flags.
    pub flags: u32,
    /// Child page id.
    pub pgid: u64,
    /// The key bytes.
    pub key: Seq<u8>,
    /// The value bytes.
    pub value: Seq<u8>,
}

impl View for INode {
    type V = EntryV;

    open spec fn view(&self) -> EntryV {
        EntryV { flags: self.flags, pgid: self.pgid, key: self.key@, value: self.value@ }
    }
}

/// The element images of a node's element list.
pub open spec fn entries_view(s: Seq<INode>) -> Seq<EntryV> {
    s.map_values(|e: INode| e@)
}

/// Strict sortedness: keys appear in increasing lexicographic order, so all
/// keys are distinct.
pub open spec fn entries_sorted(s: Seq<EntryV>) -> bool {
    forall|i: int, j: int| 0 <= i < j < s.len() ==> lex_lt(s[i].key, s[j].key)
}

/// Every element respects the key and value size caps, keys are non-empty,
/// and the list is sorted and short enough for size sums to stay in range.
pub open spec fn wf_entries(s: Seq<EntryV>) -> bool {
    &&& entries_sorted(s)
    &&& forall|i: int|
        0 <= i < s.len() ==> 0 < s[i].key.len() <= MAX_KEY_SIZE && s[i].value.len()
            <= MAX_VALUE_SIZE
    &&& s.len() <= 0x7fffffff
}

/// The position of the first element whose key is not below `k`: the
/// insertion point of `k`.
pub open spec fn lower_bound(s: Seq<EntryV>, k: Seq<u8>) -> int
    decreases s.len(),
{
    if s.len() == 0 {
        0
    } else if lex_lt(s[0].key, k) {
        1 + lower_bound(s.skip(1), k)
    } else {
        0
    }
}

/// The element holding key `k`, if any, in a sorted list.
pub open spec fn find_entry(s: Seq<EntryV>, k: Seq<u8>) -> Option<EntryV> {
    let pos = lower_bound(s, k);
    if pos < s.len() && s[pos].key == k {
        Some(s[pos])
    } else {
        None
    }
}

/// The list after writing key `k` with element `e`: replaces an existing
/// element with key `k`, otherwise inserts at the insertion point.
pub open spec fn put_entry(s: Seq<EntryV>, k: Seq<u8>, e: EntryV) -> Seq<EntryV> {
    let pos = lower_bound(s, k);
    if pos < s.len() && s[pos].key == k {
        s.update(pos, e)
    } else {
        s.insert(pos, e)
    }
}

/// The list after deleting key `k`: removes the element with key `k` if
/// present, otherwise leaves the list unchanged.
pub open spec fn del_entry(s: Seq<EntryV>, k: Seq<u8>) -> Seq<EntryV> {
    let pos = lower_bound(s, k);
    if pos < s.len() && s[pos].key == k {
        s.remove(pos)
    } else {
        s
    }
}

/// Basic facts about the insertion point.
pub proof fn lemma_lower_bound_props(s: Seq<EntryV>, k: Seq<u8>)
    ensures
        0 <= lower_bound(s, k) <= s.len(),
        forall|i: int| 0 <= i < lower_bound(s, k) ==> lex_lt(s[i].key, k),
        lower_bound(s, k) < s.len() ==> !lex_lt(s[lower_bound(s, k)].key, k),
    decreases s.len(),
{
    if s.len() > 0 && lex_lt(s[0].key, k) {
        lemma_lower_bound_props(s.skip(1), k);
        let lb = lower_bound(s, k);
        assert forall|i: int| 0 <= i < lb implies lex_lt(s[i].key, k) by {
            if i > 0 {
                assert(s.skip(1)[i - 1] == s[i]);
            }
        }
        if lb < s.len() {
            assert(s.skip(1)[lb - 1] == s[lb]);
        }
    }
}

/// In a sorted list, no element at or after the insertion point has a key
/// below `k`.
pub proof fn lemma_lower_bound_sorted(s: Seq<EntryV>, k: Seq<u8>)
    requires
        entries_sorted(s),
    ensures
        forall|i: int| lower_bound(s, k) <= i < s.len() ==> !lex_lt(s[i].key, k),
{
    let lb = lower_bound(s, k);
    lemma_lower_bound_props(s, k);
    assert forall|i: int| lb <= i < s.len() implies !lex_lt(s[i].key, k) by {
        if i > lb {
            assert(lex_lt(s[lb].key, s[i].key));
            if lex_lt(s[i].key, k) {
                lemma_lex_trans(s[lb].key, s[i].key, k);
            }
        }
    }
}

/// The insertion point is the unique position with smaller keys before it
/// and no smaller key from it on.
pub proof fn lemma_lower_bound_unique(s: Seq<EntryV>, k: Seq<u8>, idx: int)
    requires
        0 <= idx <= s.len(),
        forall|i: int| 0 <= i < idx ==> lex_lt(s[i].key, k),
        forall|i: int| idx <= i < s.len() ==> !lex_lt(s[i].key, k),
    ensures
        idx == lower_bound(s, k),
    decreases s.len(),
{
    if s.len() == 0 {
    } else if lex_lt(s[0].key, k) {
        assert(idx > 0);
        lemma_lower_bound_unique(s.skip(1), k, idx - 1);
        assert forall|i: int| 0 <= i < idx - 1 implies lex_lt(s.skip(1)[i].key, k) by {
            assert(s.skip(1)[i] == s[i + 1]);
        }
    } else {
        assert(idx == 0);
    }
}

/// In a sorted list, a key is present exactly when the element at its
/// insertion point carries it.
pub proof fn lemma_find_entry(s: Seq<EntryV>, k: Seq<u8>)
    requires
        entries_sorted(s),
    ensures
        find_entry(s, k) is Some <==> exists|i: int| 0 <= i < s.len() && s[i].key == k,
        forall|i: int|
            0 <= i < s.len() && s[i].key == k ==> i == lower_bound(s, k) && find_entry(s, k)
                == Some(s[i]),
{
    lemma_lower_bound_props(s, k);
    assert forall|i: int| 0 <= i < s.len() && s[i].key == k implies i == lower_bound(s, k)
        && find_entry(s, k) == Some(s[i]) by {
        assert forall|j: int| 0 <= j < i implies lex_lt(s[j].key, k) by {
            assert(lex_lt(s[j].key, s[i].key));
        }
        assert forall|j: int| i <= j < s.len() implies !lex_lt(s[j].key, k) by {
            if j == i {
                lemma_lex_asym(s[j].key, k);
            } else {
                assert(lex_lt(k, s[j].key));
                lemma_lex_asym(k, s[j].key);
            }
        }
        lemma_lower_bound_unique(s, k, i);
    }
}

/// Writing key `k` keeps the list sorted and changes exactly the binding of
/// `k`, leaving every other key's binding as it was.
pub proof fn lemma_put_entry(s: Seq<EntryV>, e: EntryV)
    requires
        entries_sorted(s),
    ensures
        entries_sorted(put_entry(s, e.key, e)),
        find_entry(put_entry(s, e.key, e), e.key) == Some(e),
        forall|k2: Seq<u8>| k2 != e.key ==> find_entry(put_entry(s, e.key, e), k2)
            == find_entry(s, k2),
        put_entry(s, e.key, e).len() == if find_entry(s, e.key) is Some {
            s.len()
        } else {
            s.len() + 1
        },
{
    let k = e.key;
    let pos = lower_bound(s, k);
    let r = put_entry(s, k, e);
    lemma_lower_bound_props(s, k);
    lemma_lower_bound_sorted(s, k);
    lemma_find_entry(s, k);
    if pos < s.len() && s[pos].key == k {
        // replacement: sortedness is untouched because the key is unchanged
        assert(entries_sorted(r)) by {
            assert forall|i: int, j: int| 0 <= i < j < r.len() implies lex_lt(r[i].key, r[j].key)
                by {
                assert(r[i].key == s[i].key && r[j].key == s[j].key);
            }
        }
        assert forall|i: int| 0 <= i < pos implies lex_lt(r[i].key, k) by {}
        assert forall|i: int| pos <= i < r.len() implies !lex_lt(r[i].key, k) by {
            if i == pos {
                lemma_lex_asym(k, k);
            } else {
                assert(!lex_lt(s[i].key, k));
            }
        }
        lemma_lower_bound_unique(r, k, pos);
        assert forall|k2: Seq<u8>| k2 != k implies find_entry(r, k2) == find_entry(s, k2) by {
            lemma_find_sorted_agree(s, r, pos, k2);
        }
    } else {
        // insertion at the insertion point
        if pos < s.len() {
            lemma_lex_total(s[pos].key, k);
            assert(lex_lt(k, s[pos].key));
        }
        assert(entries_sorted(r)) by {
            assert forall|i: int, j: int| 0 <= i < j < r.len() implies lex_lt(r[i].key, r[j].key)
                by {
                let si = if i < pos {
                    i
                } else {
                    i - 1
                };
                let sj = if j < pos {
                    j
                } else {
                    j - 1
                };
                if i == pos {
                    // r[i] is e; j > pos so r[j] == s[j-1] with !lex_lt(s[j-1].key, k)
                    assert(r[j] == s[j - 1]);
                    assert(!lex_lt(s[j - 1].key, k));
                    lemma_lex_total(s[j - 1].key, k);
                    assert(s[j - 1].key != k);
                } else if j == pos {
                    assert(r[i] == s[i]);
                    assert(lex_lt(s[i].key, k));
                } else {
                    assert(r[i] == s[si] && r[j] == s[sj]);
                    if si == sj {
                        // impossible: i < j and both skip pos
                        assert(false);
                    }
                }
            }
        }
        assert forall|i: int| 0 <= i < pos implies lex_lt(r[i].key, k) by {
            assert(r[i] == s[i]);
        }
        assert forall|i: int| pos <= i < r.len() implies !lex_lt(r[i].key, k) by {
            if i == pos {
                lemma_lex_asym(k, k);
            } else {
                assert(r[i] == s[i - 1]);
                assert(!lex_lt(s[i - 1].key, k));
            }
        }
        lemma_lower_bound_unique(r, k, pos);
        assert(find_entry(r, k) == Some(e));
        assert forall|k2: Seq<u8>| k2 != k implies find_entry(r, k2) == find_entry(s, k2) by {
            lemma_find_sorted_insert_agree(s, r, pos, e, k2);
        }
    }
}

/// Helper: two sorted lists equal except at one position, where both keys
/// equal `k != k2`, agree on `find_entry` at `k2`.
proof fn lemma_find_sorted_agree(s: Seq<EntryV>, r: Seq<EntryV>, pos: int, k2: Seq<u8>)
    requires
        entries_sorted(s),
        entries_sorted(r),
        s.len() == r.len(),
        0 <= pos < s.len(),
        forall|i: int| 0 <= i < s.len() && i != pos ==> r[i] == s[i],
        r[pos].key == s[pos].key,
        k2 != s[pos].key,
    ensures
        find_entry(r, k2) == find_entry(s, k2),
{
    lemma_lower_bound_props(s, k2);
    lemma_lower_bound_props(r, k2);
    lemma_find_entry(s, k2);
    lemma_find_entry(r, k2);
    if find_entry(s, k2) is Some {
        let i = lower_bound(s, k2);
        assert(s[i].key == k2);
        assert(i != pos);
        assert(r[i].key == k2);
        assert(find_entry(r, k2) == Some(r[i]));
    }
    if find_entry(r, k2) is Some {
        let i = lower_bound(r, k2);
        assert(r[i].key == k2);
        assert(i != pos);
        assert(s[i].key == k2);
        assert(find_entry(s, k2) == Some(s[i]));
    }
}

/// Helper: inserting an element with key `k != k2` does not change
/// `find_entry` at `k2`.
proof fn lemma_find_sorted_insert_agree(
    s: Seq<EntryV>,
    r: Seq<EntryV>,
    pos: int,
    e: EntryV,
    k2: Seq<u8>,
)
    requires
        entries_sorted(s),
        entries_sorted(r),
        0 <= pos <= s.len(),
        r == s.insert(pos, e),
        k2 != e.key,
    ensures
        find_entry(r, k2) == find_entry(s, k2),
{
    lemma_lower_bound_props(s, k2);
    lemma_lower_bound_props(r, k2);
    lemma_find_entry(s, k2);
    lemma_find_entry(r, k2);
    if find_entry(s, k2) is Some {
        let i = lower_bound(s, k2);
        assert(s[i].key == k2);
        let j = if i < pos {
            i
        } else {
            i + 1
        };
        assert(r[j] == s[i]);
        assert(find_entry(r, k2) == Some(r[j]));
    }
    if find_entry(r, k2) is Some {
        let j = lower_bound(r, k2);
        assert(r[j].key == k2);
        assert(j != pos);
        let i = if j < pos {
            j
        } else {
            j - 1
        };
        assert(s[i] == r[j]);
        assert(find_entry(s, k2) == Some(s[i]));
    }
}

/// Deleting key `k` keeps the list sorted, removes exactly the binding of
/// `k`, and leaves every other binding as it was.
pub proof fn lemma_del_entry(s: Seq<EntryV>, k: Seq<u8>)
    requires
        entries_sorted(s),
    ensures
        entries_sorted(del_entry(s, k)),
        find_entry(del_entry(s, k), k) is None,
        forall|k2: Seq<u8>| k2 != k ==> find_entry(del_entry(s, k), k2) == find_entry(s, k2),
        del_entry(s, k).len() == if find_entry(s, k) is Some {
            s.len() - 1
        } else {
            s.len() as int
        },
{
    let pos = lower_bound(s, k);
    let r = del_entry(s, k);
    lemma_lower_bound_props(s, k);
    lemma_lower_bound_sorted(s, k);
    lemma_find_entry(s, k);
    if pos < s.len() && s[pos].key == k {
        assert(entries_sorted(r)) by {
            assert forall|i: int, j: int| 0 <= i < j < r.len() implies lex_lt(r[i].key, r[j].key)
                by {
                let si = if i < pos {
                    i
                } else {
                    i + 1
                };
                let sj = if j < pos {
                    j
                } else {
                    j + 1
                };
                assert(r[i] == s[si] && r[j] == s[sj]);
            }
        }
        lemma_find_entry(r, k);
        if find_entry(r, k) is Some {
            let j = lower_bound(r, k);
            assert(r[j].key == k);
            let si = if j < pos {
                j
            } else {
                j + 1
            };
            assert(s[si].key == k);
            assert(si == pos);
            assert(false);
        }
        assert forall|k2: Seq<u8>| k2 != k implies find_entry(r, k2) == find_entry(s, k2) by {
            lemma_lower_bound_props(s, k2);
            lemma_lower_bound_props(r, k2);
            lemma_find_entry(s, k2);
            lemma_find_entry(r, k2);
            if find_entry(s, k2) is Some {
                let i = lower_bound(s, k2);
                assert(s[i].key == k2);
                assert(i != pos);
                let j = if i < pos {
                    i
                } else {
                    i - 1
                };
                assert(r[j] == s[i]);
                assert(find_entry(r, k2) == Some(r[j]));
            }
            if find_entry(r, k2) is Some {
                let j = lower_bound(r, k2);
                assert(r[j].key == k2);
                let si = if j < pos {
                    j
                } else {
                    j + 1
                };
                assert(s[si] == r[j]);
                assert(find_entry(s, k2) == Some(s[si]));
            }
        }
    }
}

/// Writing the same key and element twice is the same as writing it once.
pub proof fn lemma_put_idempotent(s: Seq<EntryV>, e: EntryV)
    requires
        entries_sorted(s),
    ensures
        put_entry(put_entry(s, e.key, e), e.key, e) == put_entry(s, e.key, e),
{
    let r = put_entry(s, e.key, e);
    lemma_put_entry(s, e);
    lemma_put_entry(r, e);
    let pos = lower_bound(r, e.key);
    lemma_find_entry(r, e.key);
    assert(pos < r.len() && r[pos].key == e.key && r[pos] == e);
    assert(put_entry(r, e.key, e) =~= r);
}

/// Sorted view lemmas connecting executable list edits to their images.
pub proof fn lemma_view_insert(s: Seq<INode>, i: int, e: INode)
    requires
        0 <= i <= s.len(),
    ensures
        entries_view(s.insert(i, e)) == entries_view(s).insert(i, e@),
{
    assert(entries_view(s.insert(i, e)) =~= entries_view(s).insert(i, e@));
}

/// The image of a removal is the removal of the image.
pub proof fn lemma_view_remove(s: Seq<INode>, i: int)
    requires
        0 <= i < s.len(),
    ensures
        entries_view(s.remove(i)) == entries_view(s).remove(i),
{
    assert(entries_view(s.remove(i)) =~= entries_view(s).remove(i));
}

/// Finds the insertion point of `key` in a sorted element list by binary
/// search; stable, returning the leftmost feasible position.
pub fn seek(inodes: &Vec<INode>, key: &[u8]) -> (r: usize)
    requires
        entries_sorted(entries_view(inodes@)),
    ensures
        r as int == lower_bound(entries_view(inodes@), key@),
        r <= inodes@.len(),
{
    let ghost s = entries_view(inodes@);
    let mut lo: usize = 0;
    let mut hi: usize = inodes.len();
    while lo < hi
        invariant
            lo <= hi <= inodes@.len(),
            s == entries_view(inodes@),
            entries_sorted(s),
            forall|i: int| 0 <= i < lo ==> lex_lt(s[i].key, key@),
            forall|i: int| hi <= i < s.len() ==> !lex_lt(s[i].key, key@),
        decreases hi - lo,
    {
        let mid = lo + (hi - lo) / 2;
        let ord = key_cmp(inodes[mid].key.as_slice(), key);
        proof {
            assert(inodes@[mid as int]@ == s[mid as int]);
        }
        match ord {
            KeyOrder::Less => {
                proof {
                    assert(lex_lt(s[mid as int].key, key@));
                    assert forall|i: int| 0 <= i < mid + 1 implies lex_lt(s[i].key, key@) by {
                        if i < mid {
                            lemma_lex_trans(s[i].key, s[mid as int].key, key@);
                        }
                    }
                }
                lo = mid + 1;
            },
            _ => {
                proof {
                    assert(!lex_lt(s[mid as int].key, key@)) by {
                        if s[mid as int].key == key@ {
                            lemma_lex_asym(key@, key@);
                        } else {
                            lemma_lex_asym(key@, s[mid as int].key);
                        }
                    }
                    assert forall|i: int| mid <= i < s.len() implies !lex_lt(s[i].key, key@) by {
                        if i > mid {
                            assert(lex_lt(s[mid as int].key, s[i].key));
                            if lex_lt(s[i].key, key@) {
                                lemma_lex_trans(s[mid as int].key, s[i].key, key@);
                            }
                        }
                    }
                }
                hi = mid;
            },
        }
    }
    proof {
        lemma_lower_bound_unique(s, key@, lo as int);
    }
    lo
}

/// An unpacked, mutable image of one tree page.
pub struct NodeW {
    /// Whether this node images a leaf page.
    pub is_leaf: bool,
    /// The id of the page this node was read from; zero when the node has
    /// not yet been materialised as a page.
    pub pgid: u64,
    /// A copy of the node's first key, used as its branch key in the parent.
    pub key: Vec<u8>,
    /// The sorted element list.
    pub inodes: Vec<INode>,
    /// Set when an element was deleted; the node is a rebalance candidate.
    pub unbalanced: bool,
    /// Set once the node has been written to a fresh page on commit.
    pub spilled: bool,
}

impl NodeW {
    /// A node's element images.
    pub open spec fn entries(&self) -> Seq<EntryV> {
        entries_view(self.inodes@)
    }

    /// An empty node.
    pub fn new(is_leaf: bool) -> (r: NodeW)
        ensures
            r.is_leaf == is_leaf,
            r.pgid == 0,
            r.entries() == Seq::<EntryV>::empty(),
            r.unbalanced == false,
            r.spilled == false,
    {
        let r = NodeW {
            is_leaf,
            pgid: 0,
            key: Vec::new(),
            inodes: Vec::new(),
            unbalanced: false,
            spilled: false,
        };
        proof {
            assert(r.entries() =~= Seq::<EntryV>::empty());
        }
        r
    }

    /// Size in bytes of one element descriptor of this node's page kind.
    pub fn page_element_size(&self) -> (r: usize)
        ensures
            r == spec_page_element_size(self.is_leaf),
    {
        if self.is_leaf {
            LEAF_PAGE_ELEMENT_SIZE
        } else {
            BRANCH_PAGE_ELEMENT_SIZE
        }
    }

    /// Minimum number of elements this node needs when it is not the root.
    pub fn min_keys(&self) -> (r: u32)
        ensures
            r == if self.is_leaf {
                1u32
            } else {
                2u32
            },
    {
        if self.is_leaf {
            1
        } else {
            2
        }
    }

    /// Inserts `new_key` with `value`, `pgid` and `flags` at the position of
    /// `old_key`: replaces the element carrying `old_key` if present,
    /// otherwise inserts at `old_key`'s insertion point.
    pub fn put(&mut self, old_key: &[u8], new_key: &[u8], value: &[u8], pgid: u64, flags: u32)
        requires
            entries_sorted(old(self).entries()),
            old_key@.len() > 0,
            new_key@.len() > 0,
            old(self).inodes@.len() < 0x7fffffff,
        ensures
            final(self).entries() == put_entry(
                old(self).entries(),
                old_key@,
                EntryV { flags, pgid, key: new_key@, value: value@ },
            ),
            final(self).is_leaf == old(self).is_leaf,
            final(self).pgid == old(self).pgid,
            final(self).key == old(self).key,
            final(self).unbalanced == old(self).unbalanced,
            final(self).spilled == old(self).spilled,
    {
        let ghost s = self.entries();
        let pos = seek(&self.inodes, old_key);
        let e = INode {
            flags,
            pgid,
            key: slice_to_vec(new_key),
            value: slice_to_vec(value),
        };
        proof {
            lemma_lower_bound_props(s, old_key@);
        }
        if pos < self.inodes.len() && key_cmp(self.inodes[pos].key.as_slice(), old_key)
            == KeyOrder::Equal {
            proof {
                assert(self.inodes@[pos as int]@ == s[pos as int]);
            }
            let ghost ev = e@;
            self.inodes.remove(pos);
            self.inodes.insert(pos, e);
            proof {
                lemma_view_remove(old(self).inodes@, pos as int);
                lemma_view_insert(old(self).inodes@.remove(pos as int), pos as int, e);
                assert(entries_view(self.inodes@) =~= s.update(pos as int, ev));
            }
        } else {
            proof {
                if pos < self.inodes@.len() {
                    assert(self.inodes@[pos as int]@ == s[pos as int]);
                }
            }
            self.inodes.insert(pos, e);
            proof {
                lemma_view_insert(old(self).inodes@, pos as int, e);
            }
        }
    }

    /// Removes the element carrying `key` if present, and marks the node as
    /// a rebalance candidate either way.
    pub fn del(&mut self, key: &[u8])
        requires
            entries_sorted(old(self).entries()),
        ensures
            final(self).entries() == del_entry(old(self).entries(), key@),
            final(self).unbalanced == true,
            final(self).is_leaf == old(self).is_leaf,
            final(self).pgid == old(self).pgid,
            final(self).key == old(self).key,
            final(self).spilled == old(self).spilled,
    {
        let ghost s = self.entries();
        let pos = seek(&self.inodes, key);
        proof {
            lemma_lower_bound_props(s, key@);
        }
        if pos < self.inodes.len() && key_cmp(self.inodes[pos].key.as_slice(), key)
            == KeyOrder::Equal {
            proof {
                assert(self.inodes@[pos as int]@ == s[pos as int]);
            }
            self.inodes.remove(pos);
            proof {
                lemma_view_remove(old(self).inodes@, pos as int);
            }
        } else {
            proof {
                if pos < self.inodes@.len() {
                    assert(self.inodes@[pos as int]@ == s[pos as int]);
                }
                assert(self.entries() == del_entry(s, key@));
            }
        }
        self.unbalanced = true;
    }
}

/// On-page size in bytes of one element: its descriptor plus its key and
/// value bytes.
pub open spec fn entry_size(e: EntryV, es: int) -> int {
    es + e.key.len() + e.value.len()
}

/// Total on-page size of an element list's descriptors, keys and values.
pub open spec fn entries_size(s: Seq<EntryV>, es: int) -> int
    decreases s.len(),
{
    if s.len() == 0 {
        0
    } else {
        entry_size(s[0], es) + entries_size(s.skip(1), es)
    }
}

/// Projected on-page size of a node: header plus all elements.
pub open spec fn node_size(s: Seq<EntryV>, is_leaf: bool) -> int {
    PAGE_HEADER_SIZE + entries_size(s, spec_page_element_size(is_leaf))
}

/// Element sizes add over concatenation.
pub proof fn lemma_entries_size_concat(a: Seq<EntryV>, b: Seq<EntryV>, es: int)
    ensures
        entries_size(a + b, es) == entries_size(a, es) + entries_size(b, es),
    decreases a.len(),
{
    if a.len() == 0 {
        assert(a + b =~= b);
    } else {
        assert((a + b).skip(1) =~= a.skip(1) + b);
        lemma_entries_size_concat(a.skip(1), b, es);
    }
}

/// Extending a prefix by one element grows the size by that element.
pub proof fn lemma_entries_size_take(s: Seq<EntryV>, i: int, es: int)
    requires
        0 <= i < s.len(),
    ensures
        entries_size(s.take(i + 1), es) == entries_size(s.take(i), es) + entry_size(s[i], es),
{
    let single = seq![s[i]];
    assert(single.skip(1) =~= Seq::<EntryV>::empty());
    assert(entries_size(single, es) == entry_size(s[i], es) + entries_size(single.skip(1), es));
    assert(entries_size(Seq::<EntryV>::empty(), es) == 0);
    assert(s.take(i + 1) =~= s.take(i) + single);
    lemma_entries_size_concat(s.take(i), single, es);
}

/// A size-capped element list has a size linear in its length.
pub proof fn lemma_entries_size_bound(s: Seq<EntryV>, es: int)
    requires
        0 <= es <= 16,
        forall|i: int|
            0 <= i < s.len() ==> s[i].key.len() <= MAX_KEY_SIZE && s[i].value.len()
                <= MAX_VALUE_SIZE,
    ensures
        0 <= entries_size(s, es) <= s.len() * 0x8000800e,
    decreases s.len(),
{
    if s.len() > 0 {
        assert forall|i: int|
            0 <= i < s.skip(1).len() implies s.skip(1)[i].key.len() <= MAX_KEY_SIZE && s.skip(
            1,
        )[i].value.len() <= MAX_VALUE_SIZE by {
            assert(s.skip(1)[i] == s[i + 1]);
        }
        lemma_entries_size_bound(s.skip(1), es);
        assert(entry_size(s[0], es) <= 0x8000800e);
        assert((s.len() - 1) * 0x8000800e + 0x8000800e == s.len() * 0x8000800e) by (nonlinear_arith);
    }
}

/// A prefix never outweighs the whole list.
pub proof fn lemma_entries_size_prefix(s: Seq<EntryV>, i: int, es: int)
    requires
        0 <= i <= s.len(),
        es >= 0,
    ensures
        entries_size(s.take(i), es) <= entries_size(s, es),
{
    assert(s =~= s.take(i) + s.skip(i));
    lemma_entries_size_concat(s.take(i), s.skip(i), es);
    lemma_entries_size_nonneg(s.skip(i), es);
}

/// Sizes are never negative.
pub proof fn lemma_entries_size_nonneg(s: Seq<EntryV>, es: int)
    requires
        es >= 0,
    ensures
        entries_size(s, es) >= 0,
    decreases s.len(),
{
    if s.len() > 0 {
        lemma_entries_size_nonneg(s.skip(1), es);
    }
}

/// The walk that picks a split position: starting at element `i` with `size`
/// bytes already accounted, it advances until adding the next element would
/// push a chunk of at least `MIN_KEYS_PER_PAGE` elements past `threshold`,
/// or until only `MIN_KEYS_PER_PAGE` elements and one more remain.
pub open spec fn split_walk(s: Seq<EntryV>, es: int, threshold: int, i: int, size: int) -> (
    int,
    int,
)
    decreases s.len() - MIN_KEYS_PER_PAGE - i,
{
    let lim = s.len() - MIN_KEYS_PER_PAGE;
    if i < 0 || i >= lim {
        (i, size)
    } else {
        let el = entry_size(s[i], es);
        if i >= MIN_KEYS_PER_PAGE && size + el > threshold {
            (i, size)
        } else if i == lim - 1 {
            (i, size + el)
        } else {
            split_walk(s, es, threshold, i + 1, size + el)
        }
    }
}

/// The split position chosen for an element list.
pub open spec fn spec_split_index(s: Seq<EntryV>, es: int, threshold: int) -> (int, int) {
    if s.len() <= MIN_KEYS_PER_PAGE {
        (0, PAGE_HEADER_SIZE as int)
    } else {
        split_walk(s, es, threshold, 0, PAGE_HEADER_SIZE as int)
    }
}

/// Where the walk lands: between `MIN_KEYS_PER_PAGE` and the last feasible
/// position, and the chunk it cuts is within the threshold unless it is the
/// forced minimum.
pub proof fn lemma_split_walk_props(s: Seq<EntryV>, es: int, threshold: int, i: int, size: int)
    requires
        es >= 0,
        s.len() > 2 * MIN_KEYS_PER_PAGE,
        0 <= i <= MIN_KEYS_PER_PAGE || (MIN_KEYS_PER_PAGE < i < s.len() - MIN_KEYS_PER_PAGE && size
            <= threshold),
        i < s.len() - MIN_KEYS_PER_PAGE,
        size == PAGE_HEADER_SIZE + entries_size(s.take(i), es),
    ensures
        ({
            let (idx, _) = split_walk(s, es, threshold, i, size);
            &&& i <= idx <= s.len() - MIN_KEYS_PER_PAGE - 1
            &&& idx >= MIN_KEYS_PER_PAGE
            &&& (PAGE_HEADER_SIZE + entries_size(s.take(idx), es) <= threshold || idx
                == MIN_KEYS_PER_PAGE)
        }),
    decreases s.len() - MIN_KEYS_PER_PAGE - i,
{
    let lim = s.len() - MIN_KEYS_PER_PAGE;
    let el = entry_size(s[i], es);
    lemma_entries_size_take(s, i, es);
    if i >= MIN_KEYS_PER_PAGE && size + el > threshold {
    } else if i == lim - 1 {
        if lim - 1 > MIN_KEYS_PER_PAGE {
            assert(size <= threshold);
        }
    } else {
        lemma_split_walk_props(s, es, threshold, i + 1, size + el);
    }
}

/// Size in bytes of one element descriptor.
pub open spec fn spec_page_element_size(is_leaf: bool) -> int {
    if is_leaf {
        LEAF_PAGE_ELEMENT_SIZE as int
    } else {
        BRANCH_PAGE_ELEMENT_SIZE as int
    }
}

/// The element images of a node sequence, in order.
pub open spec fn nodes_flat(ns: Seq<NodeW>) -> Seq<EntryV>
    decreases ns.len(),
{
    if ns.len() == 0 {
        Seq::<EntryV>::empty()
    } else {
        entries_view(ns[0].inodes@) + nodes_flat(ns.skip(1))
    }
}

/// Appending a node appends its elements.
pub proof fn lemma_nodes_flat_push(ns: Seq<NodeW>, n: NodeW)
    ensures
        nodes_flat(ns.push(n)) == nodes_flat(ns) + entries_view(n.inodes@),
    decreases ns.len(),
{
    if ns.len() == 0 {
        assert(ns.push(n)[0] == n);
        assert(ns.push(n).skip(1) =~= Seq::<NodeW>::empty());
        assert(nodes_flat(ns.push(n).skip(1)) == Seq::<EntryV>::empty());
        assert(nodes_flat(ns) == Seq::<EntryV>::empty());
        assert(nodes_flat(ns.push(n)) =~= nodes_flat(ns) + entries_view(n.inodes@));
    } else {
        assert(ns.push(n).skip(1) =~= ns.skip(1).push(n));
        lemma_nodes_flat_push(ns.skip(1), n);
        assert(ns.push(n)[0] == ns[0]);
        assert(nodes_flat(ns.push(n)) == entries_view(ns[0].inodes@) + (nodes_flat(ns.skip(1))
            + entries_view(n.inodes@)));
        assert(nodes_flat(ns.push(n)) =~= nodes_flat(ns) + entries_view(n.inodes@));
    }
}

/// Nodes of at least the minimum size flatten to at least twice their count.
pub proof fn lemma_flat_min_len(ns: Seq<NodeW>)
    requires
        forall|i: int|
            0 <= i < ns.len() ==> (#[trigger] ns[i]).inodes@.len() >= MIN_KEYS_PER_PAGE,
    ensures
        nodes_flat(ns).len() >= MIN_KEYS_PER_PAGE * ns.len(),
    decreases ns.len(),
{
    if ns.len() > 0 {
        assert forall|i: int|
            0 <= i < ns.skip(1).len() implies (#[trigger] ns.skip(1)[i]).inodes@.len()
            >= MIN_KEYS_PER_PAGE by {
            assert(ns.skip(1)[i] == ns[i + 1]);
        }
        lemma_flat_min_len(ns.skip(1));
    }
}

impl NodeW {
    /// Projected on-page size of this node.
    pub fn size(&self) -> (r: u64)
        requires
            wf_entries(self.entries()),
        ensures
            r == node_size(self.entries(), self.is_leaf),
    {
        let ghost s = self.entries();
        let es = self.page_element_size() as u64;
        let mut total: u64 = PAGE_HEADER_SIZE as u64;
        let mut i: usize = 0;
        while i < self.inodes.len()
            invariant
                i <= self.inodes@.len(),
                s == self.entries(),
                wf_entries(s),
                es == spec_page_element_size(self.is_leaf),
                total == PAGE_HEADER_SIZE + entries_size(s.take(i as int), es as int),
            decreases self.inodes@.len() - i,
        {
            proof {
                lemma_entries_size_bound(s.take(i as int), es as int);
                vstd::arithmetic::mul::lemma_mul_inequality(
                    i as int,
                    0x80000000,
                    0x8000800e,
                );
                assert(self.inodes@[i as int]@ == s[i as int]);
                lemma_entries_size_take(s, i as int, es as int);
            }
            let kl = self.inodes[i].key.len() as u64;
            let vl = self.inodes[i].value.len() as u64;
            total = total + es + kl + vl;
            i = i + 1;
        }
        proof {
            assert(s.take(s.len() as int) =~= s);
        }
        total
    }

    /// Whether the projected on-page size stays within `v` bytes.
    pub fn size_less_than(&self, v: u64) -> (r: bool)
        requires
            wf_entries(self.entries()),
        ensures
            r == (node_size(self.entries(), self.is_leaf) <= v),
    {
        let ghost s = self.entries();
        let es = self.page_element_size() as u64;
        if v < PAGE_HEADER_SIZE as u64 {
            proof {
                lemma_entries_size_nonneg(s, es as int);
            }
            return false;
        }
        let mut total: u64 = PAGE_HEADER_SIZE as u64;
        let mut i: usize = 0;
        while i < self.inodes.len()
            invariant
                i <= self.inodes@.len(),
                s == self.entries(),
                wf_entries(s),
                es == spec_page_element_size(self.is_leaf),
                total == PAGE_HEADER_SIZE + entries_size(s.take(i as int), es as int),
                total <= v,
            decreases self.inodes@.len() - i,
        {
            proof {
                lemma_entries_size_bound(s.take(i as int), es as int);
                vstd::arithmetic::mul::lemma_mul_inequality(
                    i as int,
                    0x80000000,
                    0x8000800e,
                );
                assert(self.inodes@[i as int]@ == s[i as int]);
                lemma_entries_size_take(s, i as int, es as int);
            }
            let kl = self.inodes[i].key.len() as u64;
            let vl = self.inodes[i].value.len() as u64;
            total = total + es + kl + vl;
            if total > v {
                proof {
                    lemma_entries_size_prefix(s, i + 1, es as int);
                }
                return false;
            }
            i = i + 1;
        }
        proof {
            assert(s.take(s.len() as int) =~= s);
        }
        true
    }

    /// Picks the position at which to split this node so that the first
    /// chunk stays within `threshold` bytes, and the size accumulated up to
    /// that position.
    pub fn split_index(&self, threshold: u64) -> (r: (usize, u64))
        requires
            wf_entries(self.entries()),
        ensures
            (r.0 as int, r.1 as int) == spec_split_index(
                self.entries(),
                spec_page_element_size(self.is_leaf),
                threshold as int,
            ),
    {
        let ghost s = self.entries();
        let ghost es = spec_page_element_size(self.is_leaf);
        let elem_size = self.page_element_size() as u64;
        let mut size: u64 = PAGE_HEADER_SIZE as u64;
        let mut index: usize = 0;
        if self.inodes.len() <= MIN_KEYS_PER_PAGE {
            return (0, size);
        }
        let lim = self.inodes.len() - MIN_KEYS_PER_PAGE;
        let mut i: usize = 0;
        loop
            invariant_except_break
                0 <= i < lim,
                lim == s.len() - MIN_KEYS_PER_PAGE,
                s.len() > MIN_KEYS_PER_PAGE,
                s == self.entries(),
                wf_entries(s),
                es == spec_page_element_size(self.is_leaf),
                elem_size == es,
                size == PAGE_HEADER_SIZE + entries_size(s.take(i as int), es),
                split_walk(s, es, threshold as int, 0, PAGE_HEADER_SIZE as int) == split_walk(
                    s,
                    es,
                    threshold as int,
                    i as int,
                    size as int,
                ),
            ensures
                (index as int, size as int) == split_walk(
                    s,
                    es,
                    threshold as int,
                    0,
                    PAGE_HEADER_SIZE as int,
                ),
            decreases lim - i,
        {
            proof {
                lemma_entries_size_bound(s.take(i as int), es);
                vstd::arithmetic::mul::lemma_mul_inequality(
                    i as int,
                    0x80000000,
                    0x8000800e,
                );
                assert(self.inodes@[i as int]@ == s[i as int]);
                lemma_entries_size_take(s, i as int, es);
            }
            index = i;
            let ghost size0 = size;
            let kl = self.inodes[i].key.len() as u64;
            let vl = self.inodes[i].value.len() as u64;
            let el = elem_size + kl + vl;
            proof {
                assert(el == entry_size(s[i as int], es));
            }
            if i >= MIN_KEYS_PER_PAGE && size + el > threshold {
                proof {
                    assert(split_walk(s, es, threshold as int, i as int, size0 as int) == (
                        i as int,
                        size0 as int,
                    ));
                }
                break;
            }
            size = size + el;
            if i == lim - 1 {
                proof {
                    assert(split_walk(s, es, threshold as int, i as int, size0 as int) == (
                        i as int,
                        size0 + el,
                    ));
                }
                break;
            }
            proof {
                assert(split_walk(s, es, threshold as int, i as int, size0 as int) == split_walk(
                    s,
                    es,
                    threshold as int,
                    i as int + 1,
                    size0 + el,
                ));
            }
            i = i + 1;
        }
        (index, size)
    }

    /// Splits this node into a list of sibling nodes, each within the page
    /// size where possible. The elements are preserved in order; when a
    /// split happens every piece keeps at least `MIN_KEYS_PER_PAGE`
    /// elements; each piece outgrows the page only while holding no more
    /// than `2 * MIN_KEYS_PER_PAGE` elements (it then needs overflow pages).
    #[verifier::rlimit(30)]
    pub fn split(self, page_size: u32, fill_percent: u32) -> (r: Vec<NodeW>)
        requires
            wf_entries(self.entries()),
            1 <= fill_percent <= 100,
            page_size >= 16,
        ensures
            r@.len() >= 1,
            nodes_flat(r@) == self.entries(),
            forall|i: int|
                0 <= i < r@.len() ==> wf_entries(#[trigger] r@[i].entries()) && r@[i].is_leaf
                    == self.is_leaf && (node_size(r@[i].entries(), self.is_leaf) <= page_size
                    || r@[i].inodes@.len() <= 2 * MIN_KEYS_PER_PAGE),
            r@[0].pgid == self.pgid,
            forall|i: int| 0 < i < r@.len() ==> #[trigger] r@[i].pgid == 0,
            r@.len() > 1 ==> forall|i: int|
                0 <= i < r@.len() ==> #[trigger] r@[i].inodes@.len() >= MIN_KEYS_PER_PAGE,
            r@.len() == 1 <==> (node_size(self.entries(), self.is_leaf) <= page_size
                || self.inodes@.len() <= 2 * MIN_KEYS_PER_PAGE),
            r@.len() == 1 ==> r@[0] == self,
    {
        let ghost orig = self.entries();
        let ghost first_pgid = self.pgid;
        let ghost leaf = self.is_leaf;
        let mut out: Vec<NodeW> = Vec::new();
        let mut node = self;
        loop
            invariant_except_break
                1 <= fill_percent <= 100,
                page_size >= 16,
                wf_entries(node.entries()),
                node.is_leaf == leaf,
                nodes_flat(out@) + node.entries() == orig,
                if out@.len() == 0 {
                    node.pgid == first_pgid
                } else {
                    node.pgid == 0 && out@[0].pgid == first_pgid
                },
                forall|i: int|
                    0 <= i < out@.len() ==> wf_entries(#[trigger] out@[i].entries())
                        && out@[i].is_leaf == leaf && out@[i].inodes@.len() >= MIN_KEYS_PER_PAGE
                        && (node_size(out@[i].entries(), leaf) <= page_size
                        || out@[i].inodes@.len() <= 2 * MIN_KEYS_PER_PAGE),
                forall|i: int| 0 < i < out@.len() ==> #[trigger] out@[i].pgid == 0,
                node.inodes@.len() >= MIN_KEYS_PER_PAGE || out@.len() == 0,
                out@.len() == 0 ==> node == self,
                node_size(orig, leaf) <= page_size || orig.len() <= 2 * MIN_KEYS_PER_PAGE
                    ==> out@.len() == 0,
            ensures
                out@.len() >= 1,
                nodes_flat(out@) == orig,
                out@[0].pgid == first_pgid,
                forall|i: int| 0 < i < out@.len() ==> #[trigger] out@[i].pgid == 0,
                forall|i: int|
                    0 <= i < out@.len() ==> wf_entries(#[trigger] out@[i].entries())
                        && out@[i].is_leaf == leaf && (node_size(out@[i].entries(), leaf)
                        <= page_size || out@[i].inodes@.len() <= 2 * MIN_KEYS_PER_PAGE),
                out@.len() > 1 ==> forall|i: int|
                    0 <= i < out@.len() ==> #[trigger] out@[i].inodes@.len() >= MIN_KEYS_PER_PAGE,
                out@.len() == 1 <==> (node_size(orig, leaf) <= page_size || orig.len() <= 2
                    * MIN_KEYS_PER_PAGE),
                out@.len() == 1 ==> out@[0] == self,
            decreases node.inodes@.len(),
        {
            let ghost s = node.entries();
            let ghost es = spec_page_element_size(leaf);
            if node.inodes.len() <= 2 * MIN_KEYS_PER_PAGE || node.size_less_than(page_size as u64)
            {
                let ghost n0 = node;
                let ghost out_before = out@;
                proof {
                    assert(out_before.len() > 0 ==> n0.inodes@.len() >= MIN_KEYS_PER_PAGE);
                }
                out.push(node);
                proof {
                    assert(out@ == out_before.push(n0));
                    lemma_nodes_flat_push(out_before, n0);
                    assert(nodes_flat(out@) =~= orig);
                    assert forall|i: int| 0 <= i < out@.len() implies wf_entries(
                        #[trigger] out@[i].entries(),
                    ) && out@[i].is_leaf == leaf && (node_size(out@[i].entries(), leaf)
                        <= page_size || out@[i].inodes@.len() <= 2 * MIN_KEYS_PER_PAGE) by {
                        if i < out_before.len() {
                            assert(out@[i] == out_before[i]);
                        } else {
                            assert(out@[i] == n0);
                        }
                    }
                    if out@.len() > 1 {
                        assert forall|i: int| 0 <= i < out@.len() implies #[trigger] out@[
                            i
                        ].inodes@.len() >= MIN_KEYS_PER_PAGE by {
                            if i < out_before.len() {
                                assert(out@[i] == out_before[i]);
                                assert(wf_entries(out_before[i].entries()) && out_before[
                                    i
                                ].inodes@.len() >= MIN_KEYS_PER_PAGE);
                            } else {
                                assert(out@[i] == n0);
                                assert(out_before.len() > 0);
                            }
                        }
                    }
                    assert forall|i: int| 0 < i < out@.len() implies #[trigger] out@[i].pgid
                        == 0 by {
                        if i < out_before.len() {
                            assert(out@[i] == out_before[i]);
                        } else {
                            assert(out@[i] == n0);
                        }
                    }
                }
                break;
            }
            let ps = page_size as u64;
            let fp = fill_percent as u64;
            proof {
                assert(ps * fp <= 0xffffffffu64 * 100) by (nonlinear_arith)
                    requires
                        ps <= 0xffffffffu64,
                        fp <= 100,
                ;
                assert(ps * fp / 100 <= ps) by (nonlinear_arith)
                    requires
                        ps >= 0,
                        0 <= fp <= 100,
                ;
            }
            let threshold_wide = ps * fp / 100;
            let threshold = if threshold_wide < PAGE_HEADER_SIZE as u64 {
                PAGE_HEADER_SIZE as u64
            } else {
                threshold_wide
            };
            let (idx, _) = node.split_index(threshold);
            proof {
                lemma_split_walk_props(s, es, threshold as int, 0, PAGE_HEADER_SIZE as int);
            }
            let tail_inodes = node.inodes.split_off(idx);
            let next_key = slice_to_vec(tail_inodes[0].key.as_slice());
            let next = NodeW {
                is_leaf: node.is_leaf,
                pgid: 0,
                key: next_key,
                inodes: tail_inodes,
                unbalanced: false,
                spilled: false,
            };
            let ghost left = node;
            proof {
                assert(entries_view(node.inodes@) =~= s.take(idx as int));
                assert(entries_view(next.inodes@) =~= s.skip(idx as int));
                assert(s =~= s.take(idx as int) + s.skip(idx as int));
                assert(s == entries_view(node.inodes@) + entries_view(next.inodes@));
                lemma_sorted_split(s, idx as int);
                lemma_entries_size_prefix(s, idx as int, es);
            }
            let ghost out_before = out@;
            out.push(node);
            proof {
                assert(out@ == out_before.push(left));
                lemma_nodes_flat_push(out_before, left);
                assert(nodes_flat(out@) + next.entries() =~= orig);
                assert(left.entries() == s.take(idx as int));
                assert(wf_entries(left.entries()));
                assert(node_size(left.entries(), leaf) <= threshold || idx == MIN_KEYS_PER_PAGE);
                assert forall|i: int| 0 <= i < out@.len() implies wf_entries(
                    #[trigger] out@[i].entries(),
                ) && out@[i].is_leaf == leaf && out@[i].inodes@.len() >= MIN_KEYS_PER_PAGE && (
                node_size(out@[i].entries(), leaf) <= page_size || out@[i].inodes@.len() <= 2
                    * MIN_KEYS_PER_PAGE) by {
                    if i < out_before.len() {
                        assert(out@[i] == out_before[i]);
                    } else {
                        assert(out@[i] == left);
                    }
                }
                assert forall|i: int| 0 < i < out@.len() implies #[trigger] out@[i].pgid == 0 by {
                    if i < out_before.len() {
                        assert(out@[i] == out_before[i]);
                    } else {
                        assert(out@[i] == left);
                    }
                }
            }
            node = next;
        }
        proof {
            assert forall|i: int| 0 <= i < out@.len() implies wf_entries(
                #[trigger] out@[i].entries(),
            ) && out@[i].is_leaf == leaf by {
                assert(wf_entries(out@[i].entries()) && out@[i].is_leaf == leaf && (node_size(
                    out@[i].entries(),
                    leaf,
                ) <= page_size || out@[i].inodes@.len() <= 2 * MIN_KEYS_PER_PAGE));
            }
        }
        out
    }
}

/// Both halves of a sorted list are sorted, and their well-formedness is
/// inherited.
pub proof fn lemma_sorted_split(s: Seq<EntryV>, i: int)
    requires
        wf_entries(s),
        0 <= i <= s.len(),
    ensures
        wf_entries(s.take(i)),
        wf_entries(s.skip(i)),
{
    assert forall|a: int, b: int| 0 <= a < b < s.take(i).len() implies lex_lt(
        #[trigger] s.take(i)[a].key,
        #[trigger] s.take(i)[b].key,
    ) by {
        assert(s.take(i)[a] == s[a] && s.take(i)[b] == s[b]);
    }
    assert forall|a: int, b: int| 0 <= a < b < s.skip(i).len() implies lex_lt(
        #[trigger] s.skip(i)[a].key,
        #[trigger] s.skip(i)[b].key,
    ) by {
        assert(s.skip(i)[a] == s[a + i] && s.skip(i)[b] == s[b + i]);
    }
}

/// Copies a byte slice into an owned vector.
pub fn slice_to_vec(s: &[u8]) -> (r: Vec<u8>)
    ensures
        r@ == s@,
{
    crate::bytes::get_bytes(s, 0, s.len())
}

} // verus!
