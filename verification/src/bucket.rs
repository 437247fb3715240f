//! Buckets: named containers of keys, values and nested buckets.
//!
//! A bucket owns a sorted element list (its materialised leaf image) and the
//! materialised sub-buckets that its bucket-flagged elements name. Reads and
//! writes act on the element list; the commit path later serialises it into
//! a page tree, or inline into the parent's leaf value when small enough.

use vstd::prelude::*;

use crate::bytes::{lex_lt, key_cmp, KeyOrder};
use crate::errors::Error;
use crate::meta::{InBucket, in_bucket_bytes, IN_BUCKET_SIZE};
use crate::node::{INode, EntryV, NodeW, entries_view, entries_sorted, wf_entries, find_entry,
    put_entry, del_entry, lower_bound, seek, slice_to_vec, lemma_find_entry, lemma_put_entry,
    lemma_del_entry, lemma_lower_bound_props, MAX_KEY_SIZE, MAX_VALUE_SIZE};
use crate::page::{BUCKET_LEAF_FLAG, PAGE_HEADER_SIZE};
use crate::tree::tree_page_bytes;

verus! {

/// Placeholder for bucket statistics.
pub struct BucketStats {}

/// The read-only part of a bucket: its header and, for an inline bucket,
/// the raw bytes of its synthetic page.
pub struct BucketR {
    /// The bucket's header: root page id and sequence counter.
    pub bucket_header: InBucket,
    /// The synthetic page bytes of an inline bucket.
    pub inline_page: Option<Vec<u8>>,
}

impl BucketR {
    /// A bucket view over a header, with no inline page.
    pub fn new(in_bucket: InBucket) -> (r: BucketR)
        ensures
            r.bucket_header == in_bucket,
            r.inline_page is None,
    {
        BucketR { bucket_header: in_bucket, inline_page: None }
    }
}

/// A materialised bucket: element list, sub-buckets and bookkeeping.
pub struct Bucket {
    /// Header and optional inline page view.
    pub r: BucketR,
    /// The bucket's materialised, key-sorted element list.
    pub node: NodeW,
    /// Materialised sub-buckets, named by their keys in the element list.
    pub children: Vec<(Vec<u8>, Bucket)>,
    /// The page runs the bucket's previous tree occupied, freed on commit.
    pub old_pages: Vec<(u64, u32)>,
}

/// Well-formed bucket of nesting depth at most `depth`: the element list is
/// sorted and size-capped, child names are non-empty, distinct, and each
/// names a bucket-flagged element; children are well-formed one level down.
pub open spec fn wf_bucket(b: Bucket, depth: int) -> bool
    decreases depth,
{
    &&& wf_bucket_shallow(b)
    &&& if depth <= 0 {
        b.children@.len() == 0
    } else {
        forall|i: int|
            0 <= i < b.children@.len() ==> wf_bucket((#[trigger] b.children@[i]).1, depth - 1)
    }
}

/// The serialised value of a freshly created bucket: a zero header followed
/// by an empty synthetic leaf page.
pub open spec fn empty_bucket_value() -> Seq<u8> {
    in_bucket_bytes(InBucket { root: 0, sequence: 0 }) + tree_page_bytes(
        0,
        0,
        Seq::<EntryV>::empty(),
        true,
    )
}

/// Largest total size at which a bucket is written inline in its parent.
pub fn max_inline_bucket_size(page_size: u32) -> (r: u32)
    ensures
        r == page_size / 4,
{
    page_size / 4
}

impl Bucket {
    /// A new empty bucket.
    pub fn new_empty() -> (r: Bucket)
        ensures
            r.node.entries() == Seq::<EntryV>::empty(),
            r.children@ == Seq::<(Vec<u8>, Bucket)>::empty(),
            r.old_pages@ == Seq::<(u64, u32)>::empty(),
            r.r.bucket_header == (InBucket { root: 0, sequence: 0 }),
            forall|d: int| wf_bucket(r, d),
    {
        let r = Bucket {
            r: BucketR::new(InBucket { root: 0, sequence: 0 }),
            node: NodeW::new(true),
            children: Vec::new(),
            old_pages: Vec::new(),
        };
        proof {
            assert forall|d: int| wf_bucket(r, d) by {
                assert(r.node.entries().len() == 0);
            }
        }
        r
    }

    /// The bucket's root page id; zero for an inline bucket.
    pub fn root(&self) -> (r: u64)
        ensures
            r == self.r.bucket_header.root,
    {
        self.r.bucket_header.root
    }

    /// The bucket's sequence counter.
    pub fn sequence(&self) -> (r: u64)
        ensures
            r == self.r.bucket_header.sequence,
    {
        self.r.bucket_header.sequence
    }

    /// Sets the bucket's sequence counter.
    pub fn set_sequence(&mut self, v: u64) -> (r: Result<(), Error>)
        ensures
            r is Ok,
            final(self).r.bucket_header.sequence == v,
            final(self).r.bucket_header.root == old(self).r.bucket_header.root,
            final(self).node == old(self).node,
            final(self).children == old(self).children,
            final(self).old_pages == old(self).old_pages,
    {
        self.r.bucket_header.sequence = v;
        Ok(())
    }

    /// Increments and returns the bucket's sequence counter, wrapping on
    /// overflow.
    pub fn next_sequence(&mut self) -> (r: Result<u64, Error>)
        ensures
            final(self).r.bucket_header.sequence == if old(self).r.bucket_header.sequence
                == u64::MAX {
                0u64
            } else {
                (old(self).r.bucket_header.sequence + 1) as u64
            },
            r == Result::<u64, Error>::Ok(final(self).r.bucket_header.sequence),
            final(self).r.bucket_header.root == old(self).r.bucket_header.root,
            final(self).node == old(self).node,
            final(self).children == old(self).children,
            final(self).old_pages == old(self).old_pages,
    {
        self.r.bucket_header.sequence = self.r.bucket_header.sequence.wrapping_add(1);
        Ok(self.r.bucket_header.sequence)
    }

    /// Placeholder statistics for the bucket.
    pub fn status(&self) -> BucketStats {
        BucketStats {  }
    }

    /// Looks a key up: its value when it holds a plain value, nothing when
    /// the key is absent or names a bucket.
    pub fn get(&self, key: &[u8]) -> (r: Option<Vec<u8>>)
        requires
            entries_sorted(self.node.entries()),
        ensures
            match find_entry(self.node.entries(), key@) {
                Some(e) => if e.flags & BUCKET_LEAF_FLAG == 0 {
                    r is Some && r.unwrap()@ == e.value
                } else {
                    r is None
                },
                None => r is None,
            },
    {
        let ghost s = self.node.entries();
        let pos = seek(&self.node.inodes, key);
        proof {
            lemma_lower_bound_props(s, key@);
            lemma_find_entry(s, key@);
        }
        if pos < self.node.inodes.len() && key_cmp(self.node.inodes[pos].key.as_slice(), key)
            == KeyOrder::Equal {
            proof {
                assert(self.node.inodes@[pos as int]@ == s[pos as int]);
            }
            if self.node.inodes[pos].flags & BUCKET_LEAF_FLAG == 0 {
                Some(slice_to_vec(self.node.inodes[pos].value.as_slice()))
            } else {
                None
            }
        } else {
            proof {
                if pos < self.node.inodes@.len() {
                    assert(self.node.inodes@[pos as int]@ == s[pos as int]);
                }
            }
            None
        }
    }

    /// Inserts or overwrites a plain value. An empty key, an oversized key
    /// or value, and a key naming a bucket are rejected, in that order of
    /// checking, without changing anything. The element-count cap refuses
    /// only insertions: overwriting an existing key always succeeds, so a
    /// repeated identical put stays idempotent at the cap.
    pub fn put(&mut self, key: &[u8], value: &[u8]) -> (r: Result<(), Error>)
        requires
            wf_entries(old(self).node.entries()),
            old(self).node.entries().len() <= 0x20000000,
        ensures
            wf_entries(final(self).node.entries()),
            final(self).node.entries().len() <= old(self).node.entries().len() + 1,
            final(self).children == old(self).children,
            final(self).r == old(self).r,
            final(self).old_pages == old(self).old_pages,
            final(self).node.is_leaf == old(self).node.is_leaf,
            ({
                let s = old(self).node.entries();
                let f = find_entry(s, key@);
                if key@.len() == 0 {
                    r == Result::<(), Error>::Err(Error::KeyRequired) && *final(self) == *old(self)
                } else if key@.len() > MAX_KEY_SIZE {
                    r == Result::<(), Error>::Err(Error::KeyTooLarge) && *final(self) == *old(self)
                } else if value@.len() > MAX_VALUE_SIZE {
                    r == Result::<(), Error>::Err(Error::ValueTooLarge) && *final(self) == *old(
                        self,
                    )
                } else if f is Some && f.unwrap().flags & BUCKET_LEAF_FLAG != 0 {
                    r == Result::<(), Error>::Err(Error::IncompatibleValue) && *final(self)
                        == *old(self)
                } else if f is None && s.len() >= 0x20000000 {
                    r == Result::<(), Error>::Err(Error::MMapTooLarge) && *final(self) == *old(
                        self,
                    )
                } else {
                    r is Ok && final(self).node.entries() == put_entry(
                        s,
                        key@,
                        EntryV { flags: 0, pgid: 0, key: key@, value: value@ },
                    )
                }
            }),
    {
        let ghost s = self.node.entries();
        if key.len() == 0 {
            return Err(Error::KeyRequired);
        }
        if key.len() > MAX_KEY_SIZE as usize {
            return Err(Error::KeyTooLarge);
        }
        if value.len() > MAX_VALUE_SIZE as usize {
            return Err(Error::ValueTooLarge);
        }
        let pos = seek(&self.node.inodes, key);
        proof {
            lemma_lower_bound_props(s, key@);
            lemma_find_entry(s, key@);
        }
        if pos < self.node.inodes.len() && key_cmp(self.node.inodes[pos].key.as_slice(), key)
            == KeyOrder::Equal {
            proof {
                assert(self.node.inodes@[pos as int]@ == s[pos as int]);
            }
            if self.node.inodes[pos].flags & BUCKET_LEAF_FLAG != 0 {
                return Err(Error::IncompatibleValue);
            }
        } else {
            proof {
                if pos < self.node.inodes@.len() {
                    assert(self.node.inodes@[pos as int]@ == s[pos as int]);
                }
            }
            if self.node.inodes.len() >= 0x20000000 {
                return Err(Error::MMapTooLarge);
            }
        }
        self.node.put(key, key, value, 0, 0);
        proof {
            lemma_put_entry(s, EntryV { flags: 0, pgid: 0, key: key@, value: value@ });
        }
        Ok(())
    }

    /// Deletes a plain value: absent keys are a no-op, bucket keys are
    /// rejected.
    pub fn delete(&mut self, key: &[u8]) -> (r: Result<(), Error>)
        requires
            wf_entries(old(self).node.entries()),
        ensures
            wf_entries(final(self).node.entries()),
            final(self).children == old(self).children,
            final(self).r == old(self).r,
            final(self).old_pages == old(self).old_pages,
            final(self).node.is_leaf == old(self).node.is_leaf,
            ({
                let s = old(self).node.entries();
                let f = find_entry(s, key@);
                if f is None {
                    r is Ok && final(self).node.entries() == s
                } else if f.unwrap().flags & BUCKET_LEAF_FLAG != 0 {
                    r == Result::<(), Error>::Err(Error::IncompatibleValue) && *final(self)
                        == *old(self)
                } else {
                    r is Ok && final(self).node.entries() == del_entry(s, key@)
                }
            }),
    {
        let ghost s = self.node.entries();
        let pos = seek(&self.node.inodes, key);
        proof {
            lemma_lower_bound_props(s, key@);
            lemma_find_entry(s, key@);
        }
        if pos < self.node.inodes.len() && key_cmp(self.node.inodes[pos].key.as_slice(), key)
            == KeyOrder::Equal {
            proof {
                assert(self.node.inodes@[pos as int]@ == s[pos as int]);
            }
            if self.node.inodes[pos].flags & BUCKET_LEAF_FLAG != 0 {
                return Err(Error::IncompatibleValue);
            }
            self.node.del(key);
            proof {
                lemma_del_entry(s, key@);
            }
            Ok(())
        } else {
            proof {
                if pos < self.node.inodes@.len() {
                    assert(self.node.inodes@[pos as int]@ == s[pos as int]);
                }
                assert(find_entry(s, key@) is None);
            }
            Ok(())
        }
    }

    /// All keys of the bucket, in order.
    pub fn for_each(&self) -> (r: Vec<Vec<u8>>)
        ensures
            r@.len() == self.node.entries().len(),
            forall|i: int|
                0 <= i < r@.len() ==> #[trigger] r@[i]@ == self.node.entries()[i].key,
    {
        let mut out: Vec<Vec<u8>> = Vec::new();
        let mut i: usize = 0;
        while i < self.node.inodes.len()
            invariant
                i <= self.node.inodes@.len(),
                out@.len() == i,
                forall|j: int|
                    0 <= j < i ==> #[trigger] out@[j]@ == self.node.entries()[j].key,
            decreases self.node.inodes@.len() - i,
        {
            proof {
                assert(self.node.inodes@[i as int]@ == self.node.entries()[i as int]);
            }
            out.push(slice_to_vec(self.node.inodes[i].key.as_slice()));
            i = i + 1;
        }
        out
    }

    /// All key/value pairs of the bucket, in order; a sub-bucket element
    /// carries its staged serialised value.
    pub fn for_each_kv(&self) -> (r: Vec<(Vec<u8>, Vec<u8>)>)
        ensures
            r@.len() == self.node.entries().len(),
            forall|i: int|
                0 <= i < r@.len() ==> (#[trigger] r@[i]).0@ == self.node.entries()[i].key
                    && r@[i].1@ == self.node.entries()[i].value,
    {
        let mut out: Vec<(Vec<u8>, Vec<u8>)> = Vec::new();
        let mut i: usize = 0;
        while i < self.node.inodes.len()
            invariant
                i <= self.node.inodes@.len(),
                out@.len() == i,
                forall|j: int|
                    0 <= j < i ==> (#[trigger] out@[j]).0@ == self.node.entries()[j].key
                        && out@[j].1@ == self.node.entries()[j].value,
            decreases self.node.inodes@.len() - i,
        {
            proof {
                assert(self.node.inodes@[i as int]@ == self.node.entries()[i as int]);
            }
            let k = slice_to_vec(self.node.inodes[i].key.as_slice());
            let v = slice_to_vec(self.node.inodes[i].value.as_slice());
            out.push((k, v));
            i = i + 1;
        }
        out
    }

    /// The keys of the bucket's sub-bucket elements, in order.
    pub fn for_each_bucket(&self) -> (r: Vec<Vec<u8>>)
        ensures
            r@.map_values(|k: Vec<u8>| k@) == bucket_keys(self.node.entries()),
    {
        let mut out: Vec<Vec<u8>> = Vec::new();
        let mut i: usize = 0;
        proof {
            assert(self.node.entries().take(0) =~= Seq::<EntryV>::empty());
            assert(out@.map_values(|k: Vec<u8>| k@) =~= bucket_keys(
                self.node.entries().take(0),
            ));
        }
        while i < self.node.inodes.len()
            invariant
                i <= self.node.inodes@.len(),
                out@.map_values(|k: Vec<u8>| k@) == bucket_keys(self.node.entries().take(i as int)),
            decreases self.node.inodes@.len() - i,
        {
            proof {
                assert(self.node.inodes@[i as int]@ == self.node.entries()[i as int]);
                lemma_bucket_keys_take_step(self.node.entries(), i as int);
            }
            if self.node.inodes[i].flags & BUCKET_LEAF_FLAG != 0 {
                let ghost out_before = out@;
                out.push(slice_to_vec(self.node.inodes[i].key.as_slice()));
                proof {
                    assert(out@.map_values(|k: Vec<u8>| k@) =~= bucket_keys(
                        self.node.entries().take(i + 1),
                    ));
                }
            } else {
                proof {
                    assert(out@.map_values(|k: Vec<u8>| k@) =~= bucket_keys(
                        self.node.entries().take(i + 1),
                    ));
                }
            }
            i = i + 1;
        }
        proof {
            assert(self.node.entries().take(self.node.entries().len() as int)
                =~= self.node.entries());
        }
        out
    }
}

/// Whether the child list has an entry named `name`.
pub open spec fn has_child(cs: Seq<(Vec<u8>, Bucket)>, name: Seq<u8>) -> bool {
    exists|i: int| 0 <= i < cs.len() && (#[trigger] cs[i]).0@ == name
}

/// The index of the child named `name`.
pub open spec fn child_index(cs: Seq<(Vec<u8>, Bucket)>, name: Seq<u8>) -> int {
    choose|i: int| 0 <= i < cs.len() && (#[trigger] cs[i]).0@ == name
}

/// With distinct names, the child index is the unique position of a name.
pub proof fn lemma_child_index_unique(cs: Seq<(Vec<u8>, Bucket)>, name: Seq<u8>, j: int)
    requires
        forall|i: int, k: int| 0 <= i < k < cs.len() ==> cs[i].0@ != cs[k].0@,
        0 <= j < cs.len(),
        cs[j].0@ == name,
    ensures
        has_child(cs, name),
        child_index(cs, name) == j,
{
    assert(has_child(cs, name));
    let w = child_index(cs, name);
    if w != j {
        if w < j {
            assert(cs[w].0@ != cs[j].0@);
        } else {
            assert(cs[j].0@ != cs[w].0@);
        }
    }
}

/// The bucket reached by following `path` from element `i` on, descending
/// through materialised children.
pub open spec fn bucket_at(b: Bucket, path: Seq<Seq<u8>>, i: int) -> Option<Bucket>
    decreases path.len() - i,
{
    if i < 0 || i >= path.len() {
        Some(b)
    } else if has_child(b.children@, path[i]) {
        bucket_at(b.children@[child_index(b.children@, path[i])].1, path, i + 1)
    } else {
        None
    }
}

/// The byte views of a list of path segments.
pub open spec fn path_view(p: Seq<Vec<u8>>) -> Seq<Seq<u8>> {
    p.map_values(|seg: Vec<u8>| seg@)
}

impl Bucket {
    /// The materialised sub-bucket named `name`: in a well-formed bucket,
    /// present exactly when a bucket element carries that name.
    pub fn bucket(&self, name: &[u8]) -> (r: Option<&Bucket>)
        requires
            wf_bucket_shallow(*self),
        ensures
            match r {
                Some(c) => has_child(self.children@, name@) && *c == self.children@[child_index(
                    self.children@,
                    name@,
                )].1,
                None => !has_child(self.children@, name@) && match find_entry(
                    self.node.entries(),
                    name@,
                ) {
                    Some(e) => e.flags & BUCKET_LEAF_FLAG == 0,
                    None => true,
                },
            },
    {
        let mut i: usize = 0;
        while i < self.children.len()
            invariant
                i <= self.children@.len(),
                forall|j: int| 0 <= j < i ==> (#[trigger] self.children@[j]).0@ != name@,
                forall|a: int, b: int|
                    0 <= a < b < self.children@.len() ==> self.children@[a].0@
                        != self.children@[b].0@,
            decreases self.children@.len() - i,
        {
            if key_cmp(self.children[i].0.as_slice(), name) == KeyOrder::Equal {
                proof {
                    lemma_child_index_unique(self.children@, name@, i as int);
                }
                return Some(&self.children[i].1);
            }
            i = i + 1;
        }
        proof {
            if has_child(self.children@, name@) {
                let w = choose|w: int|
                    0 <= w < self.children@.len() && (#[trigger] self.children@[w]).0@ == name@;
            }
            crate::node::lemma_find_entry(self.node.entries(), name@);
            match find_entry(self.node.entries(), name@) {
                Some(e) => {
                    if e.flags & BUCKET_LEAF_FLAG != 0 {
                        // a bucket element always has its materialised child
                        let lb = crate::node::lower_bound(self.node.entries(), name@);
                        assert(self.node.entries()[lb] == e);
                        assert(has_child(self.children@, name@));
                    }
                },
                None => {},
            }
        }
        None
    }

    /// Finds the position of the child named `name`.
    fn child_pos(&self, name: &[u8]) -> (r: Option<usize>)
        requires
            forall|i: int, j: int|
                0 <= i < j < self.children@.len() ==> self.children@[i].0@ != self.children@[j].0@,
        ensures
            match r {
                Some(j) => j < self.children@.len() && self.children@[j as int].0@ == name@
                    && has_child(self.children@, name@) && child_index(self.children@, name@)
                    == j,
                None => !has_child(self.children@, name@),
            },
    {
        let mut i: usize = 0;
        while i < self.children.len()
            invariant
                i <= self.children@.len(),
                forall|j: int| 0 <= j < i ==> (#[trigger] self.children@[j]).0@ != name@,
                forall|a: int, b: int|
                    0 <= a < b < self.children@.len() ==> self.children@[a].0@
                        != self.children@[b].0@,
            decreases self.children@.len() - i,
        {
            if key_cmp(self.children[i].0.as_slice(), name) == KeyOrder::Equal {
                proof {
                    lemma_child_index_unique(self.children@, name@, i as int);
                }
                return Some(i);
            }
            i = i + 1;
        }
        proof {
            if has_child(self.children@, name@) {
                let w = choose|w: int|
                    0 <= w < self.children@.len() && (#[trigger] self.children@[w]).0@ == name@;
            }
        }
        None
    }

    /// Creates a sub-bucket named `key`: an empty name, an existing bucket
    /// and an existing plain key are rejected, in that order; an oversized
    /// name cannot be stored and is rejected as an oversized key.
    pub fn create_bucket(&mut self, key: &[u8]) -> (r: Result<(), Error>)
        requires
            wf_bucket_shallow(*old(self)),
        ensures
            wf_bucket_shallow(*final(self)),
            final(self).r == old(self).r,
            final(self).old_pages == old(self).old_pages,
            final(self).node.is_leaf == old(self).node.is_leaf,
            ({
                let s = old(self).node.entries();
                let f = find_entry(s, key@);
                if key@.len() == 0 {
                    r == Result::<(), Error>::Err(Error::BucketNameRequired) && *final(self)
                        == *old(self)
                } else if key@.len() > MAX_KEY_SIZE {
                    r == Result::<(), Error>::Err(Error::KeyTooLarge) && *final(self) == *old(self)
                } else if f is Some && f.unwrap().flags & BUCKET_LEAF_FLAG != 0 {
                    r == Result::<(), Error>::Err(Error::BucketExists) && *final(self) == *old(
                        self,
                    )
                } else if f is Some {
                    r == Result::<(), Error>::Err(Error::IncompatibleValue) && *final(self)
                        == *old(self)
                } else if s.len() >= 0x20000000 || old(self).children@.len() >= 0x20000000 {
                    r == Result::<(), Error>::Err(Error::MMapTooLarge) && *final(self) == *old(
                        self,
                    )
                } else {
                    &&& r is Ok
                    &&& final(self).node.entries() == put_entry(
                        s,
                        key@,
                        EntryV {
                            flags: BUCKET_LEAF_FLAG,
                            pgid: 0,
                            key: key@,
                            value: empty_bucket_value(),
                        },
                    )
                    &&& final(self).children@.len() == old(self).children@.len() + 1
                    &&& final(self).children@.last().0@ == key@
                    &&& final(self).children@.last().1.node.entries() == Seq::<EntryV>::empty()
                    &&& final(self).children@.last().1.children@.len() == 0
                    &&& final(self).children@.last().1.r.bucket_header == (InBucket {
                        root: 0,
                        sequence: 0,
                    })
                    &&& final(self).children@.last().1.old_pages@ == Seq::<(u64, u32)>::empty()
                    &&& forall|t: int|
                        0 <= t < old(self).children@.len() ==> final(self).children@[t] == old(
                            self,
                        ).children@[t]
                }
            }),
            forall|d: int|
                d >= 1 && wf_bucket(*old(self), d) ==> wf_bucket(*final(self), d),
    {
        let ghost s = self.node.entries();
        if key.len() == 0 {
            return Err(Error::BucketNameRequired);
        }
        if key.len() > MAX_KEY_SIZE as usize {
            return Err(Error::KeyTooLarge);
        }
        let pos = seek(&self.node.inodes, key);
        proof {
            lemma_lower_bound_props(s, key@);
            lemma_find_entry(s, key@);
        }
        if pos < self.node.inodes.len() && key_cmp(self.node.inodes[pos].key.as_slice(), key)
            == KeyOrder::Equal {
            proof {
                assert(self.node.inodes@[pos as int]@ == s[pos as int]);
            }
            if self.node.inodes[pos].flags & BUCKET_LEAF_FLAG != 0 {
                return Err(Error::BucketExists);
            }
            return Err(Error::IncompatibleValue);
        }
        proof {
            if pos < self.node.inodes@.len() {
                assert(self.node.inodes@[pos as int]@ == s[pos as int]);
            }
            assert(find_entry(s, key@) is None);
        }
        if self.node.inodes.len() >= 0x20000000 || self.children.len() >= 0x20000000 {
            return Err(Error::MMapTooLarge);
        }
        // the new bucket's value: a zero header followed by an empty leaf page
        let mut value: Vec<u8> = Vec::new();
        crate::meta::put_in_bucket(&mut value, InBucket { root: 0, sequence: 0 });
        let page = crate::tree::write_tree_page(0, 0, &Vec::new(), true, PAGE_HEADER_SIZE);
        crate::bytes::put_bytes(&mut value, page.as_slice());
        proof {
            assert(entries_view(Seq::<INode>::empty()) =~= Seq::<EntryV>::empty());
            assert(crate::node::entries_size(Seq::<EntryV>::empty(), 16) == 0);
            assert(page@.subrange(0, PAGE_HEADER_SIZE as int) =~= page@);
            assert(value@ =~= empty_bucket_value());
        }
        self.node.put(key, key, value.as_slice(), 0, BUCKET_LEAF_FLAG);
        let ghost e = EntryV {
            flags: BUCKET_LEAF_FLAG,
            pgid: 0,
            key: key@,
            value: empty_bucket_value(),
        };
        proof {
            lemma_put_entry(s, e);
        }
        proof {
            assert(BUCKET_LEAF_FLAG & BUCKET_LEAF_FLAG != 0) by (bit_vector);
        }
        let ghost children_before = self.children@;
        let child = Bucket::new_empty();
        let name = slice_to_vec(key);
        self.children.push((name, child));
        proof {
            assert forall|i: int|
                0 <= i < self.children@.len() implies 0 < (
            #[trigger] self.children@[i]).0@.len() <= MAX_KEY_SIZE && {
                let f2 = find_entry(self.node.entries(), self.children@[i].0@);
                f2 is Some && f2.unwrap().flags & BUCKET_LEAF_FLAG != 0
            } by {
                if i < children_before.len() {
                    assert(self.children@[i] == children_before[i]);
                    assert(find_entry(s, children_before[i].0@) is Some);
                    assert(children_before[i].0@ != key@);
                    assert(find_entry(self.node.entries(), children_before[i].0@) == find_entry(
                        s,
                        children_before[i].0@,
                    ));
                } else {
                    assert(self.children@[i].0@ == key@);
                }
            }
            assert forall|i: int, j: int|
                0 <= i < j < self.children@.len() implies self.children@[i].0@
                != self.children@[j].0@ by {
                if j == children_before.len() as int {
                    assert(self.children@[i] == children_before[i]);
                    assert(find_entry(s, children_before[i].0@) is Some);
                    assert(children_before[i].0@ != key@);
                } else {
                    assert(self.children@[i] == children_before[i]);
                    assert(self.children@[j] == children_before[j]);
                }
            }
            assert forall|j: int|
                0 <= j < self.node.entries().len() && (#[trigger] self.node.entries()[j]).flags
                    & BUCKET_LEAF_FLAG != 0 implies has_child(
                self.children@,
                self.node.entries()[j].key,
            ) by {
                let ns = self.node.entries();
                let pos = lower_bound(s, key@);
                if j == pos {
                    assert(ns[j].key == key@);
                    lemma_child_index_unique(
                        self.children@,
                        key@,
                        children_before.len() as int,
                    );
                } else {
                    let oj = if j < pos {
                        j
                    } else {
                        j - 1
                    };
                    assert(ns[j] == s[oj]);
                    let w = choose|w: int|
                        0 <= w < children_before.len() && (#[trigger] children_before[w]).0@
                            == s[oj].key;
                    assert(self.children@[w] == children_before[w]);
                    assert(has_child(self.children@, ns[j].key));
                }
            }
            assert forall|d: int|
                d >= 1 && wf_bucket(*old(self), d) implies wf_bucket(*self, d) by {
                assert forall|i: int|
                    0 <= i < self.children@.len() implies wf_bucket(
                    (#[trigger] self.children@[i]).1,
                    d - 1,
                ) by {
                    if i < children_before.len() {
                        assert(self.children@[i] == children_before[i]);
                    } else {
                        assert(self.children@[i].1 == child);
                    }
                }
            }
        }
        Ok(())
    }

    /// Creates a sub-bucket, or returns the existing one's name untouched.
    pub fn create_bucket_if_not_exists(&mut self, key: &[u8]) -> (r: Result<(), Error>)
        requires
            wf_bucket_shallow(*old(self)),
        ensures
            wf_bucket_shallow(*final(self)),
            final(self).r == old(self).r,
            final(self).old_pages == old(self).old_pages,
            final(self).node.is_leaf == old(self).node.is_leaf,
            ({
                let s = old(self).node.entries();
                let f = find_entry(s, key@);
                if key@.len() == 0 {
                    r == Result::<(), Error>::Err(Error::BucketNameRequired) && *final(self)
                        == *old(self)
                } else if key@.len() > MAX_KEY_SIZE {
                    r == Result::<(), Error>::Err(Error::KeyTooLarge) && *final(self) == *old(self)
                } else if f is Some && f.unwrap().flags & BUCKET_LEAF_FLAG != 0 {
                    r is Ok && *final(self) == *old(self)
                } else if f is Some {
                    r == Result::<(), Error>::Err(Error::IncompatibleValue) && *final(self)
                        == *old(self)
                } else if s.len() >= 0x20000000 || old(self).children@.len() >= 0x20000000 {
                    r == Result::<(), Error>::Err(Error::MMapTooLarge) && *final(self) == *old(
                        self,
                    )
                } else {
                    &&& r is Ok
                    &&& final(self).node.entries() == put_entry(
                        s,
                        key@,
                        EntryV {
                            flags: BUCKET_LEAF_FLAG,
                            pgid: 0,
                            key: key@,
                            value: empty_bucket_value(),
                        },
                    )
                    &&& final(self).children@.len() == old(self).children@.len() + 1
                    &&& final(self).children@.last().0@ == key@
                    &&& final(self).children@.last().1.node.entries() == Seq::<EntryV>::empty()
                    &&& final(self).children@.last().1.children@.len() == 0
                    &&& final(self).children@.last().1.r.bucket_header == (InBucket {
                        root: 0,
                        sequence: 0,
                    })
                    &&& forall|t: int|
                        0 <= t < old(self).children@.len() ==> final(self).children@[t] == old(
                            self,
                        ).children@[t]
                }
            }),
            forall|d: int|
                d >= 1 && wf_bucket(*old(self), d) ==> wf_bucket(*final(self), d),
    {
        let r = self.create_bucket(key);
        match r {
            Ok(()) => Ok(()),
            Err(e) => {
                if e == Error::BucketExists {
                    Ok(())
                } else {
                    Err(e)
                }
            },
        }
    }

    /// Deletes the sub-bucket named `key` with everything in it: its pages
    /// and those of all nested buckets are booked for freeing on commit.
    pub fn delete_bucket(&mut self, key: &[u8], depth: usize) -> (r: Result<(), Error>)
        requires
            wf_bucket(*old(self), depth as int),
        ensures
            wf_bucket(*final(self), depth as int),
            final(self).r == old(self).r,
            final(self).node.is_leaf == old(self).node.is_leaf,
            ({
                let s = old(self).node.entries();
                let f = find_entry(s, key@);
                if f is None {
                    r == Result::<(), Error>::Err(Error::BucketNotFound) && *final(self) == *old(
                        self,
                    )
                } else if f.unwrap().flags & BUCKET_LEAF_FLAG == 0 {
                    r == Result::<(), Error>::Err(Error::IncompatibleValue) && *final(self)
                        == *old(self)
                } else {
                    &&& r is Ok
                    &&& final(self).node.entries() == del_entry(s, key@)
                    &&& !has_child(final(self).children@, key@)
                    &&& final(self).old_pages@ == old(self).old_pages@ + if has_child(
                        old(self).children@,
                        key@,
                    ) {
                        bucket_pages(
                            old(self).children@[child_index(old(self).children@, key@)].1,
                            depth - 1,
                        )
                    } else {
                        Seq::<(u64, u32)>::empty()
                    }
                }
            }),
    {
        let ghost s = self.node.entries();
        let pos = seek(&self.node.inodes, key);
        proof {
            lemma_lower_bound_props(s, key@);
            lemma_find_entry(s, key@);
        }
        if !(pos < self.node.inodes.len() && key_cmp(self.node.inodes[pos].key.as_slice(), key)
            == KeyOrder::Equal) {
            proof {
                if pos < self.node.inodes@.len() {
                    assert(self.node.inodes@[pos as int]@ == s[pos as int]);
                }
                assert(find_entry(s, key@) is None);
            }
            return Err(Error::BucketNotFound);
        }
        proof {
            assert(self.node.inodes@[pos as int]@ == s[pos as int]);
        }
        if self.node.inodes[pos].flags & BUCKET_LEAF_FLAG == 0 {
            return Err(Error::IncompatibleValue);
        }
        let cpos = self.child_pos(key);
        let ghost cj: int = match cpos {
            Some(j) => j as int,
            None => old(self).children@.len() as int,
        };
        if let Some(j) = cpos {
            let ghost children_before = self.children@;
            let entry = self.children.remove(j);
            collect_pages(entry.1, depth - 1, &mut self.old_pages);
            proof {
                assert forall|i: int|
                    0 <= i < self.children@.len() implies (#[trigger] self.children@[i]).0@
                    != key@ by {
                    let oi = if i < j {
                        i
                    } else {
                        i + 1
                    };
                    assert(self.children@[i] == children_before[oi]);
                    if oi != j {
                        if oi < j {
                            assert(children_before[oi].0@ != children_before[j as int].0@);
                        } else {
                            assert(children_before[j as int].0@ != children_before[oi].0@);
                        }
                    }
                }
                assert(children_before == old(self).children@);
                assert forall|a: int, b: int|
                    0 <= a < b < self.children@.len() implies self.children@[a].0@
                    != self.children@[b].0@ by {
                    let oa = if a < j {
                        a
                    } else {
                        a + 1
                    };
                    let ob = if b < j {
                        b
                    } else {
                        b + 1
                    };
                    assert(self.children@[a] == children_before[oa]);
                    assert(self.children@[b] == children_before[ob]);
                }
                if has_child(self.children@, key@) {
                    let w = choose|w: int|
                        0 <= w < self.children@.len() && (#[trigger] self.children@[w]).0@ == key@;
                }
            }
        } else {
            proof {
                assert forall|i: int|
                    0 <= i < self.children@.len() implies (#[trigger] self.children@[i]).0@
                    != key@ by {
                    if self.children@[i].0@ == key@ {
                        assert(has_child(self.children@, key@));
                    }
                }

                if has_child(self.children@, key@) {
                    let w = choose|w: int|
                        0 <= w < self.children@.len() && (#[trigger] self.children@[w]).0@ == key@;
                }
            }
        }
        self.node.del(key);
        proof {
            lemma_del_entry(s, key@);
            lemma_delete_bucket_wf(*old(self), *self, key@, depth as int, cj);
        }
        Ok(())
    }
}

/// Every page run a bucket's old tree occupies, together with those of all
/// its nested buckets: its own runs first, then the children's, last child
/// first (the order a depth-first deletion books them in).
pub open spec fn bucket_pages(b: Bucket, depth: int) -> Seq<(u64, u32)>
    decreases depth, 0int,
{
    if depth <= 0 {
        b.old_pages@
    } else {
        b.old_pages@ + children_pages(b.children@, depth - 1)
    }
}

/// The page runs of a child list, last child first.
pub open spec fn children_pages(cs: Seq<(Vec<u8>, Bucket)>, depth: int) -> Seq<(u64, u32)>
    decreases depth, cs.len() + 1,
{
    if cs.len() == 0 || depth < 0 {
        Seq::<(u64, u32)>::empty()
    } else {
        bucket_pages(cs.last().1, depth) + children_pages(cs.drop_last(), depth)
    }
}

/// Books every page run of a bucket and of all its nested buckets.
fn collect_pages(b: Bucket, depth: usize, out: &mut Vec<(u64, u32)>)
    requires
        wf_bucket(b, depth as int),
    ensures
        final(out)@ == old(out)@ + bucket_pages(b, depth as int),
    decreases depth,
{
    let ghost b0 = b;
    let Bucket { r, node, children, old_pages } = b;
    let mut children = children;
    let ghost out0 = out@;
    let pages = old_pages;
    let mut i: usize = 0;
    proof {
        assert(pages@.subrange(0, 0) =~= Seq::<(u64, u32)>::empty());
        assert(out@ =~= out0 + pages@.subrange(0, 0));
    }
    while i < pages.len()
        invariant
            i <= pages@.len(),
            out@ == out0 + pages@.subrange(0, i as int),
        decreases pages@.len() - i,
    {
        let p = pages[i];
        out.push(p);
        proof {
            assert(out@ =~= out0 + pages@.subrange(0, i + 1));
        }
        i = i + 1;
    }
    proof {
        assert(pages@.subrange(0, pages@.len() as int) =~= pages@);
    }
    if depth == 0 {
        proof {
            assert(out@ =~= out0 + bucket_pages(b0, 0));
        }
        return ;
    }
    while children.len() > 0
        invariant
            depth >= 1,
            out@ + children_pages(children@, depth - 1) == out0 + bucket_pages(
                b0,
                depth as int,
            ),
            forall|i2: int|
                0 <= i2 < children@.len() ==> wf_bucket(
                    (#[trigger] children@[i2]).1,
                    depth - 1,
                ),
        decreases children@.len(),
    {
        let ghost cs_pre = children@;
        let entry = match children.pop() {
            Some(e) => e,
            None => {
                return ;
            },
        };
        proof {
            assert(entry == cs_pre.last());
            assert(children@ == cs_pre.drop_last());
            assert(children_pages(cs_pre, depth - 1) == bucket_pages(cs_pre.last().1, depth - 1)
                + children_pages(cs_pre.drop_last(), depth - 1));
        }
        let ghost out_pre = out@;
        collect_pages(entry.1, depth - 1, out);
        proof {
            assert(out@ + children_pages(children@, depth - 1) =~= out_pre + (bucket_pages(
                entry.1,
                depth - 1,
            ) + children_pages(children@, depth - 1)));
            assert(out@ + children_pages(children@, depth - 1) =~= out0 + bucket_pages(
                b0,
                depth as int,
            ));
        }
    }
    proof {
        assert(children_pages(children@, depth - 1) == Seq::<(u64, u32)>::empty());
        assert(out@ =~= out0 + bucket_pages(b0, depth as int));
    }
}

/// Deleting a bucket element keeps the bucket well-formed when its
/// materialised child, if any, goes with it. `cj` gives the position the
/// child was removed from, or the old child count when there was none.
proof fn lemma_delete_bucket_wf(b_old: Bucket, b_new: Bucket, key: Seq<u8>, depth: int, cj: int)
    requires
        wf_bucket(b_old, depth),
        b_new.node.is_leaf == b_old.node.is_leaf,
        b_new.node.entries() == del_entry(b_old.node.entries(), key),
        entries_sorted(b_new.node.entries()),
        if cj < b_old.children@.len() {
            b_old.children@[cj].0@ == key && b_new.children@ == b_old.children@.remove(cj)
        } else {
            b_new.children@ == b_old.children@
        },
        0 <= cj,
        forall|i: int| 0 <= i < b_new.children@.len() ==> (#[trigger] b_new.children@[i]).0@ != key,
    ensures
        wf_bucket(b_new, depth),
{
    lemma_del_entry(b_old.node.entries(), key);
    let removed = cj < b_old.children@.len();
    assert(wf_entries(b_new.node.entries())) by {
        let s = b_old.node.entries();
        let r = del_entry(s, key);
        let pos = lower_bound(s, key);
        lemma_lower_bound_props(s, key);
        if pos < s.len() && s[pos].key == key {
            assert forall|i: int|
                0 <= i < r.len() implies 0 < #[trigger] r[i].key.len() <= MAX_KEY_SIZE
                && r[i].value.len() <= MAX_VALUE_SIZE by {
                if i < pos {
                    assert(r[i] == s[i]);
                } else {
                    assert(r[i] == s[i + 1]);
                }
            }
        }
    }
    assert forall|i: int|
        0 <= i < b_new.children@.len() implies 0 < (#[trigger] b_new.children@[i]).0@.len()
        <= MAX_KEY_SIZE && {
        let e = find_entry(b_new.node.entries(), b_new.children@[i].0@);
        e is Some && e.unwrap().flags & BUCKET_LEAF_FLAG != 0
    } by {
        let oi = if removed && i >= cj {
            i + 1
        } else {
            i
        };
        assert(b_new.children@[i] == b_old.children@[oi]);
        assert(find_entry(b_new.node.entries(), b_new.children@[i].0@) == find_entry(
            b_old.node.entries(),
            b_old.children@[oi].0@,
        ));
    }
    assert forall|i: int, j: int|
        0 <= i < j < b_new.children@.len() implies b_new.children@[i].0@
        != b_new.children@[j].0@ by {
        let oi = if removed && i >= cj {
            i + 1
        } else {
            i
        };
        let oj = if removed && j >= cj {
            j + 1
        } else {
            j
        };
        assert(b_new.children@[i] == b_old.children@[oi]);
        assert(b_new.children@[j] == b_old.children@[oj]);
    }
    assert forall|jj: int|
        0 <= jj < b_new.node.entries().len() && (#[trigger] b_new.node.entries()[jj]).flags
            & BUCKET_LEAF_FLAG != 0 implies has_child(
        b_new.children@,
        b_new.node.entries()[jj].key,
    ) by {
        let ns = b_new.node.entries();
        let s = b_old.node.entries();
        let pos = lower_bound(s, key);
        lemma_lower_bound_props(s, key);
        let oj = if pos < s.len() && s[pos].key == key && jj >= pos {
            jj + 1
        } else {
            jj
        };
        assert(ns[jj] == s[oj]);
        assert(s[oj].key != key) by {
            if s[oj].key == key {
                crate::node::lemma_find_entry(s, key);
            }
        }
        assert(has_child(b_old.children@, s[oj].key));
        let w = choose|w: int|
            0 <= w < b_old.children@.len() && (#[trigger] b_old.children@[w]).0@ == s[oj].key;
        if removed {
            assert(w != cj);
            let nw = if w < cj {
                w
            } else {
                w - 1
            };
            assert(b_new.children@[nw] == b_old.children@[w]);
            assert(has_child(b_new.children@, ns[jj].key));
        } else {
            assert(b_new.children@[w] == b_old.children@[w]);
            assert(has_child(b_new.children@, ns[jj].key));
        }
    }
    if depth > 0 {
        assert forall|i: int|
            0 <= i < b_new.children@.len() implies wf_bucket(
            (#[trigger] b_new.children@[i]).1,
            depth - 1,
        ) by {
            let oi = if removed && i >= cj {
                i + 1
            } else {
                i
            };
            assert(b_new.children@[i] == b_old.children@[oi]);
            assert(wf_bucket(b_old.children@[oi].1, depth - 1));
        }
    }
}

/// The non-recursive well-formedness of a bucket: its own element list and
/// child naming, leaving the children's own shape aside.
pub open spec fn wf_bucket_shallow(b: Bucket) -> bool {
    &&& b.node.is_leaf
    &&& wf_entries(b.node.entries())
    &&& b.node.entries().len() <= 0x20000000
    &&& b.children@.len() <= 0x20000000
    &&& forall|j: int|
        0 <= j < b.node.entries().len() && (#[trigger] b.node.entries()[j]).flags
            & BUCKET_LEAF_FLAG != 0 ==> has_child(b.children@, b.node.entries()[j].key)
    &&& forall|i: int|
        0 <= i < b.children@.len() ==> 0 < (#[trigger] b.children@[i]).0@.len() <= MAX_KEY_SIZE
    &&& forall|i: int|
        0 <= i < b.children@.len() ==> {
            let e = find_entry(b.node.entries(), (#[trigger] b.children@[i]).0@);
            e is Some && e.unwrap().flags & BUCKET_LEAF_FLAG != 0
        }
    &&& forall|i: int, j: int|
        0 <= i < j < b.children@.len() ==> b.children@[i].0@ != b.children@[j].0@
}

/// A mutation addressed at a bucket: the write operations of the bucket
/// interface.
#[derive(Debug)]
pub enum BucketOp {
    /// Insert or overwrite a plain value.
    Put(Vec<u8>, Vec<u8>),
    /// Delete a plain value.
    DeleteKey(Vec<u8>),
    /// Create a sub-bucket.
    CreateBucket(Vec<u8>),
    /// Create a sub-bucket unless it exists.
    CreateBucketIfNotExists(Vec<u8>),
    /// Delete a sub-bucket and everything in it.
    DeleteBucket(Vec<u8>),
    /// Set the sequence counter.
    SetSequence(u64),
    /// Increment and return the sequence counter.
    NextSequence,
}

/// The mathematical image of a bucket operation.
pub ghost enum OpV {
    /// Insert or overwrite a plain value.
    Put(Seq<u8>, Seq<u8>),
    /// Delete a plain value.
    DeleteKey(Seq<u8>),
    /// Create a sub-bucket.
    CreateBucket(Seq<u8>),
    /// Create a sub-bucket unless it exists.
    CreateBucketIfNotExists(Seq<u8>),
    /// Delete a sub-bucket and everything in it.
    DeleteBucket(Seq<u8>),
    /// Set the sequence counter.
    SetSequence(u64),
    /// Increment and return the sequence counter.
    NextSequence,
}

impl View for BucketOp {
    type V = OpV;

    open spec fn view(&self) -> OpV {
        match self {
            BucketOp::Put(k, v) => OpV::Put(k@, v@),
            BucketOp::DeleteKey(k) => OpV::DeleteKey(k@),
            BucketOp::CreateBucket(k) => OpV::CreateBucket(k@),
            BucketOp::CreateBucketIfNotExists(k) => OpV::CreateBucketIfNotExists(k@),
            BucketOp::DeleteBucket(k) => OpV::DeleteBucket(k@),
            BucketOp::SetSequence(v) => OpV::SetSequence(*v),
            BucketOp::NextSequence => OpV::NextSequence,
        }
    }
}

/// The effect of creating a sub-bucket named `key` in `tb`, yielding `fb`:
/// the element list gains the bucket element, and a fresh empty child with a
/// zero header is appended.
pub open spec fn created_bucket_post(key: Seq<u8>, tb: Bucket, fb: Bucket) -> bool {
    &&& fb.node.entries() == put_entry(
        tb.node.entries(),
        key,
        EntryV { flags: BUCKET_LEAF_FLAG, pgid: 0, key: key, value: empty_bucket_value() },
    )
    &&& fb.children@.len() == tb.children@.len() + 1
    &&& fb.children@.last().0@ == key
    &&& fb.children@.last().1.node.entries() == Seq::<EntryV>::empty()
    &&& fb.children@.last().1.children@.len() == 0
    &&& fb.children@.last().1.r.bucket_header == (InBucket { root: 0, sequence: 0 })
    &&& forall|t: int| 0 <= t < tb.children@.len() ==> fb.children@[t] == tb.children@[t]
}

/// What one operation, applied to the bucket it addresses at nesting depth
/// `d`, must yield.
pub open spec fn op_post(op: OpV, tb: Bucket, fb: Bucket, r: Result<u64, Error>, d: int) -> bool {
    match op {
        OpV::Put(key, value) => {
            &&& fb.children == tb.children
            &&& fb.r == tb.r
            &&& fb.old_pages == tb.old_pages
            &&& ({
                let s = tb.node.entries();
                let f = find_entry(s, key);
                if key.len() == 0 {
                    r == Result::<u64, Error>::Err(Error::KeyRequired) && fb.node == tb.node
                } else if key.len() > MAX_KEY_SIZE {
                    r == Result::<u64, Error>::Err(Error::KeyTooLarge) && fb.node == tb.node
                } else if value.len() > MAX_VALUE_SIZE {
                    r == Result::<u64, Error>::Err(Error::ValueTooLarge) && fb.node == tb.node
                } else if f is Some && f.unwrap().flags & BUCKET_LEAF_FLAG != 0 {
                    r == Result::<u64, Error>::Err(Error::IncompatibleValue) && fb.node == tb.node
                } else if f is None && s.len() >= 0x20000000 {
                    r == Result::<u64, Error>::Err(Error::MMapTooLarge) && fb.node == tb.node
                } else {
                    r == Result::<u64, Error>::Ok(0) && fb.node.entries() == put_entry(
                        s,
                        key,
                        EntryV { flags: 0, pgid: 0, key: key, value: value },
                    )
                }
            })
        },
        OpV::DeleteKey(key) => {
            &&& fb.children == tb.children
            &&& fb.r == tb.r
            &&& fb.old_pages == tb.old_pages
            &&& ({
                let s = tb.node.entries();
                let f = find_entry(s, key);
                if f is None {
                    r == Result::<u64, Error>::Ok(0) && fb.node.entries() == s
                } else if f.unwrap().flags & BUCKET_LEAF_FLAG != 0 {
                    r == Result::<u64, Error>::Err(Error::IncompatibleValue) && fb.node == tb.node
                } else {
                    r == Result::<u64, Error>::Ok(0) && fb.node.entries() == del_entry(s, key)
                }
            })
        },
        OpV::CreateBucket(key) => {
            &&& fb.r == tb.r
            &&& fb.old_pages == tb.old_pages
            &&& ({
                let s = tb.node.entries();
                let f = find_entry(s, key);
                if key.len() == 0 {
                    r == Result::<u64, Error>::Err(Error::BucketNameRequired) && fb == tb
                } else if key.len() > MAX_KEY_SIZE {
                    r == Result::<u64, Error>::Err(Error::KeyTooLarge) && fb == tb
                } else if f is Some && f.unwrap().flags & BUCKET_LEAF_FLAG != 0 {
                    r == Result::<u64, Error>::Err(Error::BucketExists) && fb == tb
                } else if f is Some {
                    r == Result::<u64, Error>::Err(Error::IncompatibleValue) && fb == tb
                } else if s.len() >= 0x20000000 || tb.children@.len() >= 0x20000000 {
                    r == Result::<u64, Error>::Err(Error::MMapTooLarge) && fb == tb
                } else {
                    r == Result::<u64, Error>::Ok(0) && created_bucket_post(key, tb, fb)
                }
            })
        },
        OpV::CreateBucketIfNotExists(key) => {
            &&& fb.r == tb.r
            &&& fb.old_pages == tb.old_pages
            &&& ({
                let s = tb.node.entries();
                let f = find_entry(s, key);
                if key.len() == 0 {
                    r == Result::<u64, Error>::Err(Error::BucketNameRequired) && fb == tb
                } else if key.len() > MAX_KEY_SIZE {
                    r == Result::<u64, Error>::Err(Error::KeyTooLarge) && fb == tb
                } else if f is Some && f.unwrap().flags & BUCKET_LEAF_FLAG != 0 {
                    r == Result::<u64, Error>::Ok(0) && fb == tb
                } else if f is Some {
                    r == Result::<u64, Error>::Err(Error::IncompatibleValue) && fb == tb
                } else if s.len() >= 0x20000000 || tb.children@.len() >= 0x20000000 {
                    r == Result::<u64, Error>::Err(Error::MMapTooLarge) && fb == tb
                } else {
                    r == Result::<u64, Error>::Ok(0) && created_bucket_post(key, tb, fb)
                }
            })
        },
        OpV::DeleteBucket(key) => {
            &&& fb.r == tb.r
            &&& ({
                let s = tb.node.entries();
                let f = find_entry(s, key);
                if f is None {
                    r == Result::<u64, Error>::Err(Error::BucketNotFound) && fb == tb
                } else if f.unwrap().flags & BUCKET_LEAF_FLAG == 0 {
                    r == Result::<u64, Error>::Err(Error::IncompatibleValue) && fb == tb
                } else {
                    &&& r == Result::<u64, Error>::Ok(0)
                    &&& fb.node.entries() == del_entry(s, key)
                    &&& !has_child(fb.children@, key)
                    &&& fb.old_pages@ == tb.old_pages@ + if has_child(tb.children@, key) {
                        bucket_pages(tb.children@[child_index(tb.children@, key)].1, d - 1)
                    } else {
                        Seq::<(u64, u32)>::empty()
                    }
                }
            })
        },
        OpV::SetSequence(v) => {
            &&& r == Result::<u64, Error>::Ok(0)
            &&& fb.node == tb.node
            &&& fb.children == tb.children
            &&& fb.old_pages == tb.old_pages
            &&& fb.r.bucket_header.sequence == v
            &&& fb.r.bucket_header.root == tb.r.bucket_header.root
        },
        OpV::NextSequence => {
            &&& fb.node == tb.node
            &&& fb.children == tb.children
            &&& fb.old_pages == tb.old_pages
            &&& fb.r.bucket_header.sequence == if tb.r.bucket_header.sequence == u64::MAX {
                0u64
            } else {
                (tb.r.bucket_header.sequence + 1) as u64
            }
            &&& fb.r.bucket_header.root == tb.r.bucket_header.root
            &&& r == Result::<u64, Error>::Ok(fb.r.bucket_header.sequence)
        },
    }
}

impl Bucket {
    /// Whether `path[i..]` leads to a materialised bucket.
    pub fn has_path(&self, path: &[Vec<u8>], i: usize) -> (r: bool)
        requires
            i <= path@.len(),
            wf_names(*self),
        ensures
            r == (bucket_at(*self, path_view(path@), i as int) is Some),
        decreases path@.len() - i,
    {
        let ghost pv = path_view(path@);
        let plen = path.len();
        if i == plen {
            return true;
        }
        let seg = &path[i];
        let mut j: usize = 0;
        while j < self.children.len()
            invariant
                j <= self.children@.len(),
                i < plen,
                plen == path@.len(),
                pv == path_view(path@),
                seg@ == path@[i as int]@,
                wf_names(*self),
                forall|t: int| 0 <= t < j ==> (#[trigger] self.children@[t]).0@ != seg@,
            decreases self.children@.len() - j,
        {
            if key_cmp(self.children[j].0.as_slice(), seg.as_slice()) == KeyOrder::Equal {
                proof {
                    assert(pv[i as int] == path@[i as int]@);
                    lemma_child_index_unique(self.children@, pv[i as int], j as int);
                }
                proof {
                    assert(wf_names(self.children@[j as int].1));
                }
                let deeper = self.children[j].1.has_path(path, i + 1);
                proof {
                    assert(bucket_at(*self, pv, i as int) == bucket_at(
                        self.children@[j as int].1,
                        pv,
                        i + 1,
                    ));
                }
                return deeper;
            }
            j = j + 1;
        }
        proof {
            assert(pv[i as int] == path@[i as int]@);
            if has_child(self.children@, pv[i as int]) {
                let w = choose|w: int|
                    0 <= w < self.children@.len() && (#[trigger] self.children@[w]).0@ == pv[
                        i as int
                    ];
            }
        }
        false
    }
}

impl Bucket {
    /// Applies a write operation to the bucket that `path[i..]` addresses,
    /// descending through materialised sub-buckets. A path naming a missing
    /// bucket fails with `BucketNotFound` before anything changes.
    #[verifier::rlimit(50)]
    pub fn apply_at(&mut self, path: &[Vec<u8>], i: usize, op: BucketOp, depth: usize) -> (r:
        Result<u64, Error>)
        requires
            wf_bucket(*old(self), depth as int),
            i <= path@.len(),
            path@.len() - i < depth,
        ensures
            wf_bucket(*final(self), depth as int),
            i < path@.len() ==> final(self).node == old(self).node && final(self).r == old(
                self,
            ).r,
            match bucket_at(*old(self), path_view(path@), i as int) {
                None => r == Result::<u64, Error>::Err(Error::BucketNotFound) && *final(self)
                    == *old(self),
                Some(tb) => bucket_at(*final(self), path_view(path@), i as int) is Some
                    && op_post(
                    op@,
                    tb,
                    bucket_at(*final(self), path_view(path@), i as int).unwrap(),
                    r,
                    depth - (path@.len() - i),
                ),
            },
        decreases path@.len() - i,
    {
        let ghost pv = path_view(path@);
        let ghost op0 = op@;
        if i == path.len() {
            proof {
                assert(bucket_at(*old(self), pv, i as int) == Some(*old(self)));
            }
            let ghost b_old = *self;
            let r = match op {
                BucketOp::Put(key, value) => {
                    let rr = match self.put(key.as_slice(), value.as_slice()) {
                        Ok(()) => Ok(0u64),
                        Err(e) => Err(e),
                    };
                    proof {
                        if rr is Ok {
                            lemma_put_key_wf(b_old, *self, key@, value@, depth as int);
                        }
                    }
                    rr
                },
                BucketOp::DeleteKey(key) => {
                    let rr = match self.delete(key.as_slice()) {
                        Ok(()) => Ok(0u64),
                        Err(e) => Err(e),
                    };
                    proof {
                        if rr is Ok {
                            lemma_del_key_wf(b_old, *self, key@, depth as int);
                        }
                    }
                    rr
                },
                BucketOp::CreateBucket(key) => {
                    let rr = match self.create_bucket(key.as_slice()) {
                        Ok(()) => Ok(0u64),
                        Err(e) => Err(e),
                    };
                    proof {
                        if rr is Ok {
                            assert(self.children@.last().0@ == key@);
                            assert(has_child(self.children@, key@)) by {
                                lemma_child_index_unique(
                                    self.children@,
                                    key@,
                                    self.children@.len() - 1,
                                );
                            }
                        }
                    }
                    rr
                },
                BucketOp::CreateBucketIfNotExists(key) => {
                    match self.create_bucket_if_not_exists(key.as_slice()) {
                        Ok(()) => Ok(0u64),
                        Err(e) => Err(e),
                    }
                },
                BucketOp::DeleteBucket(key) => {
                    match self.delete_bucket(key.as_slice(), depth) {
                        Ok(()) => Ok(0u64),
                        Err(e) => Err(e),
                    }
                },
                BucketOp::SetSequence(v) => {
                    let rr = match self.set_sequence(v) {
                        Ok(()) => Ok(0u64),
                        Err(e) => Err(e),
                    };
                    proof {
                        lemma_same_shape_wf(b_old, *self, depth as int);
                    }
                    rr
                },
                BucketOp::NextSequence => {
                    let rr = self.next_sequence();
                    proof {
                        lemma_same_shape_wf(b_old, *self, depth as int);
                    }
                    rr
                },
            };
            proof {
                assert(bucket_at(*self, pv, i as int) == Some(*self));
                assert(op_post(op0, b_old, *self, r, depth as int));
            }
            return r;
        }
        let seg_probe = &path[i];
        let cpos = self.child_pos(seg_probe.as_slice());
        match cpos {
            None => {
                proof {
                    assert(pv[i as int] == path@[i as int]@);
                    assert(bucket_at(*old(self), pv, i as int) is None);
                }
                Err(Error::BucketNotFound)
            },
            Some(j) => {
                proof {
                    assert(wf_bucket(self.children@[j as int].1, depth - 1));
                    lemma_wf_names(self.children@[j as int].1, depth - 1);
                }
                if !self.children[j].1.has_path(path, i + 1) {
                    proof {
                        assert(pv[i as int] == path@[i as int]@);
                        lemma_child_index_unique(self.children@, pv[i as int], j as int);
                        assert(bucket_at(*old(self), pv, i as int) == bucket_at(
                            self.children@[j as int].1,
                            pv,
                            i + 1,
                        ));
                    }
                    return Err(Error::BucketNotFound);
                }
                proof {
                    assert(pv[i as int] == path@[i as int]@);
                    lemma_child_index_unique(self.children@, pv[i as int], j as int);
                }
                let ghost children_before = self.children@;
                let ghost child_old = self.children@[j as int].1;
                let mut entry = self.children.remove(j);
                let r = entry.1.apply_at(path, i + 1, op, depth - 1);
                let ghost new_child = entry.1;
                self.children.insert(j, entry);
                proof {
                    assert(self.children@ =~= children_before.update(j as int, (
                        children_before[j as int].0,
                        new_child,
                    )));
                    lemma_apply_descend(
                        *old(self),
                        *self,
                        child_old,
                        new_child,
                        j as int,
                        pv,
                        i as int,
                        depth as int,
                    );
                }
                r
            },
        }
    }

    /// Reads through `path[i..]` to the value of `key` in the bucket it
    /// addresses.
    pub fn get_at(&self, path: &[Vec<u8>], i: usize, key: &[u8], depth: usize) -> (r: Option<
        Vec<u8>,
    >)
        requires
            wf_bucket(*self, depth as int),
            i <= path@.len(),
            path@.len() - i < depth,
        ensures
            match bucket_at(*self, path_view(path@), i as int) {
                None => r is None,
                Some(tb) => match find_entry(tb.node.entries(), key@) {
                    Some(e) => if e.flags & BUCKET_LEAF_FLAG == 0 {
                        r is Some && r.unwrap()@ == e.value
                    } else {
                        r is None
                    },
                    None => r is None,
                },
            },
        decreases path@.len() - i,
    {
        let ghost pv = path_view(path@);
        if i == path.len() {
            proof {
                assert(bucket_at(*self, pv, i as int) == Some(*self));
            }
            return self.get(key);
        }
        let seg = &path[i];
        let cpos = self.child_pos(seg.as_slice());
        match cpos {
            None => {
                proof {
                    assert(pv[i as int] == path@[i as int]@);
                    assert(bucket_at(*self, pv, i as int) is None);
                }
                None
            },
            Some(j) => {
                proof {
                    assert(pv[i as int] == path@[i as int]@);
                    lemma_child_index_unique(self.children@, pv[i as int], j as int);
                    assert(bucket_at(*self, pv, i as int) == bucket_at(
                        self.children@[j as int].1,
                        pv,
                        i + 1,
                    ));
                }
                self.children[j].1.get_at(path, i + 1, key, depth - 1)
            },
        }
    }
}

/// Distinct child names at every materialised level.
pub open spec fn wf_names(b: Bucket) -> bool
    decreases b,
{
    &&& forall|a: int, c: int|
        0 <= a < c < b.children@.len() ==> b.children@[a].0@ != b.children@[c].0@
    &&& forall|a: int|
        0 <= a < b.children@.len() ==> wf_names((#[trigger] b.children@[a]).1)
}

/// Well-formedness at any depth gives distinct names at every level.
pub proof fn lemma_wf_names(b: Bucket, depth: int)
    requires
        wf_bucket(b, depth),
    ensures
        wf_names(b),
    decreases depth,
{
    if depth > 0 {
        assert forall|a: int|
            0 <= a < b.children@.len() implies wf_names((#[trigger] b.children@[a]).1) by {
            lemma_wf_names(b.children@[a].1, depth - 1);
        }
    }
}

/// A bucket with the same element list and children as a well-formed one is
/// well-formed.
proof fn lemma_same_shape_wf(b_old: Bucket, b_new: Bucket, depth: int)
    requires
        wf_bucket(b_old, depth),
        b_new.node == b_old.node,
        b_new.children == b_old.children,
    ensures
        wf_bucket(b_new, depth),
{
}

/// Writing a plain value keeps the bucket well-formed: the element list
/// stays sorted and capped, and every child still names a bucket element.
proof fn lemma_put_key_wf(b_old: Bucket, b_new: Bucket, key: Seq<u8>, value: Seq<u8>, depth: int)
    requires
        wf_bucket(b_old, depth),
        b_new.node.is_leaf == b_old.node.is_leaf,
        b_new.children == b_old.children,
        b_new.r == b_old.r,
        b_new.old_pages == b_old.old_pages,
        b_new.node.entries() == put_entry(
            b_old.node.entries(),
            key,
            EntryV { flags: 0, pgid: 0, key, value },
        ),
        find_entry(b_old.node.entries(), key) is Some || b_old.node.entries().len() < 0x20000000,
        0 < key.len() <= MAX_KEY_SIZE,
        value.len() <= MAX_VALUE_SIZE,
        find_entry(b_old.node.entries(), key) is Some ==> find_entry(
            b_old.node.entries(),
            key,
        ).unwrap().flags & BUCKET_LEAF_FLAG == 0,
    ensures
        wf_bucket(b_new, depth),
{
    let s = b_old.node.entries();
    let e = EntryV { flags: 0, pgid: 0, key, value };
    lemma_put_entry(s, e);
    lemma_put_entry_caps(s, e);
    assert forall|a: int|
        0 <= a < b_new.children@.len() implies 0 < (#[trigger] b_new.children@[a]).0@.len()
        <= MAX_KEY_SIZE && {
        let f2 = find_entry(b_new.node.entries(), b_new.children@[a].0@);
        f2 is Some && f2.unwrap().flags & BUCKET_LEAF_FLAG != 0
    } by {
        assert(b_new.children@[a] == b_old.children@[a]);
        assert(find_entry(s, b_old.children@[a].0@) is Some);
        assert(b_old.children@[a].0@ != key);
        assert(find_entry(b_new.node.entries(), b_old.children@[a].0@) == find_entry(
            s,
            b_old.children@[a].0@,
        ));
    }
    assert(0u32 & BUCKET_LEAF_FLAG == 0) by (bit_vector);
    assert forall|j: int|
        0 <= j < b_new.node.entries().len() && (#[trigger] b_new.node.entries()[j]).flags
            & BUCKET_LEAF_FLAG != 0 implies has_child(
        b_new.children@,
        b_new.node.entries()[j].key,
    ) by {
        let ns = b_new.node.entries();
        let pos = lower_bound(s, key);
        lemma_lower_bound_props(s, key);
        if pos < s.len() && s[pos].key == key {
            assert(j != pos);
            assert(ns[j] == s[j]);
            assert(has_child(b_old.children@, s[j].key));
        } else {
            assert(j != pos);
            let oj = if j < pos {
                j
            } else {
                j - 1
            };
            assert(ns[j] == s[oj]);
            assert(has_child(b_old.children@, s[oj].key));
        }
    }
    if depth > 0 {
        assert forall|a: int|
            0 <= a < b_new.children@.len() implies wf_bucket(
            (#[trigger] b_new.children@[a]).1,
            depth - 1,
        ) by {
            assert(b_new.children@[a] == b_old.children@[a]);
        }
    }
}

/// Deleting a plain value keeps the bucket well-formed.
proof fn lemma_del_key_wf(b_old: Bucket, b_new: Bucket, key: Seq<u8>, depth: int)
    requires
        wf_bucket(b_old, depth),
        b_new.node.is_leaf == b_old.node.is_leaf,
        b_new.children == b_old.children,
        b_new.r == b_old.r,
        b_new.old_pages == b_old.old_pages,
        b_new.node.entries() == del_entry(b_old.node.entries(), key) || b_new.node.entries()
            == b_old.node.entries(),
        find_entry(b_old.node.entries(), key) is Some ==> find_entry(
            b_old.node.entries(),
            key,
        ).unwrap().flags & BUCKET_LEAF_FLAG == 0,
    ensures
        wf_bucket(b_new, depth),
{
    let s = b_old.node.entries();
    lemma_del_entry(s, key);
    lemma_del_entry_caps(s, key);
    assert forall|a: int|
        0 <= a < b_new.children@.len() implies 0 < (#[trigger] b_new.children@[a]).0@.len()
        <= MAX_KEY_SIZE && {
        let f2 = find_entry(b_new.node.entries(), b_new.children@[a].0@);
        f2 is Some && f2.unwrap().flags & BUCKET_LEAF_FLAG != 0
    } by {
        assert(b_new.children@[a] == b_old.children@[a]);
        assert(find_entry(s, b_old.children@[a].0@) is Some);
        assert(b_old.children@[a].0@ != key);
        if b_new.node.entries() == del_entry(s, key) {
            assert(find_entry(b_new.node.entries(), b_old.children@[a].0@) == find_entry(
                s,
                b_old.children@[a].0@,
            ));
        }
    }
    assert forall|j: int|
        0 <= j < b_new.node.entries().len() && (#[trigger] b_new.node.entries()[j]).flags
            & BUCKET_LEAF_FLAG != 0 implies has_child(
        b_new.children@,
        b_new.node.entries()[j].key,
    ) by {
        let ns = b_new.node.entries();
        let pos = lower_bound(s, key);
        lemma_lower_bound_props(s, key);
        if b_new.node.entries() == del_entry(s, key) && pos < s.len() && s[pos].key == key {
            let oj = if j < pos {
                j
            } else {
                j + 1
            };
            assert(ns[j] == s[oj]);
            assert(has_child(b_old.children@, s[oj].key));
        } else {
            assert(ns[j] == s[j]);
            assert(has_child(b_old.children@, s[j].key));
        }
    }
    if depth > 0 {
        assert forall|a: int|
            0 <= a < b_new.children@.len() implies wf_bucket(
            (#[trigger] b_new.children@[a]).1,
            depth - 1,
        ) by {
            assert(b_new.children@[a] == b_old.children@[a]);
        }
    }
}

/// Writing a size-capped element keeps every element size-capped.
pub proof fn lemma_put_entry_caps(s: Seq<EntryV>, e: EntryV)
    requires
        entries_sorted(s),
        forall|i: int|
            0 <= i < s.len() ==> 0 < (#[trigger] s[i]).key.len() <= MAX_KEY_SIZE
                && s[i].value.len() <= MAX_VALUE_SIZE,
        0 < e.key.len() <= MAX_KEY_SIZE,
        e.value.len() <= MAX_VALUE_SIZE,
    ensures
        forall|i: int|
            0 <= i < put_entry(s, e.key, e).len() ==> 0 < (#[trigger] put_entry(
                s,
                e.key,
                e,
            )[i]).key.len() <= MAX_KEY_SIZE && put_entry(s, e.key, e)[i].value.len()
                <= MAX_VALUE_SIZE,
{
    let pos = lower_bound(s, e.key);
    lemma_lower_bound_props(s, e.key);
    let r = put_entry(s, e.key, e);
    assert forall|i: int|
        0 <= i < r.len() implies 0 < (#[trigger] r[i]).key.len() <= MAX_KEY_SIZE
        && r[i].value.len() <= MAX_VALUE_SIZE by {
        if pos < s.len() && s[pos].key == e.key {
            if i != pos {
                assert(r[i] == s[i]);
            }
        } else {
            if i < pos {
                assert(r[i] == s[i]);
            } else if i > pos {
                assert(r[i] == s[i - 1]);
            }
        }
    }
}

/// Deleting an element keeps every element size-capped.
pub proof fn lemma_del_entry_caps(s: Seq<EntryV>, key: Seq<u8>)
    requires
        entries_sorted(s),
        forall|i: int|
            0 <= i < s.len() ==> 0 < (#[trigger] s[i]).key.len() <= MAX_KEY_SIZE
                && s[i].value.len() <= MAX_VALUE_SIZE,
    ensures
        forall|i: int|
            0 <= i < del_entry(s, key).len() ==> 0 < (#[trigger] del_entry(s, key)[i]).key.len()
                <= MAX_KEY_SIZE && del_entry(s, key)[i].value.len() <= MAX_VALUE_SIZE,
{
    let pos = lower_bound(s, key);
    lemma_lower_bound_props(s, key);
    let r = del_entry(s, key);
    assert forall|i: int|
        0 <= i < r.len() implies 0 < (#[trigger] r[i]).key.len() <= MAX_KEY_SIZE
        && r[i].value.len() <= MAX_VALUE_SIZE by {
        if pos < s.len() && s[pos].key == key {
            if i < pos {
                assert(r[i] == s[i]);
            } else {
                assert(r[i] == s[i + 1]);
            }
        }
    }
}

/// Updating the child at `j` with a same-named bucket keeps the parent
/// well-formed and routes `bucket_at` through the new child.
proof fn lemma_apply_descend(
    b_old: Bucket,
    b_new: Bucket,
    child_old: Bucket,
    child_new: Bucket,
    j: int,
    pv: Seq<Seq<u8>>,
    i: int,
    depth: int,
)
    requires
        wf_bucket(b_old, depth),
        0 <= i < pv.len(),
        0 <= j < b_old.children@.len(),
        b_old.children@[j].0@ == pv[i],
        child_old == b_old.children@[j].1,
        wf_bucket(child_new, depth - 1),
        b_new.node == b_old.node,
        b_new.r == b_old.r,
        b_new.children@ == b_old.children@.update(j, (b_old.children@[j].0, child_new)),
        depth >= 1,
    ensures
        wf_bucket(b_new, depth),
        bucket_at(b_old, pv, i) == bucket_at(child_old, pv, i + 1),
        bucket_at(b_new, pv, i) == bucket_at(child_new, pv, i + 1),
{
    lemma_child_index_unique(b_old.children@, pv[i], j);
    assert forall|a: int|
        0 <= a < b_new.children@.len() implies 0 < (#[trigger] b_new.children@[a]).0@.len()
        <= MAX_KEY_SIZE && {
        let e = find_entry(b_new.node.entries(), b_new.children@[a].0@);
        e is Some && e.unwrap().flags & BUCKET_LEAF_FLAG != 0
    } by {
        assert(b_new.children@[a].0 == b_old.children@[a].0);
    }
    assert forall|a: int, b: int|
        0 <= a < b < b_new.children@.len() implies b_new.children@[a].0@
        != b_new.children@[b].0@ by {
        assert(b_new.children@[a].0 == b_old.children@[a].0);
        assert(b_new.children@[b].0 == b_old.children@[b].0);
    }
    assert forall|a: int|
        0 <= a < b_new.children@.len() implies wf_bucket(
        (#[trigger] b_new.children@[a]).1,
        depth - 1,
    ) by {
        if a != j {
            assert(b_new.children@[a] == b_old.children@[a]);
        }
    }
    assert forall|jj: int|
        0 <= jj < b_new.node.entries().len() && (#[trigger] b_new.node.entries()[jj]).flags
            & BUCKET_LEAF_FLAG != 0 implies has_child(
        b_new.children@,
        b_new.node.entries()[jj].key,
    ) by {
        assert(has_child(b_old.children@, b_old.node.entries()[jj].key));
        let w = choose|w: int|
            0 <= w < b_old.children@.len() && (#[trigger] b_old.children@[w]).0@
                == b_old.node.entries()[jj].key;
        assert(b_new.children@[w].0 == b_old.children@[w].0);
        assert(has_child(b_new.children@, b_new.node.entries()[jj].key));
    }
    lemma_child_index_unique(b_new.children@, pv[i], j);
    assert(b_new.children@[j].1 == child_new);
}

/// The keys of the bucket-flagged elements of a list, in order./// The keys of the bucket-flagged elements of a list, in order.
pub open spec fn bucket_keys(s: Seq<EntryV>) -> Seq<Seq<u8>>
    decreases s.len(),
{
    if s.len() == 0 {
        Seq::<Seq<u8>>::empty()
    } else {
        bucket_keys(s.drop_last()) + if s.last().flags & BUCKET_LEAF_FLAG != 0 {
            seq![s.last().key]
        } else {
            Seq::<Seq<u8>>::empty()
        }
    }
}

/// One more element contributes its key exactly when it is bucket-flagged.
pub proof fn lemma_bucket_keys_take_step(s: Seq<EntryV>, i: int)
    requires
        0 <= i < s.len(),
    ensures
        bucket_keys(s.take(i + 1)) == bucket_keys(s.take(i)) + if s[i].flags & BUCKET_LEAF_FLAG
            != 0 {
            seq![s[i].key]
        } else {
            Seq::<Seq<u8>>::empty()
        },
{
    assert(s.take(i + 1).drop_last() =~= s.take(i));
    assert(s.take(i + 1).last() == s[i]);
}

} // verus!
