//! Cursors: positional iteration over one bucket's elements.
//!
//! A cursor holds a position into the bucket's key-sorted element list.
//! `first`, `last`, `next` and `prev` move it; `seek` places it on the first
//! element at or after a key. Every move returns the element under the new
//! position: its key, value and flags.

use vstd::prelude::*;

use crate::bucket::Bucket;
use crate::node::{EntryV, entries_sorted, lower_bound, seek as seek_pos, slice_to_vec};

verus! {

/// A positional iterator over a bucket's element list.
pub struct Cursor<'a> {
    /// The bucket being walked.
    pub bucket: &'a Bucket,
    /// The current position; the list's length when past the end.
    pub pos: usize,
}

/// The element a cursor position selects, if it is in range.
pub open spec fn cursor_entry(b: Bucket, pos: int) -> Option<EntryV> {
    if 0 <= pos < b.node.entries().len() {
        Some(b.node.entries()[pos])
    } else {
        None
    }
}

/// Whether a returned triple carries exactly the element at `pos`.
pub open spec fn cursor_post(b: Bucket, pos: int, r: Option<(Vec<u8>, Vec<u8>, u32)>) -> bool {
    match cursor_entry(b, pos) {
        Some(e) => r matches Some(t) && t.0@ == e.key && t.1@ == e.value && t.2 == e.flags,
        None => r is None,
    }
}

impl<'a> Cursor<'a> {
    /// A cursor standing on the bucket's first element.
    pub fn new(bucket: &'a Bucket) -> (r: Cursor<'a>)
        ensures
            r.bucket == bucket,
            r.pos == 0,
    {
        Cursor { bucket, pos: 0 }
    }

    /// The element under the cursor.
    pub fn current(&self) -> (r: Option<(Vec<u8>, Vec<u8>, u32)>)
        ensures
            cursor_post(*self.bucket, self.pos as int, r),
    {
        if self.pos < self.bucket.node.inodes.len() {
            let e = &self.bucket.node.inodes[self.pos];
            proof {
                assert(self.bucket.node.inodes@[self.pos as int]@ == self.bucket.node.entries()[
                    self.pos as int
                ]);
            }
            Some((slice_to_vec(e.key.as_slice()), slice_to_vec(e.value.as_slice()), e.flags))
        } else {
            None
        }
    }

    /// Moves to the first element and returns it.
    pub fn first(&mut self) -> (r: Option<(Vec<u8>, Vec<u8>, u32)>)
        ensures
            final(self).bucket == old(self).bucket,
            final(self).pos == 0,
            cursor_post(*old(self).bucket, 0, r),
    {
        self.pos = 0;
        self.current()
    }

    /// Moves to the last element and returns it.
    pub fn last(&mut self) -> (r: Option<(Vec<u8>, Vec<u8>, u32)>)
        ensures
            final(self).bucket == old(self).bucket,
            final(self).pos as int == if old(self).bucket.node.entries().len() == 0 {
                0int
            } else {
                old(self).bucket.node.entries().len() - 1
            },
            cursor_post(*old(self).bucket, final(self).pos as int, r),
    {
        let n = self.bucket.node.inodes.len();
        self.pos = if n == 0 {
            0
        } else {
            n - 1
        };
        self.current()
    }

    /// Advances past the current element and returns the next one; at the
    /// end the cursor stays one past the last element.
    pub fn next(&mut self) -> (r: Option<(Vec<u8>, Vec<u8>, u32)>)
        ensures
            final(self).bucket == old(self).bucket,
            final(self).pos as int == if old(self).pos < old(self).bucket.node.entries().len() {
                old(self).pos + 1
            } else {
                old(self).pos as int
            },
            cursor_post(*old(self).bucket, final(self).pos as int, r),
    {
        if self.pos < self.bucket.node.inodes.len() {
            self.pos = self.pos + 1;
        }
        self.current()
    }

    /// Steps back to the previous element and returns it; at the front the
    /// cursor stays and nothing is returned.
    pub fn prev(&mut self) -> (r: Option<(Vec<u8>, Vec<u8>, u32)>)
        ensures
            final(self).bucket == old(self).bucket,
            final(self).pos as int == if old(self).pos > 0 {
                old(self).pos - 1
            } else {
                0int
            },
            old(self).pos == 0 ==> r is None,
            old(self).pos > 0 ==> cursor_post(*old(self).bucket, final(self).pos as int, r),
    {
        if self.pos == 0 {
            return None;
        }
        self.pos = self.pos - 1;
        self.current()
    }

    /// Places the cursor on the first element whose key is at or after
    /// `key`, returning it; past the last key nothing is returned.
    pub fn seek(&mut self, key: &[u8]) -> (r: Option<(Vec<u8>, Vec<u8>, u32)>)
        requires
            entries_sorted(old(self).bucket.node.entries()),
        ensures
            final(self).bucket == old(self).bucket,
            final(self).pos as int == lower_bound(old(self).bucket.node.entries(), key@),
            cursor_post(*old(self).bucket, final(self).pos as int, r),
    {
        self.pos = seek_pos(&self.bucket.node.inodes, key);
        self.current()
    }
}

} // verus!
