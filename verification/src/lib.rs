//! An embedded, single-file, transactional key/value store built on a
//! copy-on-write B+tree. Keys and values are byte strings organised into
//! named buckets that may nest. Readers see a consistent snapshot; a single
//! writer builds a new tree version and publishes it atomically on commit.

pub mod bytes;
pub mod node;
pub mod page;
pub mod tree;
pub mod bucket;
pub mod cursor;
pub mod db;
pub mod errors;
pub mod freelist;
pub mod meta;
