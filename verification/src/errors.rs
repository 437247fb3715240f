//! The closed enumeration of database errors.

use vstd::prelude::*;

verus! {

/// Database errors. Lifecycle errors are fatal to the operation that raised
/// them; user-input errors are surfaced to the caller without aborting the
/// transaction.
#[derive(Clone, Copy, Debug)]
pub enum Error {
    /// A database instance was accessed before it was opened or after close.
    DatabaseNotOpen,
    /// A database that is already open was opened again.
    DatabaseOpen,
    /// Both meta pages are invalid; the payload says whether the meta region
    /// could be read at all.
    InvalidDatabase(bool),
    /// The database file could not be mapped correctly.
    InvalidMapping,
    /// The data file was created with a different format version.
    VersionMismatch,
    /// Neither meta page checksum matches its contents.
    ChecksumMismatch,
    /// The file is below the minimum size of a database; carries the size.
    FileSizeTooSmall(u64),
    /// An exclusive lock on the data file could not be obtained in time.
    Timeout,
    /// Free pages were not pre-loaded for this read-only transaction.
    FreePagesNotLoaded,
    /// The named bucket has not been created.
    BucketNotFound,
    /// A bucket with this name already exists.
    BucketExists,
    /// A bucket was created with a blank name.
    BucketNameRequired,
    /// A zero-length key was inserted.
    KeyRequired,
    /// An inserted key is larger than the maximum key size.
    KeyTooLarge,
    /// An inserted value is larger than the maximum value size.
    ValueTooLarge,
    /// A bucket operation hit a plain key, or a plain-key operation hit a
    /// bucket.
    IncompatibleValue,
    /// The mapped region is below the minimum size; carries the size.
    MMapTooSmall(u64),
    /// The mapped region is above the maximum size.
    MMapTooLarge,
    /// A batched call failed and should be retried alone.
    TrySolo,
    /// Batching is disabled.
    BatchDisabled,
    /// An error forwarded from the pager.
    IO,
    /// A user-defined error from a callback.
    Other,
}

impl PartialEq for Error {
    /// Two errors are equal when they are the same variant, regardless of
    /// payload; forwarded errors (`IO`, `Other`) never compare equal.
    fn eq(&self, other: &Self) -> (r: bool) {
        matches!(
            (*self, *other),
            (Error::DatabaseNotOpen, Error::DatabaseNotOpen)
                | (Error::DatabaseOpen, Error::DatabaseOpen)
                | (Error::InvalidDatabase(_), Error::InvalidDatabase(_))
                | (Error::InvalidMapping, Error::InvalidMapping)
                | (Error::VersionMismatch, Error::VersionMismatch)
                | (Error::ChecksumMismatch, Error::ChecksumMismatch)
                | (Error::FileSizeTooSmall(_), Error::FileSizeTooSmall(_))
                | (Error::Timeout, Error::Timeout)
                | (Error::FreePagesNotLoaded, Error::FreePagesNotLoaded)
                | (Error::BucketNotFound, Error::BucketNotFound)
                | (Error::BucketExists, Error::BucketExists)
                | (Error::BucketNameRequired, Error::BucketNameRequired)
                | (Error::KeyRequired, Error::KeyRequired)
                | (Error::KeyTooLarge, Error::KeyTooLarge)
                | (Error::ValueTooLarge, Error::ValueTooLarge)
                | (Error::IncompatibleValue, Error::IncompatibleValue)
                | (Error::MMapTooSmall(_), Error::MMapTooSmall(_))
                | (Error::MMapTooLarge, Error::MMapTooLarge)
                | (Error::TrySolo, Error::TrySolo)
                | (Error::BatchDisabled, Error::BatchDisabled)
        )
    }
}

impl vstd::std_specs::cmp::PartialEqSpecImpl for Error {
    open spec fn obeys_eq_spec() -> bool {
        true
    }

    open spec fn eq_spec(&self, other: &Self) -> bool {
        error_eq(*self, *other)
    }
}

impl Eq for Error {}

/// Variant equality of errors, ignoring payloads; `IO` and `Other` carry
/// foreign causes and never compare equal.
pub open spec fn error_eq(a: Error, b: Error) -> bool {
    ||| (a is DatabaseNotOpen && b is DatabaseNotOpen)
    ||| (a is DatabaseOpen && b is DatabaseOpen)
    ||| (a is InvalidDatabase && b is InvalidDatabase)
    ||| (a is InvalidMapping && b is InvalidMapping)
    ||| (a is VersionMismatch && b is VersionMismatch)
    ||| (a is ChecksumMismatch && b is ChecksumMismatch)
    ||| (a is FileSizeTooSmall && b is FileSizeTooSmall)
    ||| (a is Timeout && b is Timeout)
    ||| (a is FreePagesNotLoaded && b is FreePagesNotLoaded)
    ||| (a is BucketNotFound && b is BucketNotFound)
    ||| (a is BucketExists && b is BucketExists)
    ||| (a is BucketNameRequired && b is BucketNameRequired)
    ||| (a is KeyRequired && b is KeyRequired)
    ||| (a is KeyTooLarge && b is KeyTooLarge)
    ||| (a is ValueTooLarge && b is ValueTooLarge)
    ||| (a is IncompatibleValue && b is IncompatibleValue)
    ||| (a is MMapTooSmall && b is MMapTooSmall)
    ||| (a is MMapTooLarge && b is MMapTooLarge)
    ||| (a is TrySolo && b is TrySolo)
    ||| (a is BatchDisabled && b is BatchDisabled)
}

} // verus!
