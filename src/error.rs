//! Errors reported by the store.
use vstd::prelude::*;

verus! {

/// Why an operation of the store failed.
#[derive(Debug, Clone, Copy, PartialEq, Eq, Structural)]
pub enum LsmError {
    /// Bytes that should hold a block do not follow the block layout.
    MalformedBlock,
    /// Bytes that should hold a table do not follow the table layout.
    MalformedTable,
    /// No entry of the table has a key at or above the sought key.
    SeekPastEnd,
    /// A write named an empty key.
    EmptyKey,
    /// A put carried an empty value, which is reserved for deletions.
    EmptyValue,
    /// A key of 256 bytes or more.
    KeyTooLong,
    /// A value of 256 bytes or more.
    ValueTooLong,
    /// A table image would not fit the 32-bit offsets of its layout.
    TableTooLarge,
    /// A table was built from no entry.
    EmptyTable,
    /// A read reached past the end of a file.
    ReadOutOfRange,
}

} // verus!
