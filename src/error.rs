//! Failures of the codecs and of the migration.
use vstd::prelude::*;

verus! {

/// What can go wrong while decoding, encoding or migrating metadata.
#[derive(Debug, Clone, Copy, PartialEq, Eq, Structural)]
pub enum AttrError {
    /// A chain, record or scalar value is truncated or inconsistent.
    MalformedChain,
    /// A reparse-point payload carries the wrong tag, signature or length.
    MalformedReparseData,
    /// Both schemes claim the file.
    AmbiguousScheme,
    /// Neither scheme claims the file.
    UnsupportedSchemeless,
    /// A name or value is longer than its length field can hold.
    EntryTooLarge,
    /// A file type change was asked of a file that has no reparse point.
    NoReparsePoint,
    /// A symlink type was asked for without a target.
    NoSymlinkTarget,
}

} // verus!
