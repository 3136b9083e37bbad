//! A patch-manifest merge/diff/transpose engine.
//!
//! Two checkouts each keep a manifest: a JSON array of patch records, every
//! record naming a patch file, the platforms it is merged on, and the
//! toolchain version window in which it applies. This crate holds the
//! in-memory representation of a manifest, the set algebra over it (union,
//! subtraction, filtering, platform narrowing), the "new since a baseline"
//! diff, the version-eligibility filter, and the transposition step that
//! carries new records from one manifest into the other. Reading and writing
//! files, syncing checkouts and uploading for review stay outside.

use vstd::prelude::*;

pub mod codec;
pub mod collection;
pub mod pipeline;
pub mod record;

verus! {

/// The failure kinds of the engine. I/O and collaborator failures arise only
/// at the boundary around the engine and are reported there.
#[derive(Clone, Copy, PartialEq, Eq, Structural, Debug)]
pub enum SyncError {
    /// A live manifest is malformed or repeats an identity.
    ParseError,
    /// A historical manifest snapshot is malformed.
    BaselineParseError,
    /// A toolchain version is not a decimal unsigned integer.
    VersionFormatError,
    /// A transposed record's destination path already exists.
    PathCollisionError,
}

} // verus!
