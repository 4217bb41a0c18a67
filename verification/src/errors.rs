//! The fatal errors of graph extraction. Each carries the offending id,
//! name or version so the caller can report it.

use vstd::prelude::*;

verus! {

/// Why extraction or rendering setup failed. There is no partial success:
/// a caller that receives one of these emits nothing.
#[derive(Debug)]
pub enum Error {
    /// The metadata's format version is not the one this crate reads.
    UnsupportedSchemaVersion { found: u32, expected: u32 },
    /// An id was referenced but absent from the item index, a required
    /// field was missing, or the root item was not a module.
    MalformedMetadata { id: String },
    /// The requested crate is absent from the metadata map.
    CrateNotFound { name: String },
    /// Workspace detection was demanded but the manifest has no workspace.
    NoWorkspaceFound,
    /// Package parsing was demanded but the manifest has no package.
    NoPackageFound,
}

} // verus!
