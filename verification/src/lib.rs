//! Process-memory inspection engine: typed value codec, memory-region
//! model with permission and bounds filtering, and an exhaustive
//! byte-pattern scan across region snapshots.

pub mod codec;
pub mod cli;
pub mod region;
pub mod scan;

use vstd::prelude::*;

verus! {

/// The failures the engine reports.
#[derive(Clone, Copy, PartialEq, Eq, Debug, Structural)]
pub enum CoreError {
    /// The target pid does not name a live, accessible process.
    ProcessNotFound,
    /// The mapping table or the address space cannot be accessed at this privilege.
    PermissionDenied,
    /// Malformed textual input, or bytes that do not decode at the given type.
    InvalidValue,
    /// An access would touch memory outside a suitably-permitted region.
    AddressOutOfRange,
    /// A read returned fewer bytes than requested.
    ShortRead,
    /// A write landed fewer bytes than requested.
    WriteRejected,
}

} // verus!
