//! Error taxonomy for the fragment distribution engine.

use vstd::prelude::*;

verus! {

/// Everything that can go wrong while distributing or reassembling a payload.
///
/// The splitting policies report `NoContainers` and `InsufficientCapacity`;
/// reassembly reports `IncompleteReassembly`. The remaining variants are
/// produced by the unverified shell around the library: `NotADirectory` when
/// the container root is invalid, `CapacityUnavailable` when the external
/// primitive cannot report a usable capacity, `ExternalPrimitiveFailure` when
/// an embed or extract call fails, and `IoFailure` for payload or scratch
/// file I/O.
#[derive(Clone, Copy, Debug, PartialEq, Eq, Structural)]
pub enum StegError {
    /// The container root argument is not a directory.
    NotADirectory,
    /// A container's capacity could not be determined.
    CapacityUnavailable,
    /// The available capacity cannot hold the payload under the chosen policy.
    InsufficientCapacity,
    /// A split was requested over an empty container list.
    NoContainers,
    /// One container's embed or extract call failed.
    ExternalPrimitiveFailure,
    /// The set of recovered fragment indices has a gap.
    IncompleteReassembly,
    /// Reading the payload or writing scratch or final output failed.
    IoFailure,
}

} // verus!
