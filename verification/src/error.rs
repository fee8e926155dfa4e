use vstd::prelude::*;

verus! {

/// The unrecoverable failures this library can report. Each one indicates a
/// malformed input from the metadata provider or a broken internal invariant,
/// never a transient condition.
#[derive(Clone, Copy, PartialEq, Eq, Structural, Debug)]
pub enum GraphError {
    /// The metadata provider supplied no resolved dependency graph at all
    /// (for example because the resolving tool is too old).
    StaleMetadataProvider,
    /// A dependency identifier referenced in the resolve output has no
    /// package record.
    MissingPackageRecord,
    /// A package queued for graph construction has no entry in the resolved
    /// dependency list.
    MissingResolveEntry,
    /// A non-root node with no incoming edge was discovered during
    /// propagation: the graph violates its reachability invariant.
    UnreachableNonRootNode,
}

} // verus!
