use vstd::prelude::*;

verus! {

/// The role a single dependency declaration plays: `Normal` dependencies are
/// needed for ordinary builds and at runtime, `BuildTime` dependencies only to
/// build tooling and code generators, and `Development` dependencies only for
/// tests, examples and benchmarks.
#[derive(Clone, Copy, PartialEq, Eq, Structural, Debug)]
pub enum DepKind {
    Normal,
    BuildTime,
    Development,
}

/// How restrictive a kind is: `Normal` is the least restrictive (the package
/// is needed unconditionally), `BuildTime` sits in the middle, and
/// `Development` is the most restrictive. This is the total ordering used by
/// `combine_kind`.
pub open spec fn rank(k: DepKind) -> int {
    match k {
        DepKind::Normal => 0,
        DepKind::BuildTime => 1,
        DepKind::Development => 2,
    }
}

/// The least-restrictive of two kinds: if either side is `Normal` the result
/// is `Normal`, otherwise if either side is `BuildTime` the result is
/// `BuildTime`, and only two `Development` sides stay `Development`.
pub open spec fn combine_kind(a: DepKind, b: DepKind) -> DepKind {
    if rank(a) <= rank(b) {
        a
    } else {
        b
    }
}

impl DepKind {
    /// Combine the kind carried by one incoming edge into a running
    /// aggregate, keeping the least-restrictive of the two.
    pub fn combine_incoming(self, other: DepKind) -> (r: DepKind)
        ensures
            r == combine_kind(self, other),
    {
        match (self, other) {
            (DepKind::Normal, _) => DepKind::Normal,
            (_, DepKind::Normal) => DepKind::Normal,
            (DepKind::BuildTime, _) => DepKind::BuildTime,
            (_, DepKind::BuildTime) => DepKind::BuildTime,
            _ => DepKind::Development,
        }
    }

    /// Project a node's aggregated kind onto one of its outgoing edges,
    /// using the same least-restrictive rule as `combine_incoming`.
    pub fn update_outgoing(self, node_kind: DepKind) -> (r: DepKind)
        ensures
            r == combine_kind(self, node_kind),
    {
        self.combine_incoming(node_kind)
    }
}

/// Combining is commutative up to rank: both orders give a kind of the
/// minimal rank, and kinds of equal rank are equal.
pub proof fn lemma_combine_kind_comm(a: DepKind, b: DepKind)
    ensures
        combine_kind(a, b) == combine_kind(b, a),
{
}

/// Combining a kind with itself, or re-combining an already-combined kind,
/// changes nothing: `combine_kind` is idempotent and absorbing.
pub proof fn lemma_combine_kind_absorb(a: DepKind, b: DepKind)
    ensures
        combine_kind(combine_kind(a, b), b) == combine_kind(a, b),
        combine_kind(a, a) == a,
{
}

} // verus!
