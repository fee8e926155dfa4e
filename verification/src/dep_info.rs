use vstd::prelude::*;
use crate::dep_kind::DepKind;

verus! {

/// The derived (kind, target-specificity) pair: as a node's classification it
/// says why the package is present; on an edge it is the edge's effective
/// role after propagation.
#[derive(Clone, Copy, PartialEq, Eq, Structural, Debug)]
pub struct DepInfo {
    /// The least-restrictive role among the paths this information combines.
    pub kind: DepKind,
    /// True only if every path this information combines is conditioned on a
    /// particular platform target.
    pub is_target_dep: bool,
}

} // verus!
