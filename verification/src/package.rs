use vstd::prelude::*;
use crate::dep_info::DepInfo;
use crate::dep_kind::DepKind;

verus! {

/// One package node of the dependency graph.
#[derive(Clone, Debug)]
pub struct Package {
    /// Identifier, unique within the graph.
    pub id: u64,
    pub name: String,
    pub version: String,
    /// True for the packages the analysis starts from; such packages are
    /// unconditionally required and never carry a classification.
    pub is_root: bool,
    /// The derived classification: absent until the propagation pass has
    /// computed it, and always absent for root packages.
    pub dep_info: Option<DepInfo>,
}

impl Package {
    /// The kind this node contributes to path comparisons: its
    /// classification's kind, or `Normal` for a package without one (a root,
    /// which is unconditionally required).
    pub open spec fn spec_dep_kind(self) -> DepKind {
        match self.dep_info {
            Some(info) => info.kind,
            None => DepKind::Normal,
        }
    }

    /// Executable form of `spec_dep_kind`.
    pub fn dep_kind(&self) -> (k: DepKind)
        ensures
            k == self.spec_dep_kind(),
    {
        match self.dep_info {
            Some(info) => info.kind,
            None => DepKind::Normal,
        }
    }
}

} // verus!
