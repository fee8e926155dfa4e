use vstd::prelude::*;
use crate::config::Config;
use crate::dep_kind::DepKind;

verus! {

/// One package record from the metadata provider.
#[derive(Clone, Debug)]
pub struct PackageRecord {
    pub id: u64,
    pub name: String,
    pub version: String,
}

/// One (kind, optional-target) pair of a resolved dependency declaration.
/// `is_target` says whether the declaration is conditioned on a particular
/// platform target.
#[derive(Clone, Copy, PartialEq, Eq, Structural, Debug)]
pub struct DepKindInfo {
    pub kind: DepKind,
    pub is_target: bool,
}

/// One resolved dependency of a package: the dependency's identifier and the
/// set of (kind, target) pairs under which it is declared.
#[derive(Clone, Debug)]
pub struct ResolveDep {
    pub pkg: u64,
    pub dep_kinds: Vec<DepKindInfo>,
}

/// The resolved dependency list of one package.
#[derive(Clone, Debug)]
pub struct ResolveNode {
    pub id: u64,
    pub deps: Vec<ResolveDep>,
}

/// The resolver's output: one entry per package.
#[derive(Clone, Debug)]
pub struct Resolve {
    pub nodes: Vec<ResolveNode>,
}

/// The metadata provider's response: the root package identifiers, the
/// package records, and the resolved dependency list (absent when the
/// provider could not produce one).
#[derive(Clone, Debug)]
pub struct Metadata {
    pub workspace_members: Vec<u64>,
    pub packages: Vec<PackageRecord>,
    pub resolve: Option<Resolve>,
}

/// A declaration is admitted when the configuration includes its kind, and,
/// for a target-specific declaration, when target-specific dependencies are
/// included.
pub open spec fn spec_skip_dep(config: Config, info: DepKindInfo) -> bool {
    ||| !config.normal_deps && info.kind == DepKind::Normal
    ||| !config.build_deps && info.kind == DepKind::BuildTime
    ||| !config.dev_deps && info.kind == DepKind::Development
    ||| !config.target_deps && info.is_target
}

/// Whether one (kind, target) pair of a resolved dependency is left out of
/// the graph under the given configuration.
pub fn skip_dep(config: &Config, info: &DepKindInfo) -> (r: bool)
    ensures
        r == spec_skip_dep(*config, *info),
{
    (!config.normal_deps && matches!(info.kind, DepKind::Normal))
        || (!config.build_deps && matches!(info.kind, DepKind::BuildTime))
        || (!config.dev_deps && matches!(info.kind, DepKind::Development))
        || (!config.target_deps && info.is_target)
}

/// At least one of the declared (kind, target) pairs is admitted.
pub open spec fn some_kind_admitted(kinds: Seq<DepKindInfo>, config: Config) -> bool {
    exists|j: int| 0 <= j < kinds.len() && !spec_skip_dep(config, kinds[j])
}

/// The dependency list `deps` declares `y` with at least one admitted pair.
pub open spec fn dep_admitted(deps: Seq<ResolveDep>, config: Config, y: u64) -> bool {
    exists|d: int|
        0 <= d < deps.len() && (#[trigger] deps[d]).pkg == y && some_kind_admitted(
            deps[d].dep_kinds@,
            config,
        )
}

/// The resolve list has an entry for `id`.
pub open spec fn has_entry(r: Seq<ResolveNode>, id: u64) -> bool {
    exists|k: int| 0 <= k < r.len() && (#[trigger] r[k]).id == id
}

/// The resolve list declares an admitted dependency from `x` to `y`.
pub open spec fn admitted_dep(r: Seq<ResolveNode>, config: Config, x: u64, y: u64) -> bool {
    exists|k: int|
        0 <= k < r.len() && (#[trigger] r[k]).id == x && dep_admitted(r[k].deps@, config, y)
}

/// `p` is a chain of identifiers that starts at a root and follows only
/// admitted dependency declarations.
pub open spec fn is_reach_path(
    members: Seq<u64>,
    r: Seq<ResolveNode>,
    config: Config,
    p: Seq<u64>,
) -> bool
    decreases p.len(),
{
    if p.len() == 0 {
        false
    } else if p.len() == 1 {
        members.contains(p[0])
    } else {
        is_reach_path(members, r, config, p.drop_last()) && admitted_dep(
            r,
            config,
            p[p.len() - 2],
            p[p.len() - 1],
        )
    }
}

/// `y` is transitively reachable from some root through admitted dependency
/// declarations (a root itself is reachable by the one-element chain).
pub open spec fn reachable_id(members: Seq<u64>, r: Seq<ResolveNode>, config: Config, y: u64) -> bool {
    exists|p: Seq<u64>| is_reach_path(members, r, config, p) && p.last() == y
}

/// The package list holds a record for `id`.
pub open spec fn has_record(packages: Seq<PackageRecord>, id: u64) -> bool {
    exists|k: int| 0 <= k < packages.len() && (#[trigger] packages[k]).id == id
}

/// Reachability extends along one admitted dependency declaration.
pub proof fn lemma_reachable_step(
    members: Seq<u64>,
    r: Seq<ResolveNode>,
    config: Config,
    x: u64,
    y: u64,
)
    requires
        reachable_id(members, r, config, x),
        admitted_dep(r, config, x, y),
    ensures
        reachable_id(members, r, config, y),
{
    let p = choose|p: Seq<u64>| is_reach_path(members, r, config, p) && p.last() == x;
    let q = p.push(y);
    assert(q.drop_last() =~= p);
    assert(is_reach_path(members, r, config, q));
    assert(q.last() == y);
}

/// Every root is reachable, by its one-element chain.
pub proof fn lemma_member_reachable(
    members: Seq<u64>,
    r: Seq<ResolveNode>,
    config: Config,
    y: u64,
)
    requires
        members.contains(y),
    ensures
        reachable_id(members, r, config, y),
{
    let p = seq![y];
    assert(is_reach_path(members, r, config, p));
    assert(p.last() == y);
}

} // verus!
