use vstd::prelude::*;
use crate::config::Config;
use crate::dep_info::DepInfo;
use crate::error::GraphError;
use crate::metadata::{
    DepKindInfo, Metadata, PackageRecord, Resolve, ResolveDep, ResolveNode, admitted_dep,
    dep_admitted, has_entry, has_record, is_reach_path, lemma_member_reachable,
    lemma_reachable_step, reachable_id, skip_dep, some_kind_admitted, spec_skip_dep,
};
use crate::package::Package;

verus! {

/// One directed edge of the dependency graph, stored in an index-addressed
/// arena: `from` and `to` are positions in the node list.
#[derive(Clone, Copy, PartialEq, Eq, Structural, Debug)]
pub struct Edge {
    pub from: usize,
    pub to: usize,
    /// The edge's (kind, target-specificity) information.
    pub info: DepInfo,
    /// Transient flag: true once the propagation pass has finalized this
    /// edge.
    pub visited: bool,
}

/// The dependency graph: an arena of nodes and an arena of edges addressed by
/// integer index. Parallel edges between the same pair of nodes are allowed.
#[derive(Clone, Debug)]
pub struct DepGraph {
    pub nodes: Vec<Package>,
    pub edges: Vec<Edge>,
}

/// Every edge's endpoints are valid node indices.
pub open spec fn edges_wf(nodes: Seq<Package>, edges: Seq<Edge>) -> bool {
    forall|k: int|
        0 <= k < edges.len() ==> (#[trigger] edges[k]).from < nodes.len() && edges[k].to
            < nodes.len()
}

/// Some edge of `edges` points at node index `i`.
pub open spec fn has_incoming(edges: Seq<Edge>, i: int) -> bool {
    exists|k: int| 0 <= k < edges.len() && (#[trigger] edges[k]).to as int == i
}

/// Some node of `nodes` carries the identifier `id`.
pub open spec fn id_present(nodes: Seq<Package>, id: u64) -> bool {
    exists|k: int| 0 <= k < nodes.len() && (#[trigger] nodes[k]).id == id
}

/// No two identifiers of the sequence are equal.
pub open spec fn ids_distinct(s: Seq<u64>) -> bool {
    forall|i: int, j: int| #![trigger s[i], s[j]] 0 <= i < j < s.len() ==> s[i] != s[j]
}

/// No two resolve entries share an identifier.
pub open spec fn entry_ids_distinct(r: Seq<ResolveNode>) -> bool {
    forall|i: int, j: int|
        #![trigger r[i], r[j]]
        0 <= i < j < r.len() ==> r[i].id != r[j].id
}

/// No two package records share an identifier.
pub open spec fn record_ids_distinct(packages: Seq<PackageRecord>) -> bool {
    forall|i: int, j: int|
        #![trigger packages[i], packages[j]]
        0 <= i < j < packages.len() ==> packages[i].id != packages[j].id
}

/// The record describes the node: same identifier, name and version.
pub open spec fn record_matches(rec: PackageRecord, node: Package) -> bool {
    rec.id == node.id && rec.name == node.name && rec.version == node.version
}

/// Some record of the package list describes the node.
pub open spec fn node_from_packages(packages: Seq<PackageRecord>, node: Package) -> bool {
    exists|j: int| 0 <= j < packages.len() && record_matches(#[trigger] packages[j], node)
}

/// Some still-pending record of the builder's lookup table describes the node.
pub open spec fn node_from_opt_packages(
    packages: Seq<Option<PackageRecord>>,
    node: Package,
) -> bool {
    exists|j: int|
        0 <= j < packages.len() && (#[trigger] packages[j]) is Some && record_matches(
            packages[j]->Some_0,
            node,
        )
}

/// The pending lookup table still holds a record for `id`.
pub open spec fn has_opt_record(packages: Seq<Option<PackageRecord>>, id: u64) -> bool {
    exists|j: int|
        0 <= j < packages.len() && (#[trigger] packages[j]) is Some && packages[j]->Some_0.id == id
}

/// One declared (kind, target) pair, admitted by the configuration, that an
/// edge with information `info` stands for.
pub open spec fn kinds_declare(kinds: Seq<DepKindInfo>, config: Config, info: DepInfo) -> bool {
    exists|j: int|
        0 <= j < kinds.len() && !spec_skip_dep(config, #[trigger] kinds[j]) && kinds[j].kind
            == info.kind && kinds[j].is_target == info.is_target_dep
}

/// The dependency list declares `y` with an admitted pair matching `info`.
pub open spec fn dep_declares(deps: Seq<ResolveDep>, config: Config, y: u64, info: DepInfo) -> bool {
    exists|d: int|
        0 <= d < deps.len() && (#[trigger] deps[d]).pkg == y && kinds_declare(
            deps[d].dep_kinds@,
            config,
            info,
        )
}

/// The resolve list declares an admitted dependency from `x` to `y` whose
/// (kind, target) pair matches `info`.
pub open spec fn edge_declared(
    r: Seq<ResolveNode>,
    config: Config,
    x: u64,
    y: u64,
    info: DepInfo,
) -> bool {
    exists|k: int|
        0 <= k < r.len() && (#[trigger] r[k]).id == x && dep_declares(r[k].deps@, config, y, info)
}

/// The graph holds an edge from the node with identifier `x` to the node with
/// identifier `y` carrying exactly `info`.
pub open spec fn edge_present(g: DepGraph, x: u64, y: u64, info: DepInfo) -> bool {
    exists|e: int|
        0 <= e < g.edges@.len() && (#[trigger] g.edges@[e]).from < g.nodes@.len()
            && g.edges@[e].to < g.nodes@.len() && g.nodes@[g.edges@[e].from as int].id == x
            && g.nodes@[g.edges@[e].to as int].id == y && g.edges@[e].info == info
}

/// Every edge of the graph stands for an admitted declared pair between the
/// identifiers of its endpoints, and is still unvisited.
pub open spec fn edges_sound(r: Seq<ResolveNode>, config: Config, g: DepGraph) -> bool {
    forall|e: int|
        0 <= e < g.edges@.len() ==> (#[trigger] g.edges@[e]).from < g.nodes@.len()
            && g.edges@[e].to < g.nodes@.len() && !g.edges@[e].visited && edge_declared(
            r,
            config,
            g.nodes@[g.edges@[e].from as int].id,
            g.nodes@[g.edges@[e].to as int].id,
            g.edges@[e].info,
        )
}

/// For every package present in the graph, every admitted (kind, target)
/// pair it declares has its dependency present as a node and a matching
/// parallel edge.
pub open spec fn edges_complete(r: Seq<ResolveNode>, config: Config, g: DepGraph) -> bool {
    forall|k: int, d: int, j: int|
        0 <= k < r.len() && 0 <= d < r[k].deps@.len() && 0 <= j
            < r[k].deps@[d].dep_kinds@.len() && id_present(g.nodes@, r[k].id) && !spec_skip_dep(
            config,
            #[trigger] r[k].deps@[d].dep_kinds@[j],
        ) ==> id_present(g.nodes@, r[k].deps@[d].pkg) && edge_present(
            g,
            r[k].id,
            r[k].deps@[d].pkg,
            DepInfo {
                kind: r[k].deps@[d].dep_kinds@[j].kind,
                is_target_dep: r[k].deps@[d].dep_kinds@[j].is_target,
            },
        )
}

impl DepGraph {
    /// Edge endpoints in range.
    pub open spec fn wf(self) -> bool {
        edges_wf(self.nodes@, self.edges@)
    }

    /// No two nodes share an identifier.
    pub open spec fn node_ids_unique(self) -> bool {
        forall|i: int, j: int|
            #![trigger self.nodes@[i], self.nodes@[j]]
            0 <= i < j < self.nodes@.len() ==> self.nodes@[i].id != self.nodes@[j].id
    }
}

/// What `get_dep_graph` promises of the graph it hands back: the nodes are
/// exactly the packages transitively reachable from the roots through
/// admitted declarations (roots first, in order, marked as roots), every node
/// still lacks a classification, the edges are exactly the admitted declared
/// pairs between present packages, every edge is unvisited, and every
/// non-root node has an incoming edge.
pub open spec fn graph_complete(
    members: Seq<u64>,
    r: Seq<ResolveNode>,
    config: Config,
    g: DepGraph,
) -> bool {
    &&& g.wf()
    &&& g.node_ids_unique()
    &&& g.nodes@.len() >= members.len()
    &&& forall|k: int|
        0 <= k < members.len() ==> (#[trigger] g.nodes@[k]).id == members[k] && g.nodes@[k].is_root
            && g.nodes@[k].dep_info is None
    &&& forall|k: int|
        members.len() <= k < g.nodes@.len() ==> !(#[trigger] g.nodes@[k]).is_root
            && g.nodes@[k].dep_info is None
    &&& forall|k: int|
        0 <= k < g.nodes@.len() ==> reachable_id(members, r, config, (#[trigger] g.nodes@[k]).id)
    &&& forall|y: u64| #[trigger] reachable_id(members, r, config, y) ==> id_present(g.nodes@, y)
    &&& edges_sound(r, config, g)
    &&& edges_complete(r, config, g)
    &&& forall|k: int| members.len() <= k < g.nodes@.len() ==> has_incoming(g.edges@, k)
}

/// The graph already holds everything the package with identifier `x`
/// declares: each admitted (kind, target) pair has its dependency present as
/// a node and a matching parallel edge.
pub open spec fn node_processed(r: Seq<ResolveNode>, config: Config, g: DepGraph, x: u64) -> bool {
    &&& has_entry(r, x)
    &&& forall|k: int, d: int, j: int|
        #![trigger r[k].deps@[d].dep_kinds@[j]]
        0 <= k < r.len() && r[k].id == x && 0 <= d < r[k].deps@.len() && 0 <= j
            < r[k].deps@[d].dep_kinds@.len() && !spec_skip_dep(
            config,
            r[k].deps@[d].dep_kinds@[j],
        ) ==> id_present(g.nodes@, r[k].deps@[d].pkg) && edge_present(
            g,
            x,
            r[k].deps@[d].pkg,
            DepInfo {
                kind: r[k].deps@[d].dep_kinds@[j].kind,
                is_target_dep: r[k].deps@[d].dep_kinds@[j].is_target,
            },
        )
}

/// `g2` extends `g1`: both arenas grew only by appending.
pub open spec fn graph_extends(g1: DepGraph, g2: DepGraph) -> bool {
    &&& g1.nodes@.len() <= g2.nodes@.len()
    &&& g1.edges@.len() <= g2.edges@.len()
    &&& forall|t: int| 0 <= t < g1.nodes@.len() ==> g2.nodes@[t] == #[trigger] g1.nodes@[t]
    &&& forall|e: int| 0 <= e < g1.edges@.len() ==> g2.edges@[e] == #[trigger] g1.edges@[e]
}

/// A present identifier stays present when the graph only grows.
proof fn lemma_id_present_monotone(g1: DepGraph, g2: DepGraph, y: u64)
    requires
        graph_extends(g1, g2),
        id_present(g1.nodes@, y),
    ensures
        id_present(g2.nodes@, y),
{
    let k = choose|k: int| 0 <= k < g1.nodes@.len() && (#[trigger] g1.nodes@[k]).id == y;
    assert(g2.nodes@[k].id == y);
}

/// A present edge stays present when the graph only grows.
proof fn lemma_edge_present_monotone(g1: DepGraph, g2: DepGraph, x: u64, y: u64, info: DepInfo)
    requires
        graph_extends(g1, g2),
        edge_present(g1, x, y, info),
    ensures
        edge_present(g2, x, y, info),
{
    let e = choose|e: int|
        0 <= e < g1.edges@.len() && (#[trigger] g1.edges@[e]).from < g1.nodes@.len()
            && g1.edges@[e].to < g1.nodes@.len() && g1.nodes@[g1.edges@[e].from as int].id == x
            && g1.nodes@[g1.edges@[e].to as int].id == y && g1.edges@[e].info == info;
    assert(g2.edges@[e] == g1.edges@[e]);
    assert(g2.nodes@[g2.edges@[e].from as int] == g1.nodes@[g1.edges@[e].from as int]);
    assert(g2.nodes@[g2.edges@[e].to as int] == g1.nodes@[g1.edges@[e].to as int]);
}

/// A processed package stays processed when the graph only grows.
proof fn lemma_processed_monotone(
    rn: Seq<ResolveNode>,
    config: Config,
    g1: DepGraph,
    g2: DepGraph,
    x: u64,
)
    requires
        graph_extends(g1, g2),
        node_processed(rn, config, g1, x),
    ensures
        node_processed(rn, config, g2, x),
{
    assert forall|k: int, d: int, j: int|
        0 <= k < rn.len() && rn[k].id == x && 0 <= d < rn[k].deps@.len() && 0 <= j
            < rn[k].deps@[d].dep_kinds@.len() && !spec_skip_dep(
            config,
            #[trigger] rn[k].deps@[d].dep_kinds@[j],
        ) implies id_present(g2.nodes@, rn[k].deps@[d].pkg) && edge_present(
        g2,
        x,
        rn[k].deps@[d].pkg,
        DepInfo {
            kind: rn[k].deps@[d].dep_kinds@[j].kind,
            is_target_dep: rn[k].deps@[d].dep_kinds@[j].is_target,
        },
    ) by {
        lemma_id_present_monotone(g1, g2, rn[k].deps@[d].pkg);
        lemma_edge_present_monotone(
            g1,
            g2,
            x,
            rn[k].deps@[d].pkg,
            DepInfo {
                kind: rn[k].deps@[d].dep_kinds@[j].kind,
                is_target_dep: rn[k].deps@[d].dep_kinds@[j].is_target,
            },
        );
    }
}

/// Every identifier reachable through admitted declarations is present once
/// every node of the graph has been processed: induction over the admitted
/// chain.
proof fn lemma_reach_path_present(
    members: Seq<u64>,
    rn: Seq<ResolveNode>,
    config: Config,
    g: DepGraph,
    p: Seq<u64>,
)
    requires
        is_reach_path(members, rn, config, p),
        g.nodes@.len() >= members.len(),
        forall|k: int| 0 <= k < members.len() ==> (#[trigger] g.nodes@[k]).id == members[k],
        forall|k: int|
            0 <= k < g.nodes@.len() ==> node_processed(
                rn,
                config,
                g,
                (#[trigger] g.nodes@[k]).id,
            ),
    ensures
        id_present(g.nodes@, p.last()),
    decreases p.len(),
{
    if p.len() == 1 {
        let t = choose|t: int| 0 <= t < members.len() && members[t] == p[0];
        assert(g.nodes@[t].id == p[0]);
    } else {
        lemma_reach_path_present(members, rn, config, g, p.drop_last());
        let x = p[p.len() - 2];
        let y = p[p.len() - 1];
        assert(p.drop_last().last() == x);
        let kx = choose|kx: int| 0 <= kx < g.nodes@.len() && (#[trigger] g.nodes@[kx]).id == x;
        assert(node_processed(rn, config, g, x));
        assert(admitted_dep(rn, config, x, y));
        let k = choose|k: int|
            0 <= k < rn.len() && (#[trigger] rn[k]).id == x && dep_admitted(
                rn[k].deps@,
                config,
                y,
            );
        let d = choose|d: int|
            0 <= d < rn[k].deps@.len() && (#[trigger] rn[k].deps@[d]).pkg == y
                && some_kind_admitted(rn[k].deps@[d].dep_kinds@, config);
        let j = choose|j: int|
            0 <= j < rn[k].deps@[d].dep_kinds@.len() && !spec_skip_dep(
                config,
                rn[k].deps@[d].dep_kinds@[j],
            );
        assert(!spec_skip_dep(config, rn[k].deps@[d].dep_kinds@[j]));
        assert(id_present(g.nodes@, rn[k].deps@[d].pkg));
    }
}

/// How many records are still pending in the builder's lookup table.
pub open spec fn count_some(s: Seq<Option<PackageRecord>>) -> nat
    decreases s.len(),
{
    if s.len() == 0 {
        0
    } else {
        count_some(s.drop_last()) + if s.last() is Some {
            1nat
        } else {
            0nat
        }
    }
}

/// Blanking one pending record lowers the pending count by one.
proof fn lemma_count_some_update_none(s: Seq<Option<PackageRecord>>, j: int)
    requires
        0 <= j < s.len(),
        s[j] is Some,
    ensures
        count_some(s.update(j, None)) == count_some(s) - 1,
    decreases s.len(),
{
    let t = s.update(j, None);
    if j == s.len() - 1 {
        assert(t.drop_last() =~= s.drop_last());
    } else {
        assert(t.drop_last() =~= s.drop_last().update(j, None));
        lemma_count_some_update_none(s.drop_last(), j);
    }
}

/// Take the record with identifier `pkg_id` out of the pending lookup table,
/// leaving its slot empty; `None` when no pending record has that identifier.
fn pop_package(packages: &mut Vec<Option<PackageRecord>>, pkg_id: u64) -> (r: Option<
    PackageRecord,
>)
    ensures
        final(packages)@.len() == old(packages)@.len(),
        r is None ==> final(packages)@ == old(packages)@ && !has_opt_record(
            old(packages)@,
            pkg_id,
        ),
        r matches Some(rec) ==> rec.id == pkg_id && exists|j: int|
            0 <= j < old(packages)@.len() && old(packages)@[j] == Some(rec)
                && final(packages)@ == old(packages)@.update(j, None),
{
    let n = packages.len();
    let mut i: usize = 0;
    while i < n
        invariant
            n == packages@.len(),
            i <= n,
            packages@ == old(packages)@,
            forall|j: int|
                0 <= j < i ==> !((#[trigger] packages@[j]) is Some && packages@[j]->Some_0.id
                    == pkg_id),
        decreases n - i,
    {
        let hit = match &packages[i] {
            Some(p) => p.id == pkg_id,
            None => false,
        };
        if hit {
            let ghost before = packages@;
            let slot = packages.remove(i);
            packages.insert(i, None);
            proof {
                assert(packages@ =~= before.update(i as int, None));
            }
            return slot;
        }
        i += 1;
    }
    None
}

/// Index of the node carrying `id`, if present.
fn find_node(nodes: &Vec<Package>, id: u64) -> (r: Option<usize>)
    ensures
        r matches Some(k) ==> k < nodes@.len() && nodes@[k as int].id == id,
        r is None ==> !id_present(nodes@, id),
{
    let n = nodes.len();
    let mut i: usize = 0;
    while i < n
        invariant
            n == nodes@.len(),
            i <= n,
            forall|k: int| 0 <= k < i ==> (#[trigger] nodes@[k]).id != id,
        decreases n - i,
    {
        if nodes[i].id == id {
            return Some(i);
        }
        i += 1;
    }
    None
}

/// Index of the resolve entry for `id`, if present.
fn find_entry(nodes: &Vec<ResolveNode>, id: u64) -> (r: Option<usize>)
    ensures
        r matches Some(k) ==> k < nodes@.len() && nodes@[k as int].id == id,
        r is None ==> !has_entry(nodes@, id),
{
    let n = nodes.len();
    let mut i: usize = 0;
    while i < n
        invariant
            n == nodes@.len(),
            i <= n,
            forall|k: int| 0 <= k < i ==> (#[trigger] nodes@[k]).id != id,
        decreases n - i,
    {
        if nodes[i].id == id {
            return Some(i);
        }
        i += 1;
    }
    None
}

/// Build the annotated dependency graph from the metadata provider's
/// response: exactly the packages transitively reachable from the workspace
/// members through admitted declarations, with the members as root nodes
/// first, one parallel edge per admitted (kind, target) pair, every node
/// unclassified and every edge unvisited. Fails with
/// `StaleMetadataProvider` when no resolved list was supplied, with
/// `MissingResolveEntry` when a reachable package has no resolve entry, and
/// with `MissingPackageRecord` when a reachable package has no record;
/// succeeds exactly when no reachable package lacks either.
pub fn get_dep_graph(metadata: Metadata, config: &Config) -> (r: Result<DepGraph, GraphError>)
    requires
        record_ids_distinct(metadata.packages@),
        ids_distinct(metadata.workspace_members@),
        metadata.resolve is Some ==> entry_ids_distinct(metadata.resolve->Some_0.nodes@),
    ensures
        r == Err::<DepGraph, GraphError>(GraphError::StaleMetadataProvider) <==> metadata.resolve is None,
        metadata.resolve is Some ==> ({
            let members = metadata.workspace_members@;
            let pk = metadata.packages@;
            let rn = metadata.resolve->Some_0.nodes@;
            &&& (r is Ok <==> (forall|y: u64|
                #[trigger] reachable_id(members, rn, *config, y) ==> has_entry(rn, y)
                    && has_record(pk, y)))
            &&& (r matches Err(e) ==> e == GraphError::MissingPackageRecord || e
                == GraphError::MissingResolveEntry)
            &&& (r == Err::<DepGraph, GraphError>(GraphError::MissingResolveEntry) ==> exists|
                y: u64,
            | #[trigger] reachable_id(members, rn, *config, y) && !has_entry(rn, y))
            &&& (r == Err::<DepGraph, GraphError>(GraphError::MissingPackageRecord) ==> exists|
                y: u64,
            | #[trigger] reachable_id(members, rn, *config, y) && !has_record(pk, y))
            &&& (r matches Ok(g) ==> graph_complete(members, rn, *config, g) && forall|k: int|
                0 <= k < g.nodes@.len() ==> node_from_packages(pk, #[trigger] g.nodes@[k]))
        }),
{
    let ghost members = metadata.workspace_members@;
    let ghost pk = metadata.packages@;
    let ghost resolve_opt = metadata.resolve;
    let mut builder = match DepGraphBuilder::new(metadata) {
        Ok(b) => b,
        Err(e) => {
            return Err(e);
        },
    };
    let ghost rn = builder.resolve.nodes@;
    let ghost p_all = builder.packages@;
    proof {
        assert forall|j: int| 0 <= j < p_all.len() implies (#[trigger] p_all[j]) is Some by {
            assert(p_all[j] == Some(pk[j]));
        }
        assert forall|i: int, j: int|
            #![trigger p_all[i], p_all[j]]
            0 <= i < j < p_all.len() implies p_all[i]->Some_0.id != p_all[j]->Some_0.id by {
            assert(p_all[i] == Some(pk[i]) && p_all[j] == Some(pk[j]));
        }
    }
    match builder.add_workspace_members() {
        Ok(()) => {},
        Err(e) => {
            proof {
                let k = choose|k: int|
                    0 <= k < members.len() && !has_opt_record(p_all, #[trigger] members[k]);
                lemma_member_reachable(members, rn, *config, members[k]);
                assert(!has_record(pk, members[k])) by {
                    if has_record(pk, members[k]) {
                        let j = choose|j: int|
                            0 <= j < pk.len() && (#[trigger] pk[j]).id == members[k];
                        assert(p_all[j] == Some(pk[j]));
                        assert(has_opt_record(p_all, members[k]));
                    }
                }
            }
            return Err(e);
        },
    }
    let ghost p0 = builder.packages@;
    proof {
        // a record still pending after the members were popped is not a
        // member's, so its identifier is no node's
        assert forall|j: int|
            0 <= j < builder.packages@.len() && (#[trigger] builder.packages@[j]) is Some implies
            !id_present(builder.graph.nodes@, builder.packages@[j]->Some_0.id) by {
            assert(p0[j] == if members.contains(p_all[j]->Some_0.id) {
                None
            } else {
                p_all[j]
            });
            if id_present(builder.graph.nodes@, p0[j]->Some_0.id) {
                let k = choose|k: int|
                    0 <= k < builder.graph.nodes@.len() && (#[trigger] builder
                        .graph
                        .nodes@[k]).id == p0[j]->Some_0.id;
                assert(members[k] == p0[j]->Some_0.id);
                assert(members.contains(p_all[j]->Some_0.id));
            }
        }
    }
    match builder.add_dependencies(config) {
        Ok(()) => {},
        Err(e) => {
            proof {
                if e == GraphError::MissingPackageRecord {
                    let y = choose|y: u64|
                        #[trigger] reachable_id(members, rn, *config, y) && !members.contains(y)
                            && !has_opt_record(p0, y);
                    assert(!has_record(pk, y)) by {
                        if has_record(pk, y) {
                            let j = choose|j: int|
                                0 <= j < pk.len() && (#[trigger] pk[j]).id == y;
                            assert(p_all[j] == Some(pk[j]));
                            assert(p0[j] == p_all[j]);
                            assert(has_opt_record(p0, y));
                        }
                    }
                }
            }
            return Err(e);
        },
    }
    proof {
        // every reachable identifier found its entry and its record
        assert forall|y: u64| #[trigger] reachable_id(members, rn, *config, y) implies has_entry(
            rn,
            y,
        ) && has_record(pk, y) by {
            if members.contains(y) {
                let k = choose|k: int| 0 <= k < members.len() && members[k] == y;
                assert(pk[k].id != y ==> has_opt_record(p_all, y));
                if !has_record(pk, y) {
                    assert(!has_opt_record(p_all, y));
                    assert(false);
                }
            } else {
                assert(has_opt_record(p0, y));
                let j = choose|j: int|
                    0 <= j < p0.len() && (#[trigger] p0[j]) is Some && p0[j]->Some_0.id == y;
                assert(p0[j] == p_all[j]);
                assert(p_all[j] == Some(pk[j]));
                assert(pk[j].id == y);
            }
        }
        // every node came from a full record
        assert forall|k: int| 0 <= k < builder.graph.nodes@.len() implies node_from_packages(
            pk,
            #[trigger] builder.graph.nodes@[k],
        ) by {
            if k < members.len() {
                assert(node_from_opt_packages(p_all, builder.graph.nodes@[k]));
                let j = choose|j: int|
                    0 <= j < p_all.len() && (#[trigger] p_all[j]) is Some && record_matches(
                        p_all[j]->Some_0,
                        builder.graph.nodes@[k],
                    );
                assert(p_all[j] == Some(pk[j]));
            } else {
                assert(node_from_opt_packages(p0, builder.graph.nodes@[k]));
                let j = choose|j: int|
                    0 <= j < p0.len() && (#[trigger] p0[j]) is Some && record_matches(
                        p0[j]->Some_0,
                        builder.graph.nodes@[k],
                    );
                assert(p0[j] == p_all[j]);
                assert(p_all[j] == Some(pk[j]));
            }
        }
    }
    Ok(builder.graph)
}

/// Builds the dependency graph: breadth-first discovery of the packages
/// transitively reachable from the workspace members, one edge per admitted
/// (kind, target) pair.
struct DepGraphBuilder {
    /// The dependency graph being built.
    graph: DepGraph,
    /// Queue of packages whose dependencies still need to be added.
    deps_add_queue: Vec<u64>,
    /// The root package identifiers.
    workspace_members: Vec<u64>,
    /// Pending package records, consumed as nodes are created.
    packages: Vec<Option<PackageRecord>>,
    /// The resolved dependency list.
    resolve: Resolve,
}

impl DepGraphBuilder {
    /// Start a build from the provider's response. Fails with
    /// `StaleMetadataProvider` exactly when the response carries no resolved
    /// dependency list.
    fn new(metadata: Metadata) -> (r: Result<DepGraphBuilder, GraphError>)
        ensures
            r is Err <==> metadata.resolve is None,
            r matches Err(e) ==> e == GraphError::StaleMetadataProvider,
            r matches Ok(b) ==> {
                &&& b.graph.nodes@.len() == 0
                &&& b.graph.edges@.len() == 0
                &&& b.deps_add_queue@.len() == 0
                &&& b.workspace_members == metadata.workspace_members
                &&& b.resolve == metadata.resolve->Some_0
                &&& b.packages@.len() == metadata.packages@.len()
                &&& forall|j: int|
                    0 <= j < metadata.packages@.len() ==> b.packages@[j] == Some(
                        metadata.packages@[j],
                    )
            },
    {
        let Metadata { workspace_members, packages: mut src, resolve } = metadata;
        let resolve = match resolve {
            Some(r) => r,
            None => {
                return Err(GraphError::StaleMetadataProvider);
            },
        };
        let ghost orig = src@;
        let mut packages: Vec<Option<PackageRecord>> = Vec::new();
        while src.len() > 0
            invariant
                packages@.len() + src@.len() == orig.len(),
                forall|k: int| 0 <= k < packages@.len() ==> packages@[k] == Some(orig[k]),
                forall|k: int| 0 <= k < src@.len() ==> src@[k] == orig[packages@.len() + k],
            decreases src@.len(),
        {
            let rec = src.remove(0);
            packages.push(Some(rec));
        }
        Ok(
            DepGraphBuilder {
                graph: DepGraph { nodes: Vec::new(), edges: Vec::new() },
                deps_add_queue: Vec::new(),
                workspace_members,
                packages,
                resolve,
            },
        )
    }

    /// Create one root node per workspace member, in order, and queue each
    /// member for dependency discovery. Fails with `MissingPackageRecord`
    /// exactly when some member has no package record.
    fn add_workspace_members(&mut self) -> (r: Result<(), GraphError>)
        requires
            old(self).graph.nodes@.len() == 0,
            old(self).graph.edges@.len() == 0,
            old(self).deps_add_queue@.len() == 0,
            ids_distinct(old(self).workspace_members@),
            forall|j: int|
                0 <= j < old(self).packages@.len() ==> (#[trigger] old(self).packages@[j]) is Some,
            forall|i: int, j: int|
                #![trigger old(self).packages@[i], old(self).packages@[j]]
                0 <= i < j < old(self).packages@.len() ==> old(self).packages@[i]->Some_0.id != old(self).packages@[j]->Some_0.id,
        ensures
            final(self).workspace_members == old(self).workspace_members,
            final(self).resolve == old(self).resolve,
            final(self).graph.edges@.len() == 0,
            final(self).packages@.len() == old(self).packages@.len(),
            r is Ok <==> forall|k: int|
                0 <= k < old(self).workspace_members@.len() ==> has_opt_record(
                    old(self).packages@,
                    #[trigger] old(self).workspace_members@[k],
                ),
            r matches Err(e) ==> e == GraphError::MissingPackageRecord,
            r is Ok ==> {
                let members = old(self).workspace_members@;
                &&& final(self).graph.nodes@.len() == members.len()
                &&& forall|k: int|
                    0 <= k < members.len() ==> (#[trigger] final(self).graph.nodes@[k]).id
                        == members[k] && final(self).graph.nodes@[k].is_root && final(self).graph.nodes@[k].dep_info is None && node_from_opt_packages(
                        old(self).packages@,
                        final(self).graph.nodes@[k],
                    )
                &&& final(self).deps_add_queue@ == members
                &&& forall|j: int|
                    0 <= j < final(self).packages@.len()
                        ==> (#[trigger] final(self).packages@[j]) == if members.contains(
                        old(self).packages@[j]->Some_0.id,
                    ) {
                        None
                    } else {
                        old(self).packages@[j]
                    }
            },
    {
        let n = self.workspace_members.len();
        let mut k: usize = 0;
        while k < n
            invariant
                n == self.workspace_members@.len(),
                k <= n,
                self.workspace_members == old(self).workspace_members,
                self.resolve == old(self).resolve,
                self.graph.edges@.len() == 0,
                ids_distinct(self.workspace_members@),
                self.packages@.len() == old(self).packages@.len(),
                forall|i: int, j: int|
                    #![trigger old(self).packages@[i], old(self).packages@[j]]
                    0 <= i < j < old(self).packages@.len() ==> old(self).packages@[i]->Some_0.id
                        != old(self).packages@[j]->Some_0.id,
                forall|j: int|
                    0 <= j < old(self).packages@.len() ==> (#[trigger] old(self).packages@[j]) is Some,
                self.graph.nodes@.len() == k,
                self.deps_add_queue@ == self.workspace_members@.take(k as int),
                forall|t: int|
                    0 <= t < k ==> (#[trigger] self.graph.nodes@[t]).id
                        == self.workspace_members@[t] && self.graph.nodes@[t].is_root
                        && self.graph.nodes@[t].dep_info is None && node_from_opt_packages(
                        old(self).packages@,
                        self.graph.nodes@[t],
                    ),
                forall|j: int|
                    0 <= j < self.packages@.len() ==> (#[trigger] self.packages@[j])
                        == if self.workspace_members@.take(k as int).contains(
                        old(self).packages@[j]->Some_0.id,
                    ) {
                        None
                    } else {
                        old(self).packages@[j]
                    },
            decreases n - k,
        {
            let pkg_id = self.workspace_members[k];
            let ghost members = self.workspace_members@;
            let ghost before = self.packages@;
            let rec = match pop_package(&mut self.packages, pkg_id) {
                Some(rec) => rec,
                None => {
                    proof {
                        // No pending record matches, and slots emptied so far
                        // belonged to earlier, distinct members: the original
                        // table never had a record for this member.
                        assert forall|j: int|
                            0 <= j < old(self).packages@.len() implies !((#[trigger] old(self).packages@[j]) is Some && old(self).packages@[j]->Some_0.id
                            == pkg_id) by {
                            if old(self).packages@[j] is Some && old(self).packages@[j]->Some_0.id
                                == pkg_id {
                                assert(before[j] is None);
                                assert(members.take(k as int).contains(pkg_id));
                                let t = choose|t: int|
                                    0 <= t < k && members.take(k as int)[t] == pkg_id;
                                assert(members[t] == members[k as int]);
                            }
                        }
                    }
                    return Err(GraphError::MissingPackageRecord);
                },
            };
            proof {
                let j = choose|j: int|
                    0 <= j < before.len() && before[j] == Some(rec) && self.packages@
                        == before.update(j, None);
                assert(before[j] == old(self).packages@[j]);
                assert(old(self).packages@[j]->Some_0.id == pkg_id);
                let take_next = members.take(k as int + 1);
                assert(take_next.take(k as int) =~= members.take(k as int));
                assert(take_next[k as int] == pkg_id);
                assert forall|j2: int| 0 <= j2 < self.packages@.len() implies (
                #[trigger] self.packages@[j2]) == if members.take(k as int + 1).contains(
                    old(self).packages@[j2]->Some_0.id,
                ) {
                    None
                } else {
                    old(self).packages@[j2]
                } by {
                    let id2 = old(self).packages@[j2]->Some_0.id;
                    if j2 == j {
                        assert(self.packages@[j2] is None);
                        assert(take_next.contains(id2));
                    } else {
                        assert(self.packages@[j2] == before[j2]);
                        if id2 == pkg_id {
                            // distinct record ids: only slot j can carry pkg_id
                            assert(false);
                        } else {
                            // the new member adds only pkg_id to the taken prefix
                            assert(members.take(k as int).contains(id2) <==> take_next.contains(
                                id2,
                            )) by {
                                if take_next.contains(id2) {
                                    let t = choose|t: int|
                                        0 <= t < take_next.len() && take_next[t] == id2;
                                    assert(t < k as int);
                                    assert(members.take(k as int)[t] == id2);
                                }
                                if members.take(k as int).contains(id2) {
                                    let t = choose|t: int|
                                        0 <= t < k as int && members.take(k as int)[t] == id2;
                                    assert(take_next[t] == id2);
                                }
                            }
                        }
                    }
                }
            }
            self.graph.nodes.push(
                Package {
                    id: rec.id,
                    name: rec.name,
                    version: rec.version,
                    is_root: true,
                    dep_info: None,
                },
            );
            self.deps_add_queue.push(pkg_id);
            proof {
                assert(self.deps_add_queue@ =~= members.take(k as int + 1));
            }
            k += 1;
        }
        proof {
            assert(self.deps_add_queue@ =~= self.workspace_members@);
            // Every member found its record: each created node came from one.
            assert forall|t: int|
                0 <= t < old(self).workspace_members@.len() implies has_opt_record(
                old(self).packages@,
                #[trigger] old(self).workspace_members@[t],
            ) by {
                assert(self.graph.nodes@[t].id == old(self).workspace_members@[t]);
                assert(node_from_opt_packages(old(self).packages@, self.graph.nodes@[t]));
            }
        }
        Ok(())
    }

    /// Breadth-first discovery: dequeue a package, add one node per newly
    /// seen dependency whose declarations are not entirely filtered out, and
    /// one edge per admitted (kind, target) pair. Fails with
    /// `MissingResolveEntry` when a queued package has no resolve entry, and
    /// with `MissingPackageRecord` when a discovered dependency has no
    /// pending package record.
    #[verifier::loop_isolation(false)]
    #[verifier::rlimit(100)]
    fn add_dependencies(&mut self, config: &Config) -> (r: Result<(), GraphError>)
        requires
            ({
                let b = old(self);
                let members = b.workspace_members@;
                &&& b.graph.edges@.len() == 0
                &&& b.graph.nodes@.len() == members.len()
                &&& forall|k: int|
                    0 <= k < members.len() ==> (#[trigger] b.graph.nodes@[k]).id == members[k]
                        && b.graph.nodes@[k].is_root && b.graph.nodes@[k].dep_info is None
                &&& b.deps_add_queue@ == members
                &&& ids_distinct(members)
                &&& entry_ids_distinct(b.resolve.nodes@)
                &&& b.graph.node_ids_unique()
                &&& forall|i: int, j: int|
                    #![trigger b.packages@[i], b.packages@[j]]
                    0 <= i < j < b.packages@.len() && b.packages@[i] is Some
                        && b.packages@[j] is Some ==> b.packages@[i]->Some_0.id
                        != b.packages@[j]->Some_0.id
                &&& forall|j: int|
                    0 <= j < b.packages@.len() && (#[trigger] b.packages@[j]) is Some
                        ==> !id_present(b.graph.nodes@, b.packages@[j]->Some_0.id)
            }),
        ensures
            final(self).workspace_members == old(self).workspace_members,
            final(self).resolve == old(self).resolve,
            ({
                let members = old(self).workspace_members@;
                let rn = old(self).resolve.nodes@;
                let p0 = old(self).packages@;
                &&& (r is Ok <==> (forall|y: u64|
                    #[trigger] reachable_id(members, rn, *config, y) ==> has_entry(rn, y) && (
                    members.contains(y) || has_opt_record(p0, y))))
                &&& (r matches Err(e) ==> (e == GraphError::MissingResolveEntry || e
                    == GraphError::MissingPackageRecord))
                &&& (r == Err::<(), GraphError>(GraphError::MissingResolveEntry) ==> exists|y: u64|
                    #[trigger] reachable_id(members, rn, *config, y) && !has_entry(rn, y))
                &&& (r == Err::<(), GraphError>(GraphError::MissingPackageRecord) ==> exists|
                    y: u64,
                |
                    #[trigger] reachable_id(members, rn, *config, y) && !members.contains(y)
                        && !has_opt_record(p0, y))
                &&& (r is Ok ==> graph_complete(members, rn, *config, final(self).graph) && forall|
                    k: int,
                |
                    0 <= k < final(self).graph.nodes@.len() ==> (members.len() <= k
                        ==> node_from_opt_packages(p0, #[trigger] final(self).graph.nodes@[k])) && (
                    0 <= k < members.len() ==> final(self).graph.nodes@[k] == old(
                        self,
                    ).graph.nodes@[k]))
            }),
    {
        let ghost members = old(self).workspace_members@;
        let ghost rn = old(self).resolve.nodes@;
        let ghost p0 = old(self).packages@;
        proof {
            assert forall|k: int| 0 <= k < self.graph.nodes@.len() implies reachable_id(
                members,
                rn,
                *config,
                (#[trigger] self.graph.nodes@[k]).id,
            ) by {
                assert(members[k] == self.graph.nodes@[k].id);
                lemma_member_reachable(members, rn, *config, self.graph.nodes@[k].id);
            }
            assert forall|t: int| 0 <= t < self.deps_add_queue@.len() implies id_present(
                self.graph.nodes@,
                #[trigger] self.deps_add_queue@[t],
            ) by {
                assert(self.graph.nodes@[t].id == members[t]);
            }
        }
        while self.deps_add_queue.len() > 0
            invariant
                self.workspace_members == old(self).workspace_members,
                self.resolve == old(self).resolve,
                members == old(self).workspace_members@,
                rn == old(self).resolve.nodes@,
                p0 == old(self).packages@,
                ids_distinct(members),
                entry_ids_distinct(rn),
                forall|i: int, j: int|
                    #![trigger p0[i], p0[j]]
                    0 <= i < j < p0.len() && p0[i] is Some && p0[j] is Some ==> p0[i]->Some_0.id
                        != p0[j]->Some_0.id,
                self.graph.nodes@.len() >= members.len(),
                forall|k: int|
                    0 <= k < members.len() ==> #[trigger] self.graph.nodes@[k] == old(
                        self,
                    ).graph.nodes@[k],
                forall|k: int|
                    0 <= k < members.len() ==> (#[trigger] self.graph.nodes@[k]).id == members[k]
                        && self.graph.nodes@[k].is_root && self.graph.nodes@[k].dep_info is None,
                forall|k: int|
                    members.len() <= k < self.graph.nodes@.len() ==> !(#[trigger] self
                        .graph
                        .nodes@[k]).is_root && self.graph.nodes@[k].dep_info is None
                        && node_from_opt_packages(p0, self.graph.nodes@[k]),
                self.graph.node_ids_unique(),
                edges_sound(rn, *config, self.graph),
                forall|k: int|
                    members.len() <= k < self.graph.nodes@.len() ==> has_incoming(
                        self.graph.edges@,
                        k,
                    ),
                forall|k: int|
                    0 <= k < self.graph.nodes@.len() ==> reachable_id(
                        members,
                        rn,
                        *config,
                        (#[trigger] self.graph.nodes@[k]).id,
                    ),
                self.packages@.len() == p0.len(),
                forall|j: int|
                    0 <= j < self.packages@.len() ==> ((#[trigger] self.packages@[j]) is Some
                        ==> self.packages@[j] == p0[j] && !id_present(
                        self.graph.nodes@,
                        p0[j]->Some_0.id,
                    )) && (self.packages@[j] is None ==> p0[j] is None || id_present(
                        self.graph.nodes@,
                        p0[j]->Some_0.id,
                    )),
                forall|t: int|
                    0 <= t < self.deps_add_queue@.len() ==> id_present(
                        self.graph.nodes@,
                        #[trigger] self.deps_add_queue@[t],
                    ),
                forall|k: int|
                    0 <= k < self.graph.nodes@.len() ==> self.deps_add_queue@.contains(
                        (#[trigger] self.graph.nodes@[k]).id,
                    ) || node_processed(rn, *config, self.graph, self.graph.nodes@[k].id),
            decreases count_some(self.packages@), self.deps_add_queue@.len(),
        {
            let ghost c0 = count_some(self.packages@);
            let ghost q0 = self.deps_add_queue@.len();
            let ghost q_before = self.deps_add_queue@;
            let pkg_id = self.deps_add_queue.remove(0);
            proof {
                assert forall|k: int|
                    0 <= k < self.graph.nodes@.len() implies self.deps_add_queue@.contains(
                    (#[trigger] self.graph.nodes@[k]).id,
                ) || node_processed(rn, *config, self.graph, self.graph.nodes@[k].id)
                    || self.graph.nodes@[k].id == pkg_id by {
                    let id = self.graph.nodes@[k].id;
                    if q_before.contains(id) && id != pkg_id {
                        let t = choose|t: int| 0 <= t < q_before.len() && q_before[t] == id;
                        assert(t != 0);
                        assert(self.deps_add_queue@[t - 1] == id);
                    }
                }
            }
            let parent_idx = match find_node(&self.graph.nodes, pkg_id) {
                Some(i) => i,
                None => {
                    proof {
                        assert(id_present(self.graph.nodes@, pkg_id));
                        assert(false);
                    }
                    return Err(GraphError::MissingResolveEntry);
                },
            };
            let entry_idx = match find_entry(&self.resolve.nodes, pkg_id) {
                Some(i) => i,
                None => {
                    proof {
                        assert(reachable_id(members, rn, *config, pkg_id));
                    }
                    return Err(GraphError::MissingResolveEntry);
                },
            };
            let ndeps = self.resolve.nodes[entry_idx].deps.len();
            let mut d: usize = 0;
            while d < ndeps
                invariant
                    self.workspace_members == old(self).workspace_members,
                    self.resolve == old(self).resolve,
                    members == old(self).workspace_members@,
                    rn == old(self).resolve.nodes@,
                    p0 == old(self).packages@,
                    ids_distinct(members),
                    entry_ids_distinct(rn),
                    forall|i: int, j: int|
                        #![trigger p0[i], p0[j]]
                        0 <= i < j < p0.len() && p0[i] is Some && p0[j] is Some
                            ==> p0[i]->Some_0.id != p0[j]->Some_0.id,
                    0 <= entry_idx < rn.len(),
                    rn[entry_idx as int].id == pkg_id,
                    ndeps == rn[entry_idx as int].deps@.len(),
                    d <= ndeps,
                    parent_idx < self.graph.nodes@.len(),
                    self.graph.nodes@[parent_idx as int].id == pkg_id,
                    self.graph.nodes@.len() >= members.len(),
                    forall|k: int|
                        0 <= k < members.len() ==> #[trigger] self.graph.nodes@[k] == old(
                            self,
                        ).graph.nodes@[k],
                    forall|k: int|
                        0 <= k < members.len() ==> (#[trigger] self.graph.nodes@[k]).id
                            == members[k] && self.graph.nodes@[k].is_root
                            && self.graph.nodes@[k].dep_info is None,
                    forall|k: int|
                        members.len() <= k < self.graph.nodes@.len() ==> !(#[trigger] self
                            .graph
                            .nodes@[k]).is_root && self.graph.nodes@[k].dep_info is None
                            && node_from_opt_packages(p0, self.graph.nodes@[k]),
                    self.graph.node_ids_unique(),
                    edges_sound(rn, *config, self.graph),
                    forall|k: int|
                        members.len() <= k < self.graph.nodes@.len() ==> has_incoming(
                            self.graph.edges@,
                            k,
                        ),
                    forall|k: int|
                        0 <= k < self.graph.nodes@.len() ==> reachable_id(
                            members,
                            rn,
                            *config,
                            (#[trigger] self.graph.nodes@[k]).id,
                        ),
                    self.packages@.len() == p0.len(),
                    forall|j: int|
                        0 <= j < self.packages@.len() ==> ((#[trigger] self.packages@[j]) is Some
                            ==> self.packages@[j] == p0[j] && !id_present(
                            self.graph.nodes@,
                            p0[j]->Some_0.id,
                        )) && (self.packages@[j] is None ==> p0[j] is None || id_present(
                            self.graph.nodes@,
                            p0[j]->Some_0.id,
                        )),
                    forall|t: int|
                        0 <= t < self.deps_add_queue@.len() ==> id_present(
                            self.graph.nodes@,
                            #[trigger] self.deps_add_queue@[t],
                        ),
                    forall|k: int|
                        0 <= k < self.graph.nodes@.len() ==> self.deps_add_queue@.contains(
                            (#[trigger] self.graph.nodes@[k]).id,
                        ) || node_processed(rn, *config, self.graph, self.graph.nodes@[k].id)
                            || self.graph.nodes@[k].id == pkg_id,
                    // dependencies handled so far are fully in the graph
                    forall|d2: int, j2: int|
                        0 <= d2 < d && 0 <= j2 < rn[entry_idx as int].deps@[d2].dep_kinds@.len()
                            && !spec_skip_dep(
                            *config,
                            #[trigger] rn[entry_idx as int].deps@[d2].dep_kinds@[j2],
                        ) ==> id_present(self.graph.nodes@, rn[entry_idx as int].deps@[d2].pkg)
                            && edge_present(
                            self.graph,
                            pkg_id,
                            rn[entry_idx as int].deps@[d2].pkg,
                            DepInfo {
                                kind: rn[entry_idx as int].deps@[d2].dep_kinds@[j2].kind,
                                is_target_dep: rn[entry_idx as int].deps@[d2].dep_kinds@[j2].is_target,
                            },
                        ),
                    count_some(self.packages@) <= c0,
                    count_some(self.packages@) == c0 ==> self.deps_add_queue@.len() == q0 - 1,
                decreases ndeps - d,
            {
                let nkinds = self.resolve.nodes[entry_idx].deps[d].dep_kinds.len();
                let ghost kinds = rn[entry_idx as int].deps@[d as int].dep_kinds@;
                let ghost g_start = self.graph;
                let ghost q_start = self.deps_add_queue@;
                let mut any: bool = false;
                let mut j: usize = 0;
                while j < nkinds
                    invariant
                        j <= nkinds,
                        nkinds == kinds.len(),
                        kinds == self.resolve.nodes@[entry_idx as int].deps@[d as int].dep_kinds@,
                        entry_idx < self.resolve.nodes@.len(),
                        d < self.resolve.nodes@[entry_idx as int].deps@.len(),
                        any <==> exists|t: int|
                            0 <= t < j && !spec_skip_dep(*config, #[trigger] kinds[t]),
                    decreases nkinds - j,
                {
                    let ki = self.resolve.nodes[entry_idx].deps[d].dep_kinds[j];
                    if !skip_dep(config, &ki) {
                        any = true;
                    }
                    j += 1;
                }
                if any {
                    let dep_pkg = self.resolve.nodes[entry_idx].deps[d].pkg;
                    proof {
                        assert(some_kind_admitted(kinds, *config));
                        assert(dep_admitted(rn[entry_idx as int].deps@, *config, dep_pkg));
                        assert(admitted_dep(rn, *config, pkg_id, dep_pkg));
                        lemma_reachable_step(members, rn, *config, pkg_id, dep_pkg);
                    }
                    let child_idx = match find_node(&self.graph.nodes, dep_pkg) {
                        Some(i) => i,
                        None => {
                            let ghost packages_before = self.packages@;
                            let rec = match pop_package(&mut self.packages, dep_pkg) {
                                Some(rec) => rec,
                                None => {
                                    proof {
                                        assert forall|j2: int|
                                            0 <= j2 < p0.len() implies !((#[trigger] p0[j2]) is Some
                                            && p0[j2]->Some_0.id == dep_pkg) by {
                                            if p0[j2] is Some && p0[j2]->Some_0.id == dep_pkg {
                                                if packages_before[j2] is Some {
                                                    assert(packages_before[j2] == p0[j2]);
                                                    assert(has_opt_record(
                                                        packages_before,
                                                        dep_pkg,
                                                    ));
                                                } else {
                                                    assert(id_present(
                                                        self.graph.nodes@,
                                                        dep_pkg,
                                                    ));
                                                }
                                            }
                                        }
                                        if members.contains(dep_pkg) {
                                            let t = choose|t: int|
                                                0 <= t < members.len() && members[t] == dep_pkg;
                                            assert(self.graph.nodes@[t].id == dep_pkg);
                                        }
                                    }
                                    return Err(GraphError::MissingPackageRecord);
                                },
                            };
                            let idx = self.graph.nodes.len();
                            self.graph.nodes.push(
                                Package {
                                    id: rec.id,
                                    name: rec.name,
                                    version: rec.version,
                                    is_root: false,
                                    dep_info: None,
                                },
                            );
                            self.deps_add_queue.push(dep_pkg);
                            proof {
                                let j2 = choose|j2: int|
                                    0 <= j2 < packages_before.len() && packages_before[j2] == Some(
                                        rec,
                                    ) && self.packages@ == packages_before.update(j2, None);
                                assert(p0[j2] == packages_before[j2]);
                                lemma_count_some_update_none(packages_before, j2);
                                assert(record_matches(p0[j2]->Some_0, self.graph.nodes@[idx as int]));
                                assert(node_from_opt_packages(p0, self.graph.nodes@[idx as int]));
                            }
                            idx
                        },
                    };
                    let ghost old_nodes_snap = self.graph.nodes@;
                    let ghost packages_snap = self.packages@;
                    let ghost queue_snap = self.deps_add_queue@;
                    let ghost edges_snap = self.graph.edges@;
                    // one parallel edge per admitted (kind, target) pair
                    let mut j: usize = 0;
                    while j < nkinds
                        invariant
                            j <= nkinds,
                            nkinds == kinds.len(),
                            kinds
                                == self.resolve.nodes@[entry_idx as int].deps@[d as int].dep_kinds@,
                            entry_idx < self.resolve.nodes@.len(),
                            d < self.resolve.nodes@[entry_idx as int].deps@.len(),
                            rn == self.resolve.nodes@,
                            rn[entry_idx as int].id == pkg_id,
                            rn[entry_idx as int].deps@[d as int].pkg == dep_pkg,
                            child_idx < self.graph.nodes@.len(),
                            parent_idx < self.graph.nodes@.len(),
                            self.graph.nodes@[child_idx as int].id == dep_pkg,
                            self.graph.nodes@[parent_idx as int].id == pkg_id,
                            edges_sound(rn, *config, self.graph),
                            forall|k: int|
                                members.len() <= k < self.graph.nodes@.len() ==> has_incoming(
                                    self.graph.edges@,
                                    k,
                                ) || (k == child_idx as int && exists|t: int|
                                    j <= t < kinds.len() && !spec_skip_dep(
                                        *config,
                                        #[trigger] kinds[t],
                                    )),
                            forall|t: int|
                                0 <= t < j && !spec_skip_dep(*config, #[trigger] kinds[t])
                                    ==> edge_present(
                                    self.graph,
                                    pkg_id,
                                    dep_pkg,
                                    DepInfo {
                                        kind: kinds[t].kind,
                                        is_target_dep: kinds[t].is_target,
                                    },
                                ),
                            // frame: nothing else of the builder changes here
                            self.graph.nodes@ == old_nodes_snap,
                            self.workspace_members == old(self).workspace_members,
                            self.resolve == old(self).resolve,
                            self.packages@ == packages_snap,
                            self.deps_add_queue@ == queue_snap,
                            forall|e: int|
                                0 <= e < edges_snap.len() ==> #[trigger] self.graph.edges@[e]
                                    == edges_snap[e],
                            self.graph.edges@.len() >= edges_snap.len(),
                        decreases nkinds - j,
                    {
                        let ghost g_iter = self.graph;
                        let ghost edges_iter = self.graph.edges@;
                        let ghost j_old = j as int;
                        let ki = self.resolve.nodes[entry_idx].deps[d].dep_kinds[j];
                        let mut pushed: bool = false;
                        if !skip_dep(config, &ki) {
                            self.graph.edges.push(
                                Edge {
                                    from: parent_idx,
                                    to: child_idx,
                                    info: DepInfo { kind: ki.kind, is_target_dep: ki.is_target },
                                    visited: false,
                                },
                            );
                            pushed = true;
                        }
                        j += 1;
                        proof {
                            assert forall|k: int|
                                members.len() <= k < self.graph.nodes@.len() implies has_incoming(
                                self.graph.edges@,
                                k,
                            ) || (k == child_idx as int && exists|t: int|
                                j_old + 1 <= t < kinds.len() && !spec_skip_dep(
                                    *config,
                                    #[trigger] kinds[t],
                                )) by {
                                if has_incoming(edges_iter, k) {
                                    let e = choose|e: int|
                                        0 <= e < edges_iter.len() && (#[trigger] edges_iter[e]).to
                                            as int == k;
                                    assert(self.graph.edges@[e].to as int == k);
                                    assert(has_incoming(self.graph.edges@, k));
                                } else if k == child_idx as int {
                                    if pushed {
                                        let e = self.graph.edges@.len() - 1;
                                        assert(self.graph.edges@[e].to as int == k);
                                        assert(has_incoming(self.graph.edges@, k));
                                    } else {
                                        let t = choose|t: int|
                                            j_old <= t < kinds.len() && !spec_skip_dep(
                                                *config,
                                                #[trigger] kinds[t],
                                            );
                                        assert(t != j_old);
                                        assert(j_old + 1 <= t < kinds.len() && !spec_skip_dep(
                                            *config,
                                            kinds[t],
                                        ));
                                    }
                                }
                            }
                            assert(graph_extends(g_iter, self.graph));
                            assert forall|t: int|
                                0 <= t < j_old + 1 && !spec_skip_dep(
                                    *config,
                                    #[trigger] kinds[t],
                                ) implies edge_present(
                                self.graph,
                                pkg_id,
                                dep_pkg,
                                DepInfo { kind: kinds[t].kind, is_target_dep: kinds[t].is_target },
                            ) by {
                                if t < j_old {
                                    lemma_edge_present_monotone(
                                        g_iter,
                                        self.graph,
                                        pkg_id,
                                        dep_pkg,
                                        DepInfo {
                                            kind: kinds[t].kind,
                                            is_target_dep: kinds[t].is_target,
                                        },
                                    );
                                } else {
                                    let e = self.graph.edges@.len() - 1;
                                    assert(self.graph.edges@[e].from == parent_idx
                                        && self.graph.edges@[e].to == child_idx
                                        && self.graph.edges@[e].info == (DepInfo {
                                        kind: kinds[t].kind,
                                        is_target_dep: kinds[t].is_target,
                                    }));
                                    assert(edge_present(
                                        self.graph,
                                        pkg_id,
                                        dep_pkg,
                                        DepInfo {
                                            kind: kinds[t].kind,
                                            is_target_dep: kinds[t].is_target,
                                        },
                                    ));
                                }
                            }
                        }
                    }
                    proof {
                        assert(graph_extends(g_start, self.graph));
                        let entry_deps = rn[entry_idx as int].deps@;
                        assert forall|d2: int, j2: int|
                            0 <= d2 < d + 1 && 0 <= j2 < entry_deps[d2].dep_kinds@.len()
                                && !spec_skip_dep(
                                *config,
                                #[trigger] entry_deps[d2].dep_kinds@[j2],
                            ) implies id_present(self.graph.nodes@, entry_deps[d2].pkg)
                            && edge_present(
                            self.graph,
                            pkg_id,
                            entry_deps[d2].pkg,
                            DepInfo {
                                kind: entry_deps[d2].dep_kinds@[j2].kind,
                                is_target_dep: entry_deps[d2].dep_kinds@[j2].is_target,
                            },
                        ) by {
                            if d2 < d {
                                lemma_id_present_monotone(g_start, self.graph, entry_deps[d2].pkg);
                                lemma_edge_present_monotone(
                                    g_start,
                                    self.graph,
                                    pkg_id,
                                    entry_deps[d2].pkg,
                                    DepInfo {
                                        kind: entry_deps[d2].dep_kinds@[j2].kind,
                                        is_target_dep: entry_deps[d2].dep_kinds@[j2].is_target,
                                    },
                                );
                            } else {
                                assert(self.graph.nodes@[child_idx as int].id == dep_pkg);
                            }
                        }
                        assert forall|k: int|
                            0 <= k < self.graph.nodes@.len() implies self.deps_add_queue@.contains(
                            (#[trigger] self.graph.nodes@[k]).id,
                        ) || node_processed(rn, *config, self.graph, self.graph.nodes@[k].id)
                            || self.graph.nodes@[k].id == pkg_id by {
                            if k < g_start.nodes@.len() {
                                let id = g_start.nodes@[k].id;
                                if q_start.contains(id) {
                                    let t = choose|t: int|
                                        0 <= t < q_start.len() && q_start[t] == id;
                                    assert(self.deps_add_queue@[t] == id);
                                } else if node_processed(rn, *config, g_start, id) {
                                    lemma_processed_monotone(rn, *config, g_start, self.graph, id);
                                }
                            } else {
                                assert(self.deps_add_queue@.last() == dep_pkg);
                            }
                        }
                    }
                }
                d += 1;
            }
            proof {
                // the dequeued package is now fully processed
                assert(node_processed(rn, *config, self.graph, pkg_id)) by {
                    assert(rn[entry_idx as int].id == pkg_id);
                    assert forall|k: int, d2: int, j2: int|
                        0 <= k < rn.len() && rn[k].id == pkg_id && 0 <= d2 < rn[k].deps@.len() && 0
                            <= j2 < rn[k].deps@[d2].dep_kinds@.len() && !spec_skip_dep(
                            *config,
                            #[trigger] rn[k].deps@[d2].dep_kinds@[j2],
                        ) implies id_present(self.graph.nodes@, rn[k].deps@[d2].pkg)
                        && edge_present(
                        self.graph,
                        pkg_id,
                        rn[k].deps@[d2].pkg,
                        DepInfo {
                            kind: rn[k].deps@[d2].dep_kinds@[j2].kind,
                            is_target_dep: rn[k].deps@[d2].dep_kinds@[j2].is_target,
                        },
                    ) by {
                        if k != entry_idx as int {
                            // resolve entries carry distinct identifiers
                            assert(rn[k].id != rn[entry_idx as int].id);
                        }
                    }
                }
            }
        }
        proof {
            // the queue is drained: every node is processed, so every
            // reachable identifier is present and the graph is complete
            let g = self.graph;
            assert forall|y: u64| #[trigger] reachable_id(members, rn, *config, y) implies
                id_present(g.nodes@, y) && has_entry(rn, y) && (members.contains(y)
                || has_opt_record(p0, y)) by {
                let p = choose|p: Seq<u64>|
                    is_reach_path(members, rn, *config, p) && p.last() == y;
                lemma_reach_path_present(members, rn, *config, g, p);
                let k = choose|k: int| 0 <= k < g.nodes@.len() && (#[trigger] g.nodes@[k]).id == y;
                assert(node_processed(rn, *config, g, y));
                if k < members.len() {
                    assert(members[k] == y);
                } else {
                    assert(node_from_opt_packages(p0, g.nodes@[k]));
                    let t = choose|t: int|
                        0 <= t < p0.len() && (#[trigger] p0[t]) is Some && record_matches(
                            p0[t]->Some_0,
                            g.nodes@[k],
                        );
                    assert(p0[t]->Some_0.id == y);
                }
            }
            assert(edges_complete(rn, *config, g)) by {
                assert forall|k: int, d2: int, j2: int|
                    0 <= k < rn.len() && 0 <= d2 < rn[k].deps@.len() && 0 <= j2
                        < rn[k].deps@[d2].dep_kinds@.len() && id_present(g.nodes@, rn[k].id)
                        && !spec_skip_dep(
                        *config,
                        #[trigger] rn[k].deps@[d2].dep_kinds@[j2],
                    ) implies id_present(g.nodes@, rn[k].deps@[d2].pkg) && edge_present(
                    g,
                    rn[k].id,
                    rn[k].deps@[d2].pkg,
                    DepInfo {
                        kind: rn[k].deps@[d2].dep_kinds@[j2].kind,
                        is_target_dep: rn[k].deps@[d2].dep_kinds@[j2].is_target,
                    },
                ) by {
                    let t = choose|t: int|
                        0 <= t < g.nodes@.len() && (#[trigger] g.nodes@[t]).id == rn[k].id;
                    assert(node_processed(rn, *config, g, rn[k].id));
                }
            }
            assert(graph_complete(members, rn, *config, g));
        }
        Ok(())
    }
}

} // verus!
