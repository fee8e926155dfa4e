use vstd::prelude::*;
use vstd::set_lib::{lemma_int_range, lemma_len_subset, set_int_range};
use crate::dep_info::DepInfo;
use crate::dep_kind::{DepKind, combine_kind, lemma_combine_kind_absorb};
use crate::error::GraphError;
use crate::graph::{DepGraph, Edge, has_incoming};
use crate::package::Package;

verus! {

/// A node that needs no classification work: a root, or one already
/// classified.
pub open spec fn settled(g: DepGraph, i: int) -> bool {
    g.nodes@[i].is_root || g.nodes@[i].dep_info is Some
}

/// A node the propagation pass still has to classify: non-root and without a
/// classification.
pub open spec fn pending_node(g: DepGraph, i: int) -> bool {
    0 <= i < g.nodes@.len() && !g.nodes@[i].is_root && g.nodes@[i].dep_info is None
}

/// Some edge among the first `n` points at node `i`.
pub open spec fn has_incoming_upto(edges: Seq<Edge>, i: int, n: int) -> bool {
    exists|k: int| 0 <= k < n && (#[trigger] edges[k]).to as int == i
}

/// Least-restrictive kind among the first `n` edges into node `i`
/// (`Development`, the most restrictive kind, when there is none: it is the
/// neutral element of `combine_kind`).
pub open spec fn agg_kind_upto(edges: Seq<Edge>, i: int, n: int) -> DepKind
    decreases n,
{
    if n <= 0 {
        DepKind::Development
    } else {
        let rest = agg_kind_upto(edges, i, n - 1);
        if edges[n - 1].to as int == i {
            combine_kind(rest, edges[n - 1].info.kind)
        } else {
            rest
        }
    }
}

/// All of the first `n` edges into node `i` are target-specific.
pub open spec fn agg_target_upto(edges: Seq<Edge>, i: int, n: int) -> bool {
    forall|k: int|
        0 <= k < n && (#[trigger] edges[k]).to as int == i ==> edges[k].info.is_target_dep
}

/// The aggregate of all incoming edges of node `i`: the least-restrictive
/// kind among them, and target-specific only if every one of them is.
pub open spec fn agg_info(edges: Seq<Edge>, i: int) -> DepInfo {
    DepInfo {
        kind: agg_kind_upto(edges, i, edges.len() as int),
        is_target_dep: agg_target_upto(edges, i, edges.len() as int),
    }
}

/// An edge inherits its source's classification on top of its own: it becomes
/// target-specific if either is, and keeps the least-restrictive of the two
/// kinds.
pub open spec fn project_info(e: DepInfo, node: DepInfo) -> DepInfo {
    DepInfo {
        kind: combine_kind(e.kind, node.kind),
        is_target_dep: e.is_target_dep || node.is_target_dep,
    }
}

/// What the pass leaves behind on one edge, given the source node as the pass
/// left it: an edge out of a root keeps its declared information, any other
/// edge carries its declared information projected through the source's
/// classification; either way it is marked visited.
pub open spec fn finalized_edge(old_e: Edge, src: Package, new_e: Edge) -> bool {
    if src.is_root {
        new_e == (Edge { from: old_e.from, to: old_e.to, info: old_e.info, visited: true })
    } else {
        &&& src.dep_info is Some
        &&& new_e == (Edge {
            from: old_e.from,
            to: old_e.to,
            info: project_info(old_e.info, src.dep_info->Some_0),
            visited: true,
        })
    }
}

/// A graph on which the pass has nothing left to do: every non-root node is
/// classified, every edge is visited, and every edge already carries its
/// source's classification.
pub open spec fn finalized_graph(g: DepGraph) -> bool {
    &&& forall|i: int| 0 <= i < g.nodes@.len() ==> settled(g, i)
    &&& forall|e: int|
        0 <= e < g.edges@.len() ==> (#[trigger] g.edges@[e]).from < g.nodes@.len()
            && g.edges@[e].visited && finalized_edge(
            g.edges@[e],
            g.nodes@[g.edges@[e].from as int],
            g.edges@[e],
        )
}

/// `rank` witnesses that the unclassified non-root part of the graph has no
/// dependency cycle: along every edge between two such nodes the rank
/// strictly grows.
pub open spec fn rank_orders(g: DepGraph, rank: Seq<int>) -> bool {
    &&& rank.len() == g.nodes@.len()
    &&& forall|e: int|
        0 <= e < g.edges@.len() && pending_node(g, (#[trigger] g.edges@[e]).from as int)
            && pending_node(g, g.edges@[e].to as int) ==> rank[g.edges@[e].from as int]
            < rank[g.edges@[e].to as int]
}

/// The unclassified non-root part of the graph is free of dependency cycles.
pub open spec fn pending_acyclic(g: DepGraph) -> bool {
    exists|rank: Seq<int>| rank_orders(g, rank)
}

/// With no edge into `i` among the first `n`, the aggregate is the neutral
/// element.
proof fn lemma_agg_kind_empty(edges: Seq<Edge>, i: int, n: int)
    requires
        0 <= n <= edges.len(),
        !has_incoming_upto(edges, i, n),
    ensures
        agg_kind_upto(edges, i, n) == DepKind::Development,
    decreases n,
{
    if n > 0 {
        assert(!has_incoming_upto(edges, i, n - 1));
        lemma_agg_kind_empty(edges, i, n - 1);
    }
}

/// The aggregate of node `i` only reads edges into `i`: two edge arenas that
/// agree on those agree on the aggregate.
proof fn lemma_agg_same(edges1: Seq<Edge>, edges2: Seq<Edge>, i: int, n: int)
    requires
        edges1.len() == edges2.len(),
        0 <= n <= edges1.len(),
        forall|e: int|
            0 <= e < edges1.len() ==> (#[trigger] edges2[e]).to == edges1[e].to && (edges1[e].to
                as int == i ==> edges2[e] == edges1[e]),
    ensures
        agg_kind_upto(edges1, i, n) == agg_kind_upto(edges2, i, n),
        agg_target_upto(edges1, i, n) == agg_target_upto(edges2, i, n),
    decreases n,
{
    if n > 0 {
        lemma_agg_same(edges1, edges2, i, n - 1);
    }
    assert(agg_target_upto(edges1, i, n) == agg_target_upto(edges2, i, n)) by {
        if agg_target_upto(edges1, i, n) {
            assert forall|k: int|
                0 <= k < n && (#[trigger] edges2[k]).to as int == i implies edges2[k].info.is_target_dep by {
                assert(edges1[k].to as int == i);
            }
        }
        if agg_target_upto(edges2, i, n) {
            assert forall|k: int|
                0 <= k < n && (#[trigger] edges1[k]).to as int == i implies edges1[k].info.is_target_dep by {
                assert(edges2[k].to as int == i);
            }
        }
    }
}

/// How many nodes still await a classification.
pub open spec fn count_pending(nodes: Seq<Package>) -> nat
    decreases nodes.len(),
{
    if nodes.len() == 0 {
        0
    } else {
        count_pending(nodes.drop_last()) + if !nodes.last().is_root
            && nodes.last().dep_info is None {
            1nat
        } else {
            0nat
        }
    }
}

/// Classifying one pending node lowers the pending count by one.
proof fn lemma_count_pending_update(nodes1: Seq<Package>, nodes2: Seq<Package>, i: int)
    requires
        nodes1.len() == nodes2.len(),
        0 <= i < nodes1.len(),
        forall|t: int| 0 <= t < nodes1.len() && t != i ==> nodes2[t] == #[trigger] nodes1[t],
        !nodes1[i].is_root && nodes1[i].dep_info is None,
        !nodes2[i].is_root && nodes2[i].dep_info is Some,
    ensures
        count_pending(nodes2) == count_pending(nodes1) - 1,
    decreases nodes1.len(),
{
    if i == nodes1.len() - 1 {
        assert(nodes2.drop_last() =~= nodes1.drop_last());
    } else {
        lemma_count_pending_update(nodes1.drop_last(), nodes2.drop_last(), i);
    }
}

/// Whether any edge points at node `i`.
fn node_has_incoming(g: &DepGraph, i: usize) -> (r: bool)
    ensures
        r == has_incoming(g.edges@, i as int),
{
    let m = g.edges.len();
    let mut e: usize = 0;
    while e < m
        invariant
            e <= m,
            m == g.edges@.len(),
            forall|k: int| 0 <= k < e ==> (#[trigger] g.edges@[k]).to != i,
        decreases m - e,
    {
        if g.edges[e].to == i {
            return true;
        }
        e += 1;
    }
    false
}

/// Combine all incoming edges of node `i` into one aggregate; `None` when the
/// node has no incoming edge.
fn aggregate_incoming(g: &DepGraph, i: usize) -> (r: Option<DepInfo>)
    ensures
        r is Some <==> has_incoming(g.edges@, i as int),
        r matches Some(info) ==> info == agg_info(g.edges@, i as int),
{
    let m = g.edges.len();
    let mut e: usize = 0;
    let mut acc: Option<DepInfo> = None;
    while e < m
        invariant
            e <= m,
            m == g.edges@.len(),
            acc is Some <==> has_incoming_upto(g.edges@, i as int, e as int),
            acc matches Some(a) ==> a == (DepInfo {
                kind: agg_kind_upto(g.edges@, i as int, e as int),
                is_target_dep: agg_target_upto(g.edges@, i as int, e as int),
            }),
        decreases m - e,
    {
        let ed = g.edges[e];
        if ed.to == i {
            acc = match acc {
                Some(a) => Some(
                    DepInfo {
                        kind: a.kind.combine_incoming(ed.info.kind),
                        is_target_dep: a.is_target_dep && ed.info.is_target_dep,
                    },
                ),
                None => {
                    proof {
                        lemma_agg_kind_empty(g.edges@, i as int, e as int);
                    }
                    Some(ed.info)
                },
            };
        }
        e += 1;
    }
    proof {
        if acc is Some {
            assert(has_incoming(g.edges@, i as int));
        }
        if has_incoming(g.edges@, i as int) {
            assert(has_incoming_upto(g.edges@, i as int, m as int));
        }
    }
    acc
}

/// Mark every outgoing edge of root node `i` visited, leaving its declared
/// information untouched.
fn mark_outgoing_visited(g: &mut DepGraph, i: usize)
    ensures
        final(g).nodes@ == old(g).nodes@,
        final(g).edges@.len() == old(g).edges@.len(),
        forall|e: int|
            0 <= e < old(g).edges@.len() ==> #[trigger] final(g).edges@[e] == if old(
                g,
            ).edges@[e].from == i {
                Edge {
                    from: old(g).edges@[e].from,
                    to: old(g).edges@[e].to,
                    info: old(g).edges@[e].info,
                    visited: true,
                }
            } else {
                old(g).edges@[e]
            },
{
    let m = g.edges.len();
    let mut e: usize = 0;
    while e < m
        invariant
            e <= m,
            m == g.edges@.len(),
            g.nodes@ == old(g).nodes@,
            forall|k: int|
                0 <= k < m ==> #[trigger] g.edges@[k] == if k < e && old(g).edges@[k].from == i {
                    Edge {
                        from: old(g).edges@[k].from,
                        to: old(g).edges@[k].to,
                        info: old(g).edges@[k].info,
                        visited: true,
                    }
                } else {
                    old(g).edges@[k]
                },
        decreases m - e,
    {
        if g.edges[e].from == i {
            let mut ed = g.edges[e];
            ed.visited = true;
            g.edges.set(e, ed);
        }
        e += 1;
    }
}

/// Project classification `info` onto every outgoing edge of node `i` and
/// mark those edges visited.
fn project_outgoing(g: &mut DepGraph, i: usize, info: DepInfo)
    ensures
        final(g).nodes@ == old(g).nodes@,
        final(g).edges@.len() == old(g).edges@.len(),
        forall|e: int|
            0 <= e < old(g).edges@.len() ==> #[trigger] final(g).edges@[e] == if old(
                g,
            ).edges@[e].from == i {
                Edge {
                    from: old(g).edges@[e].from,
                    to: old(g).edges@[e].to,
                    info: project_info(old(g).edges@[e].info, info),
                    visited: true,
                }
            } else {
                old(g).edges@[e]
            },
{
    let m = g.edges.len();
    let mut e: usize = 0;
    while e < m
        invariant
            e <= m,
            m == g.edges@.len(),
            g.nodes@ == old(g).nodes@,
            forall|k: int|
                0 <= k < m ==> #[trigger] g.edges@[k] == if k < e && old(g).edges@[k].from == i {
                    Edge {
                        from: old(g).edges@[k].from,
                        to: old(g).edges@[k].to,
                        info: project_info(old(g).edges@[k].info, info),
                        visited: true,
                    }
                } else {
                    old(g).edges@[k]
                },
        decreases m - e,
    {
        if g.edges[e].from == i {
            let mut ed = g.edges[e];
            ed.visited = true;
            ed.info = DepInfo {
                kind: ed.info.kind.update_outgoing(info.kind),
                is_target_dep: ed.info.is_target_dep || info.is_target_dep,
            };
            g.edges.set(e, ed);
        }
        e += 1;
    }
}

/// Classify pending node `i` as the aggregate of its incoming edges and
/// project that classification onto its outgoing edges.
fn finalize_node(g: &mut DepGraph, i: usize)
    requires
        i < old(g).nodes@.len(),
        pending_node(*old(g), i as int),
        has_incoming(old(g).edges@, i as int),
    ensures
        final(g).nodes@.len() == old(g).nodes@.len(),
        forall|t: int|
            0 <= t < old(g).nodes@.len() && t != i ==> #[trigger] final(g).nodes@[t] == old(
                g,
            ).nodes@[t],
        final(g).nodes@[i as int] == (Package {
            id: old(g).nodes@[i as int].id,
            name: old(g).nodes@[i as int].name,
            version: old(g).nodes@[i as int].version,
            is_root: old(g).nodes@[i as int].is_root,
            dep_info: Some(agg_info(old(g).edges@, i as int)),
        }),
        final(g).edges@.len() == old(g).edges@.len(),
        forall|e: int|
            0 <= e < old(g).edges@.len() ==> #[trigger] final(g).edges@[e] == if old(
                g,
            ).edges@[e].from == i {
                Edge {
                    from: old(g).edges@[e].from,
                    to: old(g).edges@[e].to,
                    info: project_info(
                        old(g).edges@[e].info,
                        agg_info(old(g).edges@, i as int),
                    ),
                    visited: true,
                }
            } else {
                old(g).edges@[e]
            },
{
    let agg = match aggregate_incoming(g, i) {
        Some(a) => a,
        None => {
            proof {
                assert(false);
            }
            DepInfo { kind: DepKind::Normal, is_target_dep: false }
        },
    };
    let ghost nodes_before = g.nodes@;
    let mut node = g.nodes.remove(i);
    node.dep_info = Some(agg);
    g.nodes.insert(i, node);
    proof {
        assert forall|t: int|
            0 <= t < nodes_before.len() && t != i implies #[trigger] g.nodes@[t]
            == nodes_before[t] by {
            if t < i {
                assert(g.nodes@[t] == nodes_before.remove(i as int).insert(i as int, g.nodes@[i as int])[t]);
            }
        }
    }
    project_outgoing(g, i, agg);
}

/// Lowest-index pending node all of whose incoming edges come from settled
/// sources; `None` when no pending node is ready.
#[verifier::loop_isolation(false)]
fn find_ready(g: &DepGraph) -> (r: Option<usize>)
    requires
        g.wf(),
    ensures
        r matches Some(i) ==> pending_node(*g, i as int) && forall|e: int|
            0 <= e < g.edges@.len() && (#[trigger] g.edges@[e]).to as int == i as int ==> settled(
                *g,
                g.edges@[e].from as int,
            ),
        r is None ==> forall|t: int|
            #[trigger] pending_node(*g, t) ==> exists|e: int|
                0 <= e < g.edges@.len() && (#[trigger] g.edges@[e]).to as int == t && !settled(
                    *g,
                    g.edges@[e].from as int,
                ),
{
    let n = g.nodes.len();
    let mut i: usize = 0;
    while i < n
        invariant
            i <= n,
            n == g.nodes@.len(),
            forall|t: int|
                0 <= t < i && #[trigger] pending_node(*g, t) ==> exists|e: int|
                    0 <= e < g.edges@.len() && (#[trigger] g.edges@[e]).to as int == t && !settled(
                        *g,
                        g.edges@[e].from as int,
                    ),
        decreases n - i,
    {
        let is_pending = !g.nodes[i].is_root && g.nodes[i].dep_info.is_none();
        if is_pending {
            if node_ready(g, i) {
                return Some(i);
            }
        }
        i += 1;
    }
    None
}

/// Every incoming edge of node `i` comes from a root or an already-classified
/// node.
#[verifier::loop_isolation(false)]
fn node_ready(g: &DepGraph, i: usize) -> (r: bool)
    requires
        g.wf(),
        i < g.nodes@.len(),
    ensures
        r <==> forall|e: int|
            0 <= e < g.edges@.len() && (#[trigger] g.edges@[e]).to as int == i as int ==> settled(
                *g,
                g.edges@[e].from as int,
            ),
{
    let m = g.edges.len();
    let mut e: usize = 0;
    while e < m
        invariant
            e <= m,
            m == g.edges@.len(),
            forall|k: int|
                0 <= k < e && (#[trigger] g.edges@[k]).to as int == i as int ==> settled(
                    *g,
                    g.edges@[k].from as int,
                ),
        decreases m - e,
    {
        if g.edges[e].to == i {
            let src = g.edges[e].from;
            if !(g.nodes[src].is_root || g.nodes[src].dep_info.is_some()) {
                return false;
            }
        }
        e += 1;
    }
    true
}

/// Some edge into `j` starts at another member of `pend`.
pub open spec fn has_pending_pred(edges: Seq<Edge>, pend: Set<int>, j: int) -> bool {
    exists|e: int|
        0 <= e < edges.len() && (#[trigger] edges[e]).to as int == j && pend.contains(
            edges[e].from as int,
        )
}

/// In a nonempty set of nodes whose internal edges a rank orders strictly,
/// some member has no predecessor inside the set: descend along predecessors,
/// the number of members of smaller rank shrinking at each step.
proof fn lemma_pending_min(edges: Seq<Edge>, pend: Set<int>, rank: Seq<int>, n: int, i: int)
    requires
        forall|j: int| #[trigger] pend.contains(j) ==> 0 <= j < n,
        rank.len() == n,
        pend.contains(i),
        forall|e: int|
            0 <= e < edges.len() && pend.contains((#[trigger] edges[e]).from as int)
                && pend.contains(edges[e].to as int) ==> rank[edges[e].from as int] < rank[edges[e].to as int],
    ensures
        exists|j: int| #[trigger] pend.contains(j) && !has_pending_pred(edges, pend, j),
    decreases pend.intersect(Set::new(|j: int| 0 <= j < n && rank[j] < rank[i])).len(),
{
    if !has_pending_pred(edges, pend, i) {
        assert(pend.contains(i) && !has_pending_pred(edges, pend, i));
    } else {
        lemma_int_range(0, n);
        lemma_len_subset(pend, set_int_range(0, n));
        let m_i = pend.intersect(Set::new(|j: int| 0 <= j < n && rank[j] < rank[i]));
        lemma_len_subset(m_i, pend);
        let e = choose|e: int|
            0 <= e < edges.len() && (#[trigger] edges[e]).to as int == i && pend.contains(
                edges[e].from as int,
            );
        let p = edges[e].from as int;
        assert(rank[p] < rank[i]);
        let m_p = pend.intersect(Set::new(|j: int| 0 <= j < n && rank[j] < rank[p]));
        assert(m_i.contains(p));
        assert(m_p.subset_of(m_i.remove(p)));
        lemma_len_subset(m_p, m_i.remove(p));
        assert(m_i.remove(p).len() == m_i.len() - 1);
        lemma_pending_min(edges, pend, rank, n, p);
    }
}

/// Everything the propagation pass guarantees of the node arena: lengths,
/// identifiers, names, versions and root flags are untouched, and nodes that
/// needed no classification keep the classification field they had.
pub open spec fn nodes_mid(g0: DepGraph, g: DepGraph) -> bool {
    &&& g.nodes@.len() == g0.nodes@.len()
    &&& forall|t: int|
        0 <= t < g.nodes@.len() ==> {
            let n0 = g0.nodes@[t];
            let n1 = #[trigger] g.nodes@[t];
            &&& n1.id == n0.id
            &&& n1.name == n0.name
            &&& n1.version == n0.version
            &&& n1.is_root == n0.is_root
            &&& (settled(g0, t) ==> n1.dep_info == n0.dep_info)
        }
}

/// Mid-pass edge state: an edge whose source has been dealt with carries its
/// finalized value, every other edge still carries its built value.
pub open spec fn edges_mid(g0: DepGraph, g: DepGraph) -> bool {
    &&& g.edges@.len() == g0.edges@.len()
    &&& forall|e: int|
        0 <= e < g.edges@.len() ==> {
            let e0 = g0.edges@[e];
            if settled(g, e0.from as int) {
                finalized_edge(e0, g.nodes@[e0.from as int], #[trigger] g.edges@[e])
            } else {
                g.edges@[e] == e0
            }
        }
}

/// Every edge carries its declared value finalized against its source as the
/// pass left it.
pub open spec fn edges_final(g0: DepGraph, g: DepGraph) -> bool {
    &&& g.edges@.len() == g0.edges@.len()
    &&& forall|e: int|
        0 <= e < g.edges@.len() ==> finalized_edge(
            (#[trigger] g0.edges@[e]),
            g.nodes@[g0.edges@[e].from as int],
            g.edges@[e],
        )
}

/// Every node of `s` that the pass classified (pending in `g0`, settled in
/// `s`) carries in `g` exactly the aggregate of its incoming edges, and all
/// those edges come from sources settled in `s` (so they already carry their
/// final values).
pub open spec fn classified_exact(g0: DepGraph, s: DepGraph, g: DepGraph) -> bool {
    forall|t: int|
        pending_node(g0, t) && settled(s, t) ==> (#[trigger] g.nodes@[t]).dep_info == Some(
            agg_info(g.edges@, t),
        ) && forall|e: int|
            0 <= e < g.edges@.len() && (#[trigger] g.edges@[e]).to as int == t ==> settled(
                s,
                g.edges@[e].from as int,
            )
}


/// When the pending part of the graph is acyclic, the dependency-order phase
/// cannot get stuck: a leftover pending node would sit in a set in which
/// every member has a pending predecessor, which no strictly growing rank
/// allows.
proof fn lemma_no_pending_left(g0: DepGraph, g: DepGraph)
    requires
        g0.wf(),
        pending_acyclic(g0),
        g.nodes@.len() == g0.nodes@.len(),
        nodes_mid(g0, g),
        edges_mid(g0, g),
        forall|t: int|
            #[trigger] pending_node(g, t) ==> exists|e: int|
                0 <= e < g.edges@.len() && (#[trigger] g.edges@[e]).to as int == t && !settled(
                    g,
                    g.edges@[e].from as int,
                ),
    ensures
        forall|t: int| !pending_node(g, t),
{
    let n = g.nodes@.len() as int;
    let rank = choose|rank: Seq<int>| rank_orders(g0, rank);
    assert forall|t: int| !pending_node(g, t) by {
        if pending_node(g, t) {
            let pend = Set::new(|j: int| pending_node(g, j));
            assert(pend.contains(t));
            assert forall|j: int| #[trigger] pend.contains(j) implies 0 <= j < n && pending_node(
                g0,
                j,
            ) by {
                assert(g.nodes@[j].is_root == g0.nodes@[j].is_root);
                if settled(g0, j) {
                    assert(g.nodes@[j].dep_info == g0.nodes@[j].dep_info);
                }
            }
            assert forall|e: int|
                0 <= e < g.edges@.len() && pend.contains((#[trigger] g.edges@[e]).from as int)
                    && pend.contains(g.edges@[e].to as int) implies rank[g.edges@[e].from as int]
                < rank[g.edges@[e].to as int] by {
                let e0 = g0.edges@[e];
                assert(g.edges@[e].from == e0.from && g.edges@[e].to == e0.to);
                assert(pending_node(g0, e0.from as int) && pending_node(g0, e0.to as int));
            }
            lemma_pending_min(g.edges@, pend, rank, n, t);
            let j = choose|j: int|
                #[trigger] pend.contains(j) && !has_pending_pred(g.edges@, pend, j);
            assert(pending_node(g, j));
            let e = choose|e: int|
                0 <= e < g.edges@.len() && (#[trigger] g.edges@[e]).to as int == j && !settled(
                    g,
                    g.edges@[e].from as int,
                );
            assert(pend.contains(g.edges@[e].from as int));
            assert(has_pending_pred(g.edges@, pend, j));
            assert(false);
        }
    }
}

/// Assemble the propagation pass's postcondition from its phase invariants.
proof fn lemma_pass_result(g0: DepGraph, g2: DepGraph, g1: DepGraph)
    requires
        g0.wf(),
        nodes_mid(g0, g1),
        edges_mid(g0, g1),
        forall|t: int| 0 <= t < g1.nodes@.len() ==> settled(g1, t),
        classified_exact(g0, g2, g1),
        pending_acyclic(g0) ==> g1.nodes@ == g2.nodes@ && g1.edges@ == g2.edges@ && (forall|
            t: int,
        | !pending_node(g2, t)),
    ensures
        edges_final(g0, g1),
        pending_acyclic(g0) ==> forall|t: int|
            #[trigger] pending_node(g0, t) ==> g1.nodes@[t].dep_info == Some(
                agg_info(g1.edges@, t),
            ),
        finalized_graph(g1),
        finalized_graph(g0) ==> g1.nodes@ == g0.nodes@ && g1.edges@ == g0.edges@,
{
    assert forall|e: int| 0 <= e < g1.edges@.len() implies finalized_edge(
        (#[trigger] g0.edges@[e]),
        g1.nodes@[g0.edges@[e].from as int],
        g1.edges@[e],
    ) by {
        assert(settled(g1, g0.edges@[e].from as int));
    }
    assert(edges_final(g0, g1));
    if pending_acyclic(g0) {
        assert forall|t: int| #[trigger] pending_node(g0, t) implies g1.nodes@[t].dep_info == Some(
            agg_info(g1.edges@, t),
        ) by {
            assert(g1.nodes@ == g2.nodes@ && g1.edges@ == g2.edges@);
            assert(!pending_node(g2, t));
            assert(!g2.nodes@[t].is_root);
            assert(settled(g2, t));
        }
    }
    assert(finalized_graph(g1)) by {
        assert forall|e: int| 0 <= e < g1.edges@.len() implies (#[trigger] g1.edges@[e]).from
            < g1.nodes@.len() && g1.edges@[e].visited && finalized_edge(
            g1.edges@[e],
            g1.nodes@[g1.edges@[e].from as int],
            g1.edges@[e],
        ) by {
            let e0 = g0.edges@[e];
            let src = g1.nodes@[e0.from as int];
            assert(finalized_edge(e0, src, g1.edges@[e]));
            if !src.is_root {
                lemma_combine_kind_absorb(e0.info.kind, src.dep_info->Some_0.kind);
            }
        }
    }
    if finalized_graph(g0) {
        assert forall|t: int| 0 <= t < g1.nodes@.len() implies #[trigger] g1.nodes@[t]
            == g0.nodes@[t] by {
            assert(settled(g0, t));
        }
        assert(g1.nodes@ =~= g0.nodes@);
        assert forall|e: int| 0 <= e < g1.edges@.len() implies #[trigger] g1.edges@[e]
            == g0.edges@[e] by {
            let e0 = g0.edges@[e];
            let src0 = g0.nodes@[e0.from as int];
            assert(finalized_edge(e0, src0, e0));
            assert(g1.nodes@[e0.from as int] == src0);
            assert(finalized_edge(e0, g1.nodes@[e0.from as int], g1.edges@[e]));
        }
        assert(g1.edges@ =~= g0.edges@);
    }
}


/// Classify every node whose predecessors are all dealt with, in dependency
/// order: the second phase of the pass.
#[verifier::loop_isolation(false)]
#[verifier::rlimit(100)]
fn classify_ready(graph: &mut DepGraph, Ghost(g0): Ghost<DepGraph>)
    requires
        g0.wf(),
        old(graph).wf(),
        old(graph).nodes@.len() == g0.nodes@.len(),
        nodes_mid(g0, *old(graph)),
        edges_mid(g0, *old(graph)),
        classified_exact(g0, *old(graph), *old(graph)),
        forall|t: int| #[trigger] pending_node(g0, t) ==> has_incoming(g0.edges@, t),
    ensures
        final(graph).wf(),
        final(graph).nodes@.len() == g0.nodes@.len(),
        nodes_mid(g0, *final(graph)),
        edges_mid(g0, *final(graph)),
        classified_exact(g0, *final(graph), *final(graph)),
        forall|t: int|
            #[trigger] pending_node(*final(graph), t) ==> exists|e: int|
                0 <= e < final(graph).edges@.len() && (#[trigger] final(graph).edges@[e]).to as int
                    == t && !settled(*final(graph), final(graph).edges@[e].from as int),
{
    let n = graph.nodes.len();
    let mut next = find_ready(graph);
    while next.is_some()
        invariant
            n == graph.nodes@.len(),
            graph.wf(),
            nodes_mid(g0, *graph),
            edges_mid(g0, *graph),
            classified_exact(g0, *graph, *graph),
            next matches Some(i) ==> pending_node(*graph, i as int) && forall|e: int|
                0 <= e < graph.edges@.len() && (#[trigger] graph.edges@[e]).to as int == i as int
                    ==> settled(*graph, graph.edges@[e].from as int),
            next is None ==> forall|t: int|
                #[trigger] pending_node(*graph, t) ==> exists|e: int|
                    0 <= e < graph.edges@.len() && (#[trigger] graph.edges@[e]).to as int == t
                        && !settled(*graph, graph.edges@[e].from as int),
        decreases count_pending(graph.nodes@),
    {
        match next {
            Some(i) => {
                let ghost gprev = *graph;
                proof {
                    assert(pending_node(g0, i as int));
                    assert(has_incoming(g0.edges@, i as int));
                    let e = choose|e: int|
                        0 <= e < g0.edges@.len() && (#[trigger] g0.edges@[e]).to as int == i as int;
                    assert(graph.edges@[e].to as int == i as int);
                    assert(has_incoming(graph.edges@, i as int));
                }
                finalize_node(graph, i);
                proof {
                    lemma_count_pending_update(gprev.nodes@, graph.nodes@, i as int);
                    assert(nodes_mid(g0, *graph));
                    assert forall|e: int| 0 <= e < graph.edges@.len() implies ({
                        let e0 = g0.edges@[e];
                        if settled(*graph, e0.from as int) {
                            finalized_edge(
                                e0,
                                graph.nodes@[e0.from as int],
                                #[trigger] graph.edges@[e],
                            )
                        } else {
                            graph.edges@[e] == e0
                        }
                    }) by {
                        let e0 = g0.edges@[e];
                        let f = e0.from as int;
                        assert(gprev.edges@[e].from == e0.from && gprev.edges@[e].to == e0.to);
                        if f == i as int {
                            assert(gprev.edges@[e] == e0);
                        } else {
                            assert(graph.edges@[e] == gprev.edges@[e]);
                            assert(graph.nodes@[f] == gprev.nodes@[f]);
                        }
                    }
                    assert(edges_mid(g0, *graph));
                    assert(graph.wf());
                    // the newly classified node and every earlier one carry
                    // exactly the aggregate of their (unchanged) incoming edges
                    assert forall|t: int|
                        pending_node(g0, t) && settled(*graph, t) implies (#[trigger] graph.nodes@[t]).dep_info
                        == Some(agg_info(graph.edges@, t)) && forall|e: int|
                        0 <= e < graph.edges@.len() && (#[trigger] graph.edges@[e]).to as int == t
                            ==> settled(*graph, graph.edges@[e].from as int) by {
                        if t == i as int {
                            assert forall|e: int|
                                0 <= e < graph.edges@.len() implies (#[trigger] graph.edges@[e]).to
                                == gprev.edges@[e].to && (gprev.edges@[e].to as int == t
                                ==> graph.edges@[e] == gprev.edges@[e]) by {
                                if gprev.edges@[e].to as int == t {
                                    assert(settled(gprev, gprev.edges@[e].from as int));
                                    assert(gprev.edges@[e].from as int != i as int);
                                }
                            }
                            lemma_agg_same(
                                gprev.edges@,
                                graph.edges@,
                                t,
                                graph.edges@.len() as int,
                            );
                            assert(graph.nodes@[t].dep_info == Some(agg_info(gprev.edges@, t)));
                            assert(agg_info(graph.edges@, t) == agg_info(gprev.edges@, t));
                        } else {
                            assert(settled(gprev, t));
                            assert(graph.nodes@[t] == gprev.nodes@[t]);
                            assert forall|e: int|
                                0 <= e < graph.edges@.len() implies (#[trigger] graph.edges@[e]).to
                                == gprev.edges@[e].to && (gprev.edges@[e].to as int == t
                                ==> graph.edges@[e] == gprev.edges@[e]) by {
                                if gprev.edges@[e].to as int == t {
                                    assert(settled(gprev, gprev.edges@[e].from as int));
                                    assert(gprev.edges@[e].from as int != i as int);
                                }
                            }
                            lemma_agg_same(
                                gprev.edges@,
                                graph.edges@,
                                t,
                                graph.edges@.len() as int,
                            );
                        }
                    }
                    assert(classified_exact(g0, *graph, *graph));
                }
            },
            None => {},
        }
        next = find_ready(graph);
    }
}

/// Classify the nodes the dependency-order phase could not reach — members of
/// dependency cycles — in index order, from the edge values current at that
/// point: the pass's documented, order-dependent approximation.
#[verifier::loop_isolation(false)]
#[verifier::rlimit(100)]
fn classify_leftovers(graph: &mut DepGraph, Ghost(g0): Ghost<DepGraph>)
    requires
        g0.wf(),
        old(graph).wf(),
        old(graph).nodes@.len() == g0.nodes@.len(),
        nodes_mid(g0, *old(graph)),
        edges_mid(g0, *old(graph)),
        classified_exact(g0, *old(graph), *old(graph)),
        forall|t: int| #[trigger] pending_node(g0, t) ==> has_incoming(g0.edges@, t),
    ensures
        final(graph).wf(),
        final(graph).nodes@.len() == g0.nodes@.len(),
        nodes_mid(g0, *final(graph)),
        edges_mid(g0, *final(graph)),
        classified_exact(g0, *old(graph), *final(graph)),
        forall|t: int| 0 <= t < final(graph).nodes@.len() ==> settled(*final(graph), t),
        (forall|t: int| !pending_node(*old(graph), t)) ==> final(graph).nodes@ == old(
            graph,
        ).nodes@ && final(graph).edges@ == old(graph).edges@,
{
    let ghost g2 = *old(graph);
    let n = graph.nodes.len();
    let mut i: usize = 0;
    while i < n
        invariant
            i <= n,
            n == graph.nodes@.len(),
            graph.wf(),
            nodes_mid(g0, *graph),
            edges_mid(g0, *graph),
            classified_exact(g0, g2, *graph),
            forall|t: int|
                0 <= t < n && settled(g2, t) ==> (#[trigger] graph.nodes@[t]).dep_info
                    == g2.nodes@[t].dep_info,
            forall|t: int| 0 <= t < i ==> settled(*graph, t),
            (forall|t: int| !pending_node(g2, t)) ==> graph.nodes@ == g2.nodes@ && graph.edges@
                == g2.edges@,
        decreases n - i,
    {
        if !graph.nodes[i].is_root && graph.nodes[i].dep_info.is_none() {
            let ghost gprev = *graph;
            proof {
                assert(pending_node(g0, i as int));
                assert(has_incoming(g0.edges@, i as int));
                let e = choose|e: int|
                    0 <= e < g0.edges@.len() && (#[trigger] g0.edges@[e]).to as int == i as int;
                assert(graph.edges@[e].to as int == i as int);
                assert(has_incoming(graph.edges@, i as int));
                assert(!settled(g2, i as int)) by {
                    if settled(g2, i as int) {
                        assert(graph.nodes@[i as int].dep_info == g2.nodes@[i as int].dep_info);
                    }
                }
                assert(pending_node(g2, i as int)) by {
                    assert(g2.nodes@[i as int].is_root == g0.nodes@[i as int].is_root);
                }
            }
            finalize_node(graph, i);
            proof {
                assert(nodes_mid(g0, *graph));
                assert forall|e: int| 0 <= e < graph.edges@.len() implies ({
                    let e0 = g0.edges@[e];
                    if settled(*graph, e0.from as int) {
                        finalized_edge(
                            e0,
                            graph.nodes@[e0.from as int],
                            #[trigger] graph.edges@[e],
                        )
                    } else {
                        graph.edges@[e] == e0
                    }
                }) by {
                    let e0 = g0.edges@[e];
                    let f = e0.from as int;
                    assert(gprev.edges@[e].from == e0.from && gprev.edges@[e].to == e0.to);
                    if f == i as int {
                        assert(gprev.edges@[e] == e0);
                    } else {
                        assert(graph.edges@[e] == gprev.edges@[e]);
                        assert(graph.nodes@[f] == gprev.nodes@[f]);
                    }
                }
                assert(edges_mid(g0, *graph));
                assert(graph.wf());
                assert forall|t: int|
                    pending_node(g0, t) && settled(g2, t) implies (#[trigger] graph.nodes@[t]).dep_info
                    == Some(agg_info(graph.edges@, t)) && forall|e: int|
                    0 <= e < graph.edges@.len() && (#[trigger] graph.edges@[e]).to as int == t
                        ==> settled(g2, graph.edges@[e].from as int) by {
                    assert(t != i as int);
                    assert(graph.nodes@[t] == gprev.nodes@[t]);
                    assert forall|e: int|
                        0 <= e < graph.edges@.len() implies (#[trigger] graph.edges@[e]).to
                        == gprev.edges@[e].to && (gprev.edges@[e].to as int == t
                        ==> graph.edges@[e] == gprev.edges@[e]) by {
                        if gprev.edges@[e].to as int == t {
                            assert(settled(g2, gprev.edges@[e].from as int));
                            assert(gprev.edges@[e].from as int != i as int);
                        }
                    }
                    lemma_agg_same(gprev.edges@, graph.edges@, t, graph.edges@.len() as int);
                }
                assert(classified_exact(g0, g2, *graph));
                assert forall|t: int|
                    0 <= t < n && settled(g2, t) implies (#[trigger] graph.nodes@[t]).dep_info
                    == g2.nodes@[t].dep_info by {
                    assert(t != i as int);
                    assert(graph.nodes@[t] == gprev.nodes@[t]);
                }
                assert(settled(*graph, i as int));
                assert forall|t: int| 0 <= t < i + 1 implies settled(*graph, t) by {
                    if t < i {
                        assert(settled(gprev, t));
                        assert(graph.nodes@[t] == gprev.nodes@[t]);
                    }
                }
            }
        } else {
            proof {
                assert(settled(*graph, i as int));
            }
        }
        i += 1;
    }
}

/// The classification-propagation pass. It computes, for every unclassified
/// non-root node, the aggregate of its incoming edges — target-specific only
/// if every incoming edge is (AND-semantics), and the least-restrictive kind
/// among them — processing nodes in dependency order so that each node sees
/// the values its predecessors pushed down, and then projects the node's
/// classification onto its outgoing edges and marks them visited.
///
/// Root nodes never acquire a classification: the pass only marks their
/// outgoing edges visited, leaving the declared information in place.
///
/// Running the pass over an already-finalized graph changes nothing: the
/// graph is handed back untouched (idempotence), as the last two `ensures`
/// clauses state.
///
/// Nodes on a dependency cycle cannot all see finalized predecessors; they
/// are classified last, in index order, from the edge values current at that
/// point — a documented, order-dependent approximation. The exact
/// aggregation clause is therefore conditioned on `pending_acyclic`.
#[verifier::loop_isolation(false)]
#[verifier::rlimit(100)]
pub fn update_dep_info(graph: &mut DepGraph) -> (r: Result<(), GraphError>)
    requires
        old(graph).wf(),
    ensures
        r is Err <==> exists|i: int|
            #[trigger] pending_node(*old(graph), i) && !has_incoming(old(graph).edges@, i),
        r matches Err(e) ==> e == GraphError::UnreachableNonRootNode && final(graph).nodes@ == old(
            graph,
        ).nodes@ && final(graph).edges@ == old(graph).edges@,
        r is Ok ==> ({
            let g0 = *old(graph);
            let g1 = *final(graph);
            &&& nodes_mid(g0, g1)
            &&& forall|t: int| 0 <= t < g1.nodes@.len() ==> settled(g1, t)
            &&& forall|t: int|
                0 <= t < g1.nodes@.len() && g0.nodes@[t].is_root ==> (#[trigger] g1.nodes@[t]).dep_info
                    == g0.nodes@[t].dep_info
            &&& edges_final(g0, g1)
            &&& (pending_acyclic(g0) ==> forall|t: int|
                #[trigger] pending_node(g0, t) ==> g1.nodes@[t].dep_info == Some(
                    agg_info(g1.edges@, t),
                ))
            &&& finalized_graph(g1)
            &&& (finalized_graph(g0) ==> g1.nodes@ == g0.nodes@ && g1.edges@ == g0.edges@)
        }),
{
    let ghost g0 = *old(graph);
    let n = graph.nodes.len();
    // reject a graph that violates the reachability invariant: a non-root,
    // unclassified node with no incoming edge
    let mut i: usize = 0;
    while i < n
        invariant
            i <= n,
            graph.nodes@ == g0.nodes@,
            graph.edges@ == g0.edges@,
            forall|t: int|
                0 <= t < i && #[trigger] pending_node(g0, t) ==> has_incoming(g0.edges@, t),
        decreases n - i,
    {
        if !graph.nodes[i].is_root && graph.nodes[i].dep_info.is_none() {
            if !node_has_incoming(graph, i) {
                proof {
                    assert(pending_node(g0, i as int) && !has_incoming(g0.edges@, i as int));
                }
                return Err(GraphError::UnreachableNonRootNode);
            }
        }
        i += 1;
    }
    proof {
        assert forall|t: int| #[trigger] pending_node(g0, t) implies has_incoming(
            g0.edges@,
            t,
        ) by {
            assert(0 <= t < n);
        }
    }
    // roots and already-classified nodes push their state onto their
    // outgoing edges first
    let mut i: usize = 0;
    while i < n
        invariant
            i <= n,
            graph.nodes@ == g0.nodes@,
            graph.edges@.len() == g0.edges@.len(),
            forall|e: int|
                0 <= e < graph.edges@.len() ==> ({
                    let e0 = g0.edges@[e];
                    &&& (e0.from < i && settled(g0, e0.from as int) ==> finalized_edge(
                        e0,
                        graph.nodes@[e0.from as int],
                        #[trigger] graph.edges@[e],
                    ))
                    &&& (!(e0.from < i && settled(g0, e0.from as int)) ==> graph.edges@[e] == e0)
                }),
        decreases n - i,
    {
        if graph.nodes[i].is_root {
            mark_outgoing_visited(graph, i);
        } else {
            let cls = graph.nodes[i].dep_info;
            match cls {
                Some(info) => project_outgoing(graph, i, info),
                None => {},
            }
        }
        i += 1;
    }
    proof {
        assert(nodes_mid(g0, *graph));
        assert forall|e: int| 0 <= e < graph.edges@.len() implies ({
            let e0 = g0.edges@[e];
            if settled(*graph, e0.from as int) {
                finalized_edge(e0, graph.nodes@[e0.from as int], #[trigger] graph.edges@[e])
            } else {
                graph.edges@[e] == e0
            }
        }) by {
            let e0 = g0.edges@[e];
            assert(e0.from < n);
        }
        assert(edges_mid(g0, *graph));
        assert(graph.wf()) by {
            assert forall|k: int|
                0 <= k < graph.edges@.len() implies (#[trigger] graph.edges@[k]).from
                < graph.nodes@.len() && graph.edges@[k].to < graph.nodes@.len() by {
                let e0 = g0.edges@[k];
                assert(e0.from < n && e0.to < n);
            }
        }
        assert(classified_exact(g0, *graph, *graph)) by {
            assert forall|t: int|
                pending_node(g0, t) && settled(*graph, t) implies (#[trigger] graph.nodes@[t]).dep_info
                == Some(agg_info(graph.edges@, t)) && forall|e: int|
                0 <= e < graph.edges@.len() && (#[trigger] graph.edges@[e]).to as int == t
                    ==> settled(*graph, graph.edges@[e].from as int) by {
                assert(!settled(g0, t));
                assert(graph.nodes@[t] == g0.nodes@[t]);
                assert(false);
            }
        }
    }
    // classify in dependency order while possible
    classify_ready(graph, Ghost(g0));
    let ghost g2 = *graph;
    proof {
        assert(pending_acyclic(g0) ==> forall|t: int| !pending_node(g2, t)) by {
            if pending_acyclic(g0) {
                lemma_no_pending_left(g0, g2);
            }
        }
    }
    // then classify what dependency order could not reach: cycle members
    classify_leftovers(graph, Ghost(g0));
    proof {
        lemma_pass_result(g0, g2, *graph);
        assert(!(exists|i: int|
            #[trigger] pending_node(g0, i) && !has_incoming(g0.edges@, i))) by {
            if exists|i: int| #[trigger] pending_node(g0, i) && !has_incoming(g0.edges@, i) {
                let i = choose|i: int|
                    #[trigger] pending_node(g0, i) && !has_incoming(g0.edges@, i);
                assert(has_incoming(g0.edges@, i));
            }
        }
    }
    Ok(())
}

} // verus!
