use vstd::prelude::*;
use crate::dep_kind::DepKind;
use crate::graph::{DepGraph, Edge};
use crate::package::Package;

verus! {

/// Consecutive entries of `p` are connected by an edge of the arena.
pub open spec fn path_edges(edges: Seq<Edge>, p: Seq<int>) -> bool
    decreases p.len(),
{
    if p.len() <= 1 {
        true
    } else {
        path_edges(edges, p.drop_last()) && exists|e: int|
            0 <= e < edges.len() && (#[trigger] edges[e]).from as int == p[p.len() - 2]
                && edges[e].to as int == p[p.len() - 1]
    }
}

/// `w` can stand strictly inside an alternate path from `a` to `b`: a node
/// other than the endpoints whose classification-derived kind equals `b`'s.
pub open spec fn valid_mid(nodes: Seq<Package>, a: int, b: int, w: int) -> bool {
    0 <= w < nodes.len() && w != a && w != b && nodes[w].spec_dep_kind()
        == nodes[b].spec_dep_kind()
}

/// `p` is an indirect path from `a` to `b` — at least one node strictly
/// between them — running entirely through nodes whose classification-derived
/// kind equals `b`'s own (endpoints included). Its inner nodes avoid both
/// endpoints, so a simple path of length at least two exists exactly when
/// such a `p` does.
pub open spec fn is_alt_path(
    nodes: Seq<Package>,
    edges: Seq<Edge>,
    a: int,
    b: int,
    p: Seq<int>,
) -> bool {
    &&& 0 <= a < nodes.len()
    &&& 0 <= b < nodes.len()
    &&& a != b
    &&& nodes[a].spec_dep_kind() == nodes[b].spec_dep_kind()
    &&& p.len() >= 3
    &&& p[0] == a
    &&& p.last() == b
    &&& path_edges(edges, p)
    &&& forall|j: int| 0 < j < p.len() - 1 ==> valid_mid(nodes, a, b, #[trigger] p[j])
}

/// An indirect same-kind path from `a` to `b` exists.
pub open spec fn alt_path(nodes: Seq<Package>, edges: Seq<Edge>, a: int, b: int) -> bool {
    exists|p: Seq<int>| is_alt_path(nodes, edges, a, b, p)
}

/// How many of the first `n` edges point at node `i`.
pub open spec fn in_degree_upto(edges: Seq<Edge>, i: int, n: int) -> nat
    decreases n,
{
    if n <= 0 {
        0
    } else {
        in_degree_upto(edges, i, n - 1) + if edges[n - 1].to as int == i {
            1nat
        } else {
            0nat
        }
    }
}

/// The in-degree of node `i`.
pub open spec fn in_degree(edges: Seq<Edge>, i: int) -> nat {
    in_degree_upto(edges, i, edges.len() as int)
}

/// Whether the reducer removes the edge at position `e`: its target has
/// another incoming edge, and an indirect path of matching kind makes the
/// direct edge redundant.
pub open spec fn should_remove(nodes: Seq<Package>, edges: Seq<Edge>, e: int) -> bool {
    &&& in_degree(edges, edges[e].to as int) >= 2
    &&& alt_path(nodes, edges, edges[e].from as int, edges[e].to as int)
}

/// The reducer's sequential sweep, one source node at a time, rescanning the
/// shrunken arena after each removal: each test sees the arena as the
/// removals before it left it, so this recurrence is the exact statement of
/// the result.
pub open spec fn dedup_from(nodes: Seq<Package>, edges: Seq<Edge>, a: int, i: int) -> Seq<Edge>
    decreases nodes.len() - a, edges.len() - i,
{
    if a < 0 || i < 0 {
        edges
    } else if a >= nodes.len() {
        edges
    } else if i >= edges.len() {
        dedup_from(nodes, edges, a + 1, 0)
    } else if edges[i].from as int == a && should_remove(nodes, edges, i) {
        dedup_from(nodes, edges.remove(i), a, i)
    } else {
        dedup_from(nodes, edges, a, i + 1)
    }
}

/// How many entries of `s` are set.
pub open spec fn count_true(s: Seq<bool>) -> nat
    decreases s.len(),
{
    if s.len() == 0 {
        0
    } else {
        count_true(s.drop_last()) + if s.last() {
            1nat
        } else {
            0nat
        }
    }
}

/// Setting one unset entry raises the count by one.
proof fn lemma_count_true_update(s: Seq<bool>, i: int)
    requires
        0 <= i < s.len(),
        !s[i],
    ensures
        count_true(s.update(i, true)) == count_true(s) + 1,
    decreases s.len(),
{
    let t = s.update(i, true);
    if i == s.len() - 1 {
        assert(t.drop_last() =~= s.drop_last());
    } else {
        assert(t.drop_last() =~= s.drop_last().update(i, true));
        lemma_count_true_update(s.drop_last(), i);
    }
}

/// No more entries are set than there are entries.
proof fn lemma_count_true_le(s: Seq<bool>)
    ensures
        count_true(s) <= s.len(),
    decreases s.len(),
{
    if s.len() > 0 {
        lemma_count_true_le(s.drop_last());
    }
}

/// Each consecutive pair of a connected chain is joined by an edge.
proof fn lemma_path_edge(edges: Seq<Edge>, p: Seq<int>, j: int)
    requires
        path_edges(edges, p),
        0 <= j < p.len() - 1,
    ensures
        exists|e: int|
            0 <= e < edges.len() && (#[trigger] edges[e]).from as int == p[j] && edges[e].to as int
                == p[j + 1],
    decreases p.len(),
{
    if j < p.len() - 2 {
        assert(p.drop_last()[j] == p[j] && p.drop_last()[j + 1] == p[j + 1]);
        lemma_path_edge(edges, p.drop_last(), j);
    }
}

/// Every inner node of an alternate path is reached by the search: the seed
/// marks `a`'s same-kind neighbours, and each processed mark propagates one
/// step further along the chain.
proof fn lemma_path_visited(
    nodes: Seq<Package>,
    edges: Seq<Edge>,
    a: int,
    b: int,
    visited: Seq<bool>,
    p: Seq<int>,
    j: int,
)
    requires
        visited.len() == nodes.len(),
        is_alt_path(nodes, edges, a, b, p),
        // the seed: every same-kind neighbour of `a` is marked
        forall|e: int|
            0 <= e < edges.len() && (#[trigger] edges[e]).from as int == a && valid_mid(
                nodes,
                a,
                b,
                edges[e].to as int,
            ) ==> visited[edges[e].to as int],
        // every mark has been processed: its same-kind successors are marked
        // and none of its edges reaches `b`
        forall|v: int, e: int|
            0 <= v < visited.len() && visited[v] && 0 <= e < edges.len() && (#[trigger] edges[e]).from
                as int == v ==> #[trigger] visited[v] && edges[e].to as int != b && (valid_mid(
                nodes,
                a,
                b,
                edges[e].to as int,
            ) ==> visited[edges[e].to as int]),
        1 <= j <= p.len() - 2,
    ensures
        visited[p[j]],
    decreases j,
{
    lemma_path_edge(edges, p, j - 1);
    let e = choose|e: int|
        0 <= e < edges.len() && (#[trigger] edges[e]).from as int == p[j - 1] && edges[e].to as int
            == p[j];
    if j == 1 {
        assert(p[0] == a);
        assert(valid_mid(nodes, a, b, p[1]));
    } else {
        lemma_path_visited(nodes, edges, a, b, visited, p, j - 1);
        assert(visited[p[j - 1]]);
        assert(valid_mid(nodes, a, b, p[j]));
    }
}

/// The in-degree of node `i`, by a scan.
fn count_incoming(g: &DepGraph, i: usize) -> (r: usize)
    ensures
        r == in_degree(g.edges@, i as int),
{
    let m = g.edges.len();
    let mut e: usize = 0;
    let mut count: usize = 0;
    while e < m
        invariant
            e <= m,
            m == g.edges@.len(),
            count == in_degree_upto(g.edges@, i as int, e as int),
            count <= e,
        decreases m - e,
    {
        if g.edges[e].to == i {
            count += 1;
        }
        e += 1;
    }
    count
}

/// The search state: every queued node is marked; every marked node is a
/// valid inner node, sits somewhere in the queue, and is reached from `a` by
/// a chain of edges through valid inner nodes.
pub open spec fn search_inv(
    g: DepGraph,
    a: int,
    b: int,
    visited: Seq<bool>,
    queue: Seq<usize>,
) -> bool {
    &&& visited.len() == g.nodes@.len()
    &&& queue.len() <= count_true(visited)
    &&& forall|t: int|
        0 <= t < queue.len() ==> (#[trigger] queue[t]) < g.nodes@.len() && visited[queue[t] as int]
            && valid_mid(g.nodes@, a, b, queue[t] as int)
    &&& forall|v: int|
        0 <= v < visited.len() && #[trigger] visited[v] ==> valid_mid(g.nodes@, a, b, v) && (
        exists|t: int| 0 <= t < queue.len() && queue[t] == v) && (exists|p: Seq<int>|
            #[trigger] path_edges(g.edges@, p) && p.len() >= 2 && p[0] == a && p.last() == v && (
            forall|j: int| 0 < j < p.len() ==> valid_mid(g.nodes@, a, b, #[trigger] p[j])))
}

/// Mark `w` and queue it, keeping the search state: `q` is a chain from `a`
/// to `w` through valid inner nodes.
proof fn lemma_search_push(
    g: DepGraph,
    a: int,
    b: int,
    v1: Seq<bool>,
    q1: Seq<usize>,
    v2: Seq<bool>,
    q2: Seq<usize>,
    w: usize,
    q: Seq<int>,
)
    requires
        search_inv(g, a, b, v1, q1),
        0 <= w < v1.len(),
        !v1[w as int],
        valid_mid(g.nodes@, a, b, w as int),
        v2 == v1.update(w as int, true),
        q2 == q1.push(w),
        path_edges(g.edges@, q),
        q.len() >= 2,
        q[0] == a,
        q.last() == w as int,
        forall|j: int| 0 < j < q.len() ==> valid_mid(g.nodes@, a, b, #[trigger] q[j]),
    ensures
        search_inv(g, a, b, v2, q2),
{
    lemma_count_true_update(v1, w as int);
    assert forall|v: int| 0 <= v < v2.len() && #[trigger] v2[v] implies valid_mid(g.nodes@, a, b, v)
        && (exists|t: int| 0 <= t < q2.len() && q2[t] == v) && (exists|p: Seq<int>|
        #[trigger] path_edges(g.edges@, p) && p.len() >= 2 && p[0] == a && p.last() == v && (forall|
            j: int,
        | 0 < j < p.len() ==> valid_mid(g.nodes@, a, b, #[trigger] p[j]))) by {
        if v == w as int {
            assert(q2[q2.len() - 1] == w);
            assert(path_edges(g.edges@, q) && q.len() >= 2 && q[0] == a && q.last() == v);
        } else {
            assert(v1[v]);
            let t = choose|t: int| 0 <= t < q1.len() && q1[t] == v;
            assert(q2[t] == v);
        }
    }
}

/// Decide whether an indirect same-kind path from `a` to `b` exists:
/// breadth-first search from `a`'s same-kind neighbours through nodes of
/// `b`'s kind, avoiding both endpoints, until an edge into `b` appears.
#[verifier::loop_isolation(false)]
#[verifier::rlimit(100)]
fn has_alt_path(g: &DepGraph, a: usize, b: usize) -> (r: bool)
    requires
        g.wf(),
        a < g.nodes@.len(),
        b < g.nodes@.len(),
    ensures
        r == alt_path(g.nodes@, g.edges@, a as int, b as int),
{
    let nodes_len = g.nodes.len();
    let edges_len = g.edges.len();
    if a == b {
        proof {
            assert forall|p: Seq<int>| !is_alt_path(g.nodes@, g.edges@, a as int, b as int, p) by {}
        }
        return false;
    }
    let kb = g.nodes[b].dep_kind();
    let ka = g.nodes[a].dep_kind();
    if !(ka == kb) {
        proof {
            assert forall|p: Seq<int>| !is_alt_path(g.nodes@, g.edges@, a as int, b as int, p) by {}
        }
        return false;
    }
    let mut visited: Vec<bool> = Vec::new();
    while visited.len() < nodes_len
        invariant
            visited@.len() <= nodes_len,
            forall|t: int| 0 <= t < visited@.len() ==> !(#[trigger] visited@[t]),
        decreases nodes_len - visited@.len(),
    {
        visited.push(false);
    }
    let mut queue: Vec<usize> = Vec::new();
    proof {
        assert forall|v: int| 0 <= v < visited@.len() implies !(#[trigger] visited@[v]) by {}
        assert(count_true(visited@) >= 0);
        assert(search_inv(*g, a as int, b as int, visited@, queue@));
    }
    // seed: the same-kind neighbours of `a`
    let mut e: usize = 0;
    while e < edges_len
        invariant
            e <= edges_len,
            search_inv(*g, a as int, b as int, visited@, queue@),
            forall|k: int|
                0 <= k < e && (#[trigger] g.edges@[k]).from as int == a as int && valid_mid(
                    g.nodes@,
                    a as int,
                    b as int,
                    g.edges@[k].to as int,
                ) ==> visited@[g.edges@[k].to as int],
        decreases edges_len - e,
    {
        if g.edges[e].from == a {
            let w = g.edges[e].to;
            if w != a && w != b && !visited[w] {
                let kw = g.nodes[w].dep_kind();
                if kw == kb {
                    let ghost v1 = visited@;
                    let ghost q1 = queue@;
                    visited.set(w, true);
                    queue.push(w);
                    proof {
                        let q = seq![a as int, w as int];
                        assert(q.len() == 2 && q[0] == a as int && q[1] == w as int);
                        assert(q.drop_last().len() == 1);
                        assert(path_edges(g.edges@, q.drop_last()));
                        assert(g.edges@[e as int].from as int == a as int && g.edges@[e as int].to
                            as int == w as int);
                        assert(path_edges(g.edges@, q));
                        lemma_search_push(
                            *g,
                            a as int,
                            b as int,
                            v1,
                            q1,
                            visited@,
                            queue@,
                            w,
                            q,
                        );
                    }
                }
            }
        }
        e += 1;
    }
    // search: process each marked node once
    let mut qhead: usize = 0;
    while qhead < queue.len()
        invariant
            qhead <= queue@.len(),
            search_inv(*g, a as int, b as int, visited@, queue@),
            forall|k: int|
                0 <= k < edges_len && (#[trigger] g.edges@[k]).from as int == a as int && valid_mid(
                    g.nodes@,
                    a as int,
                    b as int,
                    g.edges@[k].to as int,
                ) ==> visited@[g.edges@[k].to as int],
            forall|t: int, k: int|
                #![trigger queue@[t], g.edges@[k]]
                0 <= t < qhead && 0 <= k < edges_len && g.edges@[k].from as int == queue@[t] as int
                    ==> g.edges@[k].to as int != b as int && (valid_mid(
                    g.nodes@,
                    a as int,
                    b as int,
                    g.edges@[k].to as int,
                ) ==> visited@[g.edges@[k].to as int]),
        decreases nodes_len - qhead,
    {
        proof {
            lemma_count_true_le(visited@);
        }
        let v = queue[qhead];
        let ghost qh0 = qhead as int;
        let mut e: usize = 0;
        while e < edges_len
            invariant
                e <= edges_len,
                qhead == qh0,
                0 <= qh0 < queue@.len(),
                v == queue@[qh0],
                search_inv(*g, a as int, b as int, visited@, queue@),
                forall|k: int|
                    0 <= k < edges_len && (#[trigger] g.edges@[k]).from as int == a as int
                        && valid_mid(
                        g.nodes@,
                        a as int,
                        b as int,
                        g.edges@[k].to as int,
                    ) ==> visited@[g.edges@[k].to as int],
                forall|t: int, k: int|
                    #![trigger queue@[t], g.edges@[k]]
                    0 <= t < qh0 && 0 <= k < edges_len && g.edges@[k].from as int == queue@[t] as int
                        ==> g.edges@[k].to as int != b as int && (valid_mid(
                        g.nodes@,
                        a as int,
                        b as int,
                        g.edges@[k].to as int,
                    ) ==> visited@[g.edges@[k].to as int]),
                forall|k: int|
                    0 <= k < e && (#[trigger] g.edges@[k]).from as int == v as int
                        ==> g.edges@[k].to as int != b as int && (valid_mid(
                        g.nodes@,
                        a as int,
                        b as int,
                        g.edges@[k].to as int,
                    ) ==> visited@[g.edges@[k].to as int]),
            decreases edges_len - e,
        {
            if g.edges[e].from == v {
                let w = g.edges[e].to;
                if w == b {
                    proof {
                        // the chain to `v` extends through this edge into a
                        // full alternate path
                        assert(visited@[v as int]);
                        let p = choose|p: Seq<int>|
                            #[trigger] path_edges(g.edges@, p) && p.len() >= 2 && p[0] == a as int
                                && p.last() == v as int && (forall|j: int|
                                0 < j < p.len() ==> valid_mid(
                                    g.nodes@,
                                    a as int,
                                    b as int,
                                    #[trigger] p[j],
                                ));
                        let q = p.push(b as int);
                        assert(q.drop_last() =~= p);
                        assert(g.edges@[e as int].from as int == q[q.len() - 2] && g.edges@[e as int].to
                            as int == q[q.len() - 1]);
                        assert(path_edges(g.edges@, q));
                        assert forall|j: int| 0 < j < q.len() - 1 implies valid_mid(
                            g.nodes@,
                            a as int,
                            b as int,
                            #[trigger] q[j],
                        ) by {
                            if j == q.len() - 2 {
                                assert(q[j] == v as int);
                            } else {
                                assert(q[j] == p[j]);
                            }
                        }
                        assert(is_alt_path(g.nodes@, g.edges@, a as int, b as int, q));
                    }
                    return true;
                }
                if w != a && !visited[w] {
                    let kw = g.nodes[w].dep_kind();
                    if kw == kb {
                        let ghost v1 = visited@;
                        let ghost q1 = queue@;
                        visited.set(w, true);
                        queue.push(w);
                        proof {
                            assert(v1[v as int]);
                            let p = choose|p: Seq<int>|
                                #[trigger] path_edges(g.edges@, p) && p.len() >= 2 && p[0]
                                    == a as int && p.last() == v as int && (forall|j: int|
                                    0 < j < p.len() ==> valid_mid(
                                        g.nodes@,
                                        a as int,
                                        b as int,
                                        #[trigger] p[j],
                                    ));
                            let q = p.push(w as int);
                            assert(q.drop_last() =~= p);
                            assert(g.edges@[e as int].from as int == q[q.len() - 2]
                                && g.edges@[e as int].to as int == q[q.len() - 1]);
                            assert(path_edges(g.edges@, q));
                            assert forall|j: int| 0 < j < q.len() implies valid_mid(
                                g.nodes@,
                                a as int,
                                b as int,
                                #[trigger] q[j],
                            ) by {
                                if j < q.len() - 1 {
                                    assert(q[j] == p[j]);
                                } else {
                                    assert(q[j] == w as int);
                                }
                            }
                            lemma_search_push(
                                *g,
                                a as int,
                                b as int,
                                v1,
                                q1,
                                visited@,
                                queue@,
                                w,
                                q,
                            );
                        }
                    }
                }
            }
            e += 1;
        }
        qhead += 1;
    }
    proof {
        // the search is exhausted without touching `b`: were an alternate
        // path to exist, every inner node of it would be marked, and its last
        // inner node would have a processed edge into `b`
        if alt_path(g.nodes@, g.edges@, a as int, b as int) {
            let p = choose|p: Seq<int>| is_alt_path(g.nodes@, g.edges@, a as int, b as int, p);
            assert forall|v: int, k: int|
                0 <= v < visited@.len() && visited@[v] && 0 <= k < g.edges@.len() && (#[trigger] g
                    .edges@[k]).from as int == v implies #[trigger] visited@[v] && g.edges@[k].to
                as int != b as int && (valid_mid(g.nodes@, a as int, b as int, g.edges@[k].to as int)
                ==> visited@[g.edges@[k].to as int]) by {
                let t = choose|t: int| 0 <= t < queue@.len() && queue@[t] == v;
                assert(0 <= t < qhead);
                assert(queue@[t] as int == v);
            }
            lemma_path_visited(
                g.nodes@,
                g.edges@,
                a as int,
                b as int,
                visited@,
                p,
                p.len() - 2,
            );
            lemma_path_edge(g.edges@, p, p.len() - 2);
            let k = choose|k: int|
                0 <= k < g.edges@.len() && (#[trigger] g.edges@[k]).from as int == p[p.len() - 2]
                    && g.edges@[k].to as int == p[p.len() - 1];
            assert(false);
        }
    }
    false
}

/// The transitive reducer: remove every direct edge whose target has another
/// incoming edge and is also reached from the edge's source by an indirect
/// path running entirely through nodes of the target's own
/// classification-derived kind. Each source node's outgoing edges are swept
/// in arena order and each test sees the arena as earlier removals left it;
/// `dedup_from` is the exact statement of that sweep. Conservative: an edge
/// goes only when a whole alternate path matches, and a self-loop is never
/// removed.
#[verifier::loop_isolation(false)]
#[verifier::rlimit(100)]
pub fn dedup_transitive_deps(graph: &mut DepGraph)
    requires
        old(graph).wf(),
    ensures
        final(graph).nodes@ == old(graph).nodes@,
        final(graph).edges@ == dedup_from(old(graph).nodes@, old(graph).edges@, 0, 0),
        final(graph).wf(),
{
    let n = graph.nodes.len();
    let mut a: usize = 0;
    while a < n
        invariant
            a <= n,
            n == graph.nodes@.len(),
            graph.nodes@ == old(graph).nodes@,
            graph.wf(),
            dedup_from(old(graph).nodes@, old(graph).edges@, 0, 0) == dedup_from(
                graph.nodes@,
                graph.edges@,
                a as int,
                0,
            ),
        decreases n - a,
    {
        let mut i: usize = 0;
        while i < graph.edges.len()
            invariant
                a < n,
                n == graph.nodes@.len(),
                graph.nodes@ == old(graph).nodes@,
                graph.wf(),
                i <= graph.edges@.len(),
                dedup_from(old(graph).nodes@, old(graph).edges@, 0, 0) == dedup_from(
                    graph.nodes@,
                    graph.edges@,
                    a as int,
                    i as int,
                ),
            decreases graph.edges@.len() - i,
        {
            let mut remove_it = false;
            if graph.edges[i].from == a {
                let b = graph.edges[i].to;
                let deg = count_incoming(graph, b);
                if deg >= 2 {
                    remove_it = has_alt_path(graph, a, b);
                }
                proof {
                    if deg < 2 {
                        assert(!should_remove(graph.nodes@, graph.edges@, i as int));
                    }
                }
            }
            if remove_it {
                let ghost before = graph.edges@;
                let _ = graph.edges.remove(i);
                proof {
                    assert(should_remove(graph.nodes@, before, i as int));
                    assert(dedup_from(graph.nodes@, before, a as int, i as int) == dedup_from(
                        graph.nodes@,
                        graph.edges@,
                        a as int,
                        i as int,
                    ));
                }
            } else {
                proof {
                    if i < graph.edges@.len() && graph.edges@[i as int].from as int == a as int {
                        assert(!should_remove(graph.nodes@, graph.edges@, i as int));
                    }
                }
                i += 1;
            }
        }
        proof {
            assert(dedup_from(graph.nodes@, graph.edges@, a as int, graph.edges@.len() as int)
                == dedup_from(graph.nodes@, graph.edges@, a as int + 1, 0));
        }
        a += 1;
    }
    proof {
        assert(dedup_from(graph.nodes@, graph.edges@, n as int, 0) == graph.edges@);
    }
}

} // verus!
