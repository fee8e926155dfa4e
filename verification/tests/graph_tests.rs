use depgraph::{
    Config, DepGraph, DepKind, DepKindInfo, Edge, GraphError, Metadata, Package, PackageRecord,
    Resolve, ResolveDep, ResolveNode, dedup_transitive_deps, get_dep_graph, skip_dep,
    update_dep_info,
};

fn rec(id: u64, name: &str) -> PackageRecord {
    PackageRecord { id, name: String::from(name), version: String::from("1.0.0") }
}

fn dk(kind: DepKind, is_target: bool) -> DepKindInfo {
    DepKindInfo { kind, is_target }
}

fn dep(pkg: u64, kinds: Vec<DepKindInfo>) -> ResolveDep {
    ResolveDep { pkg, dep_kinds: kinds }
}

fn entry(id: u64, deps: Vec<ResolveDep>) -> ResolveNode {
    ResolveNode { id, deps }
}

fn all_config() -> Config {
    Config { normal_deps: true, build_deps: true, dev_deps: true, target_deps: true }
}

fn meta(members: Vec<u64>, packages: Vec<PackageRecord>, nodes: Vec<ResolveNode>) -> Metadata {
    Metadata { workspace_members: members, packages, resolve: Some(Resolve { nodes }) }
}

fn built(members: Vec<u64>, packages: Vec<PackageRecord>, nodes: Vec<ResolveNode>) -> DepGraph {
    get_dep_graph(meta(members, packages, nodes), &all_config()).unwrap()
}

fn node_by_id(g: &DepGraph, id: u64) -> &Package {
    g.nodes.iter().find(|n| n.id == id).unwrap()
}

fn has_edge(g: &DepGraph, from: u64, to: u64) -> bool {
    g.edges.iter().any(|e| g.nodes[e.from].id == from && g.nodes[e.to].id == to)
}

#[test]
fn single_normal_dependency_classified_normal() {
    let mut g = built(
        vec![1],
        vec![rec(1, "root"), rec(2, "dep")],
        vec![entry(1, vec![dep(2, vec![dk(DepKind::Normal, false)])]), entry(2, vec![])],
    );
    update_dep_info(&mut g).unwrap();
    let d = node_by_id(&g, 2);
    let info = d.dep_info.unwrap();
    assert_eq!(info.kind, DepKind::Normal);
    assert!(!info.is_target_dep);
}

#[test]
fn target_specificity_uses_and_semantics() {
    // two parallel edges from the root: one target-specific, one not
    let mut g = built(
        vec![1],
        vec![rec(1, "root"), rec(2, "dep")],
        vec![
            entry(1, vec![dep(2, vec![dk(DepKind::Normal, true), dk(DepKind::Normal, false)])]),
            entry(2, vec![]),
        ],
    );
    update_dep_info(&mut g).unwrap();
    assert!(!node_by_id(&g, 2).dep_info.unwrap().is_target_dep);
}

#[test]
fn all_target_specific_paths_keep_target_flag() {
    let mut g = built(
        vec![1],
        vec![rec(1, "root"), rec(2, "dep")],
        vec![entry(1, vec![dep(2, vec![dk(DepKind::Normal, true)])]), entry(2, vec![])],
    );
    update_dep_info(&mut g).unwrap();
    assert!(node_by_id(&g, 2).dep_info.unwrap().is_target_dep);
}

#[test]
fn least_restrictive_kind_wins() {
    // one build-time edge and one normal edge: Normal wins
    let mut g = built(
        vec![1],
        vec![rec(1, "root"), rec(2, "dep")],
        vec![
            entry(1, vec![dep(2, vec![dk(DepKind::BuildTime, false), dk(DepKind::Normal, false)])]),
            entry(2, vec![]),
        ],
    );
    update_dep_info(&mut g).unwrap();
    assert_eq!(node_by_id(&g, 2).dep_info.unwrap().kind, DepKind::Normal);
}

#[test]
fn build_time_dominates_development() {
    let mut g = built(
        vec![1],
        vec![rec(1, "root"), rec(2, "dep")],
        vec![
            entry(
                1,
                vec![dep(2, vec![dk(DepKind::Development, false), dk(DepKind::BuildTime, false)])],
            ),
            entry(2, vec![]),
        ],
    );
    update_dep_info(&mut g).unwrap();
    assert_eq!(node_by_id(&g, 2).dep_info.unwrap().kind, DepKind::BuildTime);
}

fn diamond(direct_kind: DepKind, side_kind: DepKind) -> DepGraph {
    // R(1) -> B(2), R -> C(3), B -> D(4), C -> D, R -> D
    built(
        vec![1],
        vec![rec(1, "r"), rec(2, "b"), rec(3, "c"), rec(4, "d")],
        vec![
            entry(
                1,
                vec![
                    dep(2, vec![dk(side_kind, false)]),
                    dep(3, vec![dk(side_kind, false)]),
                    dep(4, vec![dk(direct_kind, false)]),
                ],
            ),
            entry(2, vec![dep(4, vec![dk(side_kind, false)])]),
            entry(3, vec![dep(4, vec![dk(side_kind, false)])]),
            entry(4, vec![]),
        ],
    )
}

#[test]
fn diamond_prunes_redundant_direct_edge() {
    let mut g = diamond(DepKind::Normal, DepKind::Normal);
    update_dep_info(&mut g).unwrap();
    dedup_transitive_deps(&mut g);
    assert!(!has_edge(&g, 1, 4));
    assert!(has_edge(&g, 2, 4));
    assert!(has_edge(&g, 3, 4));
    assert!(has_edge(&g, 1, 2));
    assert!(has_edge(&g, 1, 3));
    assert_eq!(g.edges.len(), 4);
}

#[test]
fn diamond_keeps_direct_edge_of_other_kind() {
    // the indirect paths are build-time only; the direct edge is what makes
    // D a normal dependency, so it stays
    let mut g = diamond(DepKind::Normal, DepKind::BuildTime);
    update_dep_info(&mut g).unwrap();
    assert_eq!(node_by_id(&g, 4).dep_info.unwrap().kind, DepKind::Normal);
    dedup_transitive_deps(&mut g);
    assert!(has_edge(&g, 1, 4));
    assert_eq!(g.edges.len(), 5);
}

#[test]
fn propagation_is_idempotent() {
    let mut g = diamond(DepKind::Normal, DepKind::Normal);
    update_dep_info(&mut g).unwrap();
    let nodes_once: Vec<(u64, bool, Option<depgraph::DepInfo>)> =
        g.nodes.iter().map(|n| (n.id, n.is_root, n.dep_info)).collect();
    let edges_once: Vec<Edge> = g.edges.clone();
    update_dep_info(&mut g).unwrap();
    let nodes_twice: Vec<(u64, bool, Option<depgraph::DepInfo>)> =
        g.nodes.iter().map(|n| (n.id, n.is_root, n.dep_info)).collect();
    assert_eq!(nodes_once, nodes_twice);
    assert_eq!(edges_once, g.edges);
    assert!(g.edges.iter().all(|e| e.visited));
}

#[test]
fn roots_never_acquire_a_classification() {
    // the dependency points back at the root: the root still ends up
    // unclassified
    let mut g = built(
        vec![1],
        vec![rec(1, "root"), rec(2, "dep")],
        vec![
            entry(1, vec![dep(2, vec![dk(DepKind::Normal, true)])]),
            entry(2, vec![dep(1, vec![dk(DepKind::Normal, true)])]),
        ],
    );
    update_dep_info(&mut g).unwrap();
    assert!(node_by_id(&g, 1).dep_info.is_none());
    assert!(node_by_id(&g, 1).is_root);
    assert!(node_by_id(&g, 2).dep_info.is_some());
    assert!(g.edges.iter().all(|e| e.visited));
}

#[test]
fn stale_provider_is_reported() {
    let m = Metadata { workspace_members: vec![1], packages: vec![rec(1, "r")], resolve: None };
    assert!(matches!(get_dep_graph(m, &all_config()), Err(GraphError::StaleMetadataProvider)));
}

#[test]
fn missing_record_is_reported() {
    // the dependency 2 has no package record
    let m = meta(
        vec![1],
        vec![rec(1, "r")],
        vec![entry(1, vec![dep(2, vec![dk(DepKind::Normal, false)])]), entry(2, vec![])],
    );
    assert!(matches!(get_dep_graph(m, &all_config()), Err(GraphError::MissingPackageRecord)));
}

#[test]
fn missing_resolve_entry_is_reported() {
    // the dependency 2 has a record but no resolve entry
    let m = meta(
        vec![1],
        vec![rec(1, "r"), rec(2, "d")],
        vec![entry(1, vec![dep(2, vec![dk(DepKind::Normal, false)])])],
    );
    assert!(matches!(get_dep_graph(m, &all_config()), Err(GraphError::MissingResolveEntry)));
}

#[test]
fn unreachable_non_root_node_is_reported() {
    let mut g = DepGraph {
        nodes: vec![Package {
            id: 7,
            name: String::from("stray"),
            version: String::from("0.1.0"),
            is_root: false,
            dep_info: None,
        }],
        edges: vec![],
    };
    assert!(matches!(update_dep_info(&mut g), Err(GraphError::UnreachableNonRootNode)));
}

#[test]
fn dev_dependencies_can_be_filtered_out() {
    let config = Config { normal_deps: true, build_deps: true, dev_deps: false, target_deps: true };
    let g = get_dep_graph(
        meta(
            vec![1],
            vec![rec(1, "r"), rec(2, "dev_only"), rec(3, "normal")],
            vec![
                entry(
                    1,
                    vec![
                        dep(2, vec![dk(DepKind::Development, false)]),
                        dep(3, vec![dk(DepKind::Normal, false)]),
                    ],
                ),
                entry(2, vec![]),
                entry(3, vec![]),
            ],
        ),
        &config,
    )
    .unwrap();
    assert_eq!(g.nodes.len(), 2);
    assert!(g.nodes.iter().all(|n| n.id != 2));
    assert_eq!(g.edges.len(), 1);
}

#[test]
fn mixed_declarations_keep_only_admitted_edges() {
    // a dependency declared both normally and as a dev-dependency keeps only
    // the normal edge when dev-dependencies are excluded
    let config = Config { normal_deps: true, build_deps: true, dev_deps: false, target_deps: true };
    let g = get_dep_graph(
        meta(
            vec![1],
            vec![rec(1, "r"), rec(2, "d")],
            vec![
                entry(
                    1,
                    vec![dep(
                        2,
                        vec![dk(DepKind::Normal, false), dk(DepKind::Development, false)],
                    )],
                ),
                entry(2, vec![]),
            ],
        ),
        &config,
    )
    .unwrap();
    assert_eq!(g.edges.len(), 1);
    assert_eq!(g.edges[0].info.kind, DepKind::Normal);
    assert!(!g.edges[0].visited);
}

#[test]
fn skip_dep_follows_the_configuration() {
    let all = all_config();
    assert!(!skip_dep(&all, &dk(DepKind::Normal, false)));
    assert!(!skip_dep(&all, &dk(DepKind::Development, true)));
    let no_target = Config { normal_deps: true, build_deps: true, dev_deps: true, target_deps: false };
    assert!(skip_dep(&no_target, &dk(DepKind::Normal, true)));
    assert!(!skip_dep(&no_target, &dk(DepKind::Normal, false)));
    let no_build = Config { normal_deps: true, build_deps: false, dev_deps: true, target_deps: true };
    assert!(skip_dep(&no_build, &dk(DepKind::BuildTime, false)));
    assert!(!skip_dep(&no_build, &dk(DepKind::Development, false)));
    let no_normal = Config { normal_deps: false, build_deps: true, dev_deps: true, target_deps: true };
    assert!(skip_dep(&no_normal, &dk(DepKind::Normal, false)));
}

#[test]
fn deep_chain_combines_kinds_least_restrictively() {
    // R -> A (build-time) -> B (normal edge): the A -> B edge combines its
    // own declared kind with A's classification by the least-restrictive
    // rule, so B resolves to Normal while A stays BuildTime
    let mut g = built(
        vec![1],
        vec![rec(1, "r"), rec(2, "a"), rec(3, "b")],
        vec![
            entry(1, vec![dep(2, vec![dk(DepKind::BuildTime, false)])]),
            entry(2, vec![dep(3, vec![dk(DepKind::Normal, false)])]),
            entry(3, vec![]),
        ],
    );
    update_dep_info(&mut g).unwrap();
    assert_eq!(node_by_id(&g, 2).dep_info.unwrap().kind, DepKind::BuildTime);
    assert_eq!(node_by_id(&g, 3).dep_info.unwrap().kind, DepKind::Normal);
}

#[test]
fn deep_chain_inherits_target_restriction() {
    // R -> A (target-specific) -> B (unconditional edge): the edge into B
    // inherits A's target restriction, so B is target-specific too
    let mut g = built(
        vec![1],
        vec![rec(1, "r"), rec(2, "a"), rec(3, "b")],
        vec![
            entry(1, vec![dep(2, vec![dk(DepKind::Normal, true)])]),
            entry(2, vec![dep(3, vec![dk(DepKind::Normal, false)])]),
            entry(3, vec![]),
        ],
    );
    update_dep_info(&mut g).unwrap();
    assert!(node_by_id(&g, 2).dep_info.unwrap().is_target_dep);
    assert!(node_by_id(&g, 3).dep_info.unwrap().is_target_dep);
}

#[test]
fn default_config_includes_everything() {
    let c = Config::default();
    assert!(c.normal_deps && c.build_deps && c.dev_deps && c.target_deps);
}
