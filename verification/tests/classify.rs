use reflexion::graph::{Edge, Node, ReflexionGraph};
use reflexion::state::EdgeState;
use reflexion::types::{EdgeKind, NodeId, SubgraphKind};

fn mk_node(name: &str, subgraph: SubgraphKind, parent: Option<NodeId>) -> Node {
    Node::new(name, subgraph, parent)
}

fn mk_edge(from: u32, to: u32, subgraph: SubgraphKind, kind: EdgeKind) -> Edge {
    Edge {
        id: 0, // overwritten by add_edge
        from,
        to,
        kind,
        subgraph,
        state: EdgeState::Undefined,
        counter: 0,
    }
}

fn live_edges(g: &ReflexionGraph) -> Vec<Edge> {
    (0..g.next_edge_id()).filter_map(|id| g.edge(id)).collect()
}

#[test]
fn run_from_scratch_marks_convergent_allowed_and_no_divergence() {
    let mut g = ReflexionGraph::new();

    // architecture nodes
    let ui = g
        .add_node(Node::new("UI", SubgraphKind::Architecture, None))
        .unwrap();
    let service = g
        .add_node(Node::new("Service", SubgraphKind::Architecture, None))
        .unwrap();

    // implementation nodes
    let login_page = g
        .add_node(Node::new("LoginPage", SubgraphKind::Implementation, None))
        .unwrap();
    let user_service = g
        .add_node(Node::new("UserService", SubgraphKind::Implementation, None))
        .unwrap();

    // arch edge UI -> Service (specified)
    let arch_eid = g
        .add_edge(mk_edge(ui, service, SubgraphKind::Architecture, EdgeKind::calls()))
        .unwrap();

    // impl edge LoginPage -> UserService
    let impl_eid = g
        .add_edge(mk_edge(
            login_page,
            user_service,
            SubgraphKind::Implementation,
            EdgeKind::calls(),
        ))
        .unwrap();

    // mapping impl -> arch
    g.set_mapping(login_page, ui).unwrap();
    g.set_mapping(user_service, service).unwrap();

    // act
    g.run_from_scratch().unwrap();

    // arch edge convergent + counter incremented
    let arch_edge = g.edge(arch_eid).unwrap();
    assert!(matches!(arch_edge.state, EdgeState::Convergent));
    assert_eq!(arch_edge.counter, 1);

    // impl edge allowed (because it lifted onto specified arch edge)
    let impl_edge = g.edge(impl_eid).unwrap();
    assert!(matches!(impl_edge.state, EdgeState::Allowed));

    // no divergent edges anywhere
    let has_divergent = live_edges(&g)
        .iter()
        .any(|e| matches!(e.state, EdgeState::Divergent));
    assert!(!has_divergent);

    // no Absent edges in this tiny setup (the only arch edge is covered)
    let has_absent = live_edges(&g)
        .iter()
        .any(|e| matches!(e.state, EdgeState::Absent));
    assert!(!has_absent);

    assert_eq!(g.count_violations(), 0);
}

/// Architecture has UI -> Service specified, but the implementation has no
/// corresponding edge: the architecture edge becomes Absent.
#[test]
fn mismatch_missing_impl_edge_marks_arch_absent() {
    let mut g = ReflexionGraph::new();

    let ui = g.add_node(mk_node("UI", SubgraphKind::Architecture, None)).unwrap();
    let service = g
        .add_node(mk_node("Service", SubgraphKind::Architecture, None))
        .unwrap();

    let e_arch = g
        .add_edge(mk_edge(ui, service, SubgraphKind::Architecture, EdgeKind::depends_on()))
        .unwrap();

    // no impl edges at all
    let _ = g.run_from_scratch();

    let arch_e = g.edge(e_arch).unwrap();
    assert!(matches!(arch_e.state, EdgeState::Absent));
    assert_eq!(arch_e.counter, 0);
}

/// Architecture specifies only UI -> Service. The implementation produces
/// UI -> DB (mapped), which is not specified: the implementation edge
/// becomes Divergent.
#[test]
fn mismatch_divergent_impl_edge_is_marked_divergent() {
    let mut g = ReflexionGraph::new();

    // arch nodes
    let ui = g.add_node(mk_node("UI", SubgraphKind::Architecture, None)).unwrap();
    let service = g
        .add_node(mk_node("Service", SubgraphKind::Architecture, None))
        .unwrap();
    let db = g.add_node(mk_node("DB", SubgraphKind::Architecture, None)).unwrap();

    // only specified edge: UI -> Service
    let _e_arch = g
        .add_edge(mk_edge(ui, service, SubgraphKind::Architecture, EdgeKind::depends_on()))
        .unwrap();

    // impl nodes
    let login = g
        .add_node(mk_node("LoginPage", SubgraphKind::Implementation, None))
        .unwrap();
    let db_impl = g
        .add_node(mk_node("DBClient", SubgraphKind::Implementation, None))
        .unwrap();

    // mapping: LoginPage -> UI, DBClient -> DB
    let _ = g.set_mapping_overwrite(login, ui);
    let _ = g.set_mapping_overwrite(db_impl, db);

    // impl edge: LoginPage -> DBClient (mapped to UI -> DB), which is NOT specified
    let e_impl = g
        .add_edge(mk_edge(
            login,
            db_impl,
            SubgraphKind::Implementation,
            EdgeKind::depends_on(),
        ))
        .unwrap();

    let _ = g.run_from_scratch();

    let impl_e = g.edge(e_impl).unwrap();
    assert!(matches!(impl_e.state, EdgeState::Divergent));
}

/// The endpoints of the implementation edge have no mapping: the edge
/// becomes Unmapped, and propagation does nothing.
#[test]
fn mismatch_unmapped_impl_edge_marks_unmapped() {
    let mut g = ReflexionGraph::new();

    // Impl nodes (no mappings)
    let a = g
        .add_node(mk_node("A_Impl", SubgraphKind::Implementation, None))
        .unwrap();
    let b = g
        .add_node(mk_node("B_Impl", SubgraphKind::Implementation, None))
        .unwrap();

    let e_impl = g
        .add_edge(mk_edge(
            a,
            b,
            SubgraphKind::Implementation,
            EdgeKind::depends_on(),
        ))
        .unwrap();

    let _ = g.run_from_scratch();

    let impl_e = g.edge(e_impl).unwrap();
    assert!(matches!(impl_e.state, EdgeState::Unmapped));
}
