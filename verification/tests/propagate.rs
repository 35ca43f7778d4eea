use reflexion::graph::{Edge, GraphError, Node, ReflexionGraph};
use reflexion::state::EdgeState;
use reflexion::types::{EdgeKind, SubgraphKind};

fn mk_edge(from: u32, to: u32, subgraph: SubgraphKind, kind: EdgeKind) -> Edge {
    Edge {
        id: 0, // overwritten by add_edge
        from,
        to,
        kind,
        subgraph,
        state: EdgeState::Undefined,
        counter: 0,
    }
}

fn live_edges(g: &ReflexionGraph) -> Vec<Edge> {
    (0..g.next_edge_id()).filter_map(|id| g.edge(id)).collect()
}

#[test]
fn propagate_creates_propagated_edge_and_registers_table_and_counter() {
    let mut g = ReflexionGraph::new();

    // Architecture nodes
    let ui = g.add_node(Node::new("UI", SubgraphKind::Architecture, None)).unwrap();
    let service = g
        .add_node(Node::new("Service", SubgraphKind::Architecture, None))
        .unwrap();

    // Implementation nodes
    let login_page = g
        .add_node(Node::new("LoginPage", SubgraphKind::Implementation, None))
        .unwrap();
    let user_service = g
        .add_node(Node::new("UserService", SubgraphKind::Implementation, None))
        .unwrap();

    // Mapping: impl -> arch
    g.set_mapping(login_page, ui).unwrap();
    g.set_mapping(user_service, service).unwrap();

    // Implementation edge: LoginPage -> UserService
    let impl_edge_id = g
        .add_edge(mk_edge(
            login_page,
            user_service,
            SubgraphKind::Implementation,
            EdgeKind::calls(),
        ))
        .unwrap();

    // Act
    g.propagate_impl_edge(impl_edge_id).unwrap();

    // Assert: there exists a propagated edge UI -> Service (kind=calls) with counter=1
    let mut found_prop: Option<u32> = None;
    for e in live_edges(&g) {
        if e.subgraph == SubgraphKind::Propagated
            && e.from == ui
            && e.to == service
            && e.kind == EdgeKind::calls()
        {
            found_prop = Some(e.id);
            assert_eq!(e.counter, 1, "propagated edge counter must be incremented");
        }
    }
    let prop_id = found_prop.expect("expected propagated edge UI -> Service to exist");

    // propagation table links the impl edge correctly
    let set = g
        .sources(prop_id)
        .expect("propagation table must have entry for propagated edge");
    assert!(
        set.contains(&impl_edge_id),
        "propagation table must contain the implementation edge id"
    );

    // Adjacency also updated (propagated edges live in architecture space)
    let out = g.arch_out(ui).expect("arch_out[UI] must exist");
    assert!(
        out.contains(&prop_id),
        "arch_out[UI] must contain propagated edge id"
    );
}

#[test]
fn propagate_reuses_same_propagated_edge_increments_counter_and_unions_sources() {
    let mut g = ReflexionGraph::new();

    // Architecture nodes
    let ui = g.add_node(Node::new("UI", SubgraphKind::Architecture, None)).unwrap();
    let service = g
        .add_node(Node::new("Service", SubgraphKind::Architecture, None))
        .unwrap();

    // Implementation nodes
    let a = g.add_node(Node::new("A", SubgraphKind::Implementation, None)).unwrap();
    let b = g.add_node(Node::new("B", SubgraphKind::Implementation, None)).unwrap();
    let c = g.add_node(Node::new("C", SubgraphKind::Implementation, None)).unwrap();

    // Map A,B,C -> UI/Service such that both impl edges map to UI->Service
    g.set_mapping(a, ui).unwrap();
    g.set_mapping(b, service).unwrap();
    g.set_mapping(c, service).unwrap();

    let e1 = g
        .add_edge(mk_edge(a, b, SubgraphKind::Implementation, EdgeKind::calls()))
        .unwrap();
    let e2 = g
        .add_edge(mk_edge(a, c, SubgraphKind::Implementation, EdgeKind::calls()))
        .unwrap();

    g.propagate_impl_edge(e1).unwrap();
    g.propagate_impl_edge(e2).unwrap();

    // Exactly ONE propagated edge for UI->Service (calls)
    let props: Vec<(u32, u32)> = live_edges(&g)
        .iter()
        .filter_map(|e| {
            if e.subgraph == SubgraphKind::Propagated
                && e.from == ui
                && e.to == service
                && e.kind == EdgeKind::calls()
            {
                Some((e.id, e.counter))
            } else {
                None
            }
        })
        .collect();

    assert_eq!(props.len(), 1, "must reuse the same propagated edge");
    let (prop_id, counter) = props[0];
    assert_eq!(counter, 2, "counter must equal number of propagated impl edges");

    // the propagation table should contain both impl edges
    let set = g.sources(prop_id).unwrap();
    assert!(set.contains(&e1));
    assert!(set.contains(&e2));
    assert_eq!(set.len(), 2, "should be a set of unique impl edge ids");
}

#[test]
fn propagate_marks_impl_edge_unmapped_and_creates_nothing_if_mapping_missing() {
    let mut g = ReflexionGraph::new();

    // Architecture nodes
    let ui = g.add_node(Node::new("UI", SubgraphKind::Architecture, None)).unwrap();
    let _service = g
        .add_node(Node::new("Service", SubgraphKind::Architecture, None))
        .unwrap();

    // Implementation nodes
    let login_page = g
        .add_node(Node::new("LoginPage", SubgraphKind::Implementation, None))
        .unwrap();
    let user_service = g
        .add_node(Node::new("UserService", SubgraphKind::Implementation, None))
        .unwrap();

    // Only map ONE endpoint
    g.set_mapping(login_page, ui).unwrap();
    // user_service NOT mapped

    let impl_edge_id = g
        .add_edge(mk_edge(
            login_page,
            user_service,
            SubgraphKind::Implementation,
            EdgeKind::calls(),
        ))
        .unwrap();

    g.propagate_impl_edge(impl_edge_id).unwrap();

    // impl edge must be marked Unmapped
    let e = g.edge(impl_edge_id).unwrap();
    assert_eq!(e.state, EdgeState::Unmapped);

    // No propagated edge should exist
    let any_prop = live_edges(&g)
        .iter()
        .any(|edge| edge.subgraph == SubgraphKind::Propagated);
    assert!(!any_prop, "should not create propagated edges when mapping is missing");

    // propagation table should remain empty
    assert!(g.propagation_table_len() == 0);
}

#[test]
fn propagate_errors_if_edge_is_not_implementation() {
    let mut g = ReflexionGraph::new();

    // Architecture nodes for an ARCH edge
    let a1 = g.add_node(Node::new("A1", SubgraphKind::Architecture, None)).unwrap();
    let a2 = g.add_node(Node::new("A2", SubgraphKind::Architecture, None)).unwrap();

    let arch_edge_id = g
        .add_edge(mk_edge(a1, a2, SubgraphKind::Architecture, EdgeKind::depends_on()))
        .unwrap();

    let err = g.propagate_impl_edge(arch_edge_id).unwrap_err();

    match err {
        GraphError::WrongSubgraph { expected, found, .. } => {
            assert_eq!(expected, SubgraphKind::Implementation);
            assert_eq!(found, SubgraphKind::Architecture);
        }
        _ => panic!("expected WrongSubgraph, got {:?}", err),
    }
}

#[test]
fn get_or_create_propagated_edge_does_not_reuse_architecture_edge() {
    let mut g = ReflexionGraph::new();

    // Two arch nodes
    let ui = g.add_node(Node::new("UI", SubgraphKind::Architecture, None)).unwrap();
    let service = g
        .add_node(Node::new("Service", SubgraphKind::Architecture, None))
        .unwrap();

    // Add an ARCHITECTURE edge with same endpoints+kind
    let arch_eid = g
        .add_edge(mk_edge(
            ui,
            service,
            SubgraphKind::Architecture,
            EdgeKind::calls(),
        ))
        .unwrap();

    // Ask for propagated edge of same endpoints+kind
    let prop_eid = g
        .get_or_create_propagated_edge(ui, service, EdgeKind::calls())
        .unwrap();

    assert_ne!(
        arch_eid, prop_eid,
        "must not reuse architecture edge as propagated edge"
    );

    let prop = g.edge(prop_eid).unwrap();
    assert_eq!(prop.subgraph, SubgraphKind::Propagated);
    assert_eq!(prop.state, EdgeState::Undefined);
    assert_eq!(prop.counter, 0);
}
