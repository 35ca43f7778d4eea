use reflexion::graph::{Edge, Node, ReflexionGraph};
use reflexion::state::EdgeState;
use reflexion::types::{EdgeKind, SubgraphKind};

fn mk_node(name: &str, subgraph: SubgraphKind) -> Node {
    Node::new(name, subgraph, None)
}

fn mk_edge(from: u32, to: u32, subgraph: SubgraphKind, kind: EdgeKind) -> Edge {
    Edge {
        id: 0, // overwritten by add_edge
        from,
        to,
        kind,
        subgraph,
        state: EdgeState::Undefined,
        counter: 0,
    }
}

#[test]
fn propagate_and_lift_marks_convergent_when_arch_edge_exists() {
    let mut g = ReflexionGraph::new();

    // Architecture nodes
    let ui = g.add_node(mk_node("UI", SubgraphKind::Architecture)).unwrap();
    let service = g
        .add_node(mk_node("Service", SubgraphKind::Architecture))
        .unwrap();

    // Implementation nodes
    let login_page = g
        .add_node(mk_node("LoginPage", SubgraphKind::Implementation))
        .unwrap();
    let user_service = g
        .add_node(mk_node("UserService", SubgraphKind::Implementation))
        .unwrap();

    // Specified arch edge UI -> Service
    let arch_edge_id = g
        .add_edge(mk_edge(ui, service, SubgraphKind::Architecture, EdgeKind::calls()))
        .unwrap();

    // Impl edge LoginPage -> UserService
    let impl_edge_id = g
        .add_edge(mk_edge(
            login_page,
            user_service,
            SubgraphKind::Implementation,
            EdgeKind::calls(),
        ))
        .unwrap();

    // Mapping impl -> arch
    g.set_mapping(login_page, ui).unwrap();
    g.set_mapping(user_service, service).unwrap();

    // Init states (arch edges become Specified)
    g.init_states();

    // Act
    g.propagate_and_lift(impl_edge_id).unwrap();

    // Assert arch edge convergent + counter incremented
    let ae = g.edge(arch_edge_id).unwrap();
    assert!(matches!(ae.state, EdgeState::Convergent));
    assert_eq!(ae.counter, 1);

    // Assert impl edge allowed
    let ie = g.edge(impl_edge_id).unwrap();
    assert!(matches!(ie.state, EdgeState::Allowed));

    // Assert propagated edge exists and is allowed
    let prop_id = (0..g.next_edge_id())
        .find(|&prop_eid| match g.sources(prop_eid) {
            Some(impls) => impls.contains(&impl_edge_id),
            None => false,
        })
        .unwrap();

    let pe = g.edge(prop_id).unwrap();
    assert_eq!(pe.from, ui);
    assert_eq!(pe.to, service);
    assert!(matches!(pe.state, EdgeState::Allowed));
    assert_eq!(pe.counter, 1);
}
