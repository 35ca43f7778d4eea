use reflexion::graph::{Edge, Node, ReflexionGraph};
use reflexion::state::EdgeState;
use reflexion::types::{EdgeKind, SubgraphKind};

fn mk_node(name: &str, subgraph: SubgraphKind) -> Node {
    Node::new(name, subgraph, None)
}

fn mk_edge(from: u32, to: u32, subgraph: SubgraphKind, kind: EdgeKind) -> Edge {
    Edge {
        id: 0,
        from,
        to,
        kind,
        subgraph,
        state: EdgeState::Undefined,
        counter: 0,
    }
}

#[test]
fn naive_incremental_add_then_remove_restores_previous_classification() {
    let mut g = ReflexionGraph::new();

    // architecture
    let ui = g.add_node(mk_node("UI", SubgraphKind::Architecture)).unwrap();
    let service = g.add_node(mk_node("Service", SubgraphKind::Architecture)).unwrap();
    let e_arch = g
        .add_edge(mk_edge(ui, service, SubgraphKind::Architecture, EdgeKind::depends_on()))
        .unwrap();

    // implementation
    let login = g.add_node(mk_node("LoginPage", SubgraphKind::Implementation)).unwrap();
    let usersvc = g.add_node(mk_node("UserService", SubgraphKind::Implementation)).unwrap();
    let e_impl_ok = g
        .add_edge(mk_edge(login, usersvc, SubgraphKind::Implementation, EdgeKind::depends_on()))
        .unwrap();

    // mapping
    g.set_mapping_overwrite(login, ui).unwrap();
    g.set_mapping_overwrite(usersvc, service).unwrap();

    // baseline
    let _ = g.run_from_scratch();
    assert!(matches!(g.edge(e_arch).unwrap().state, EdgeState::Convergent));
    assert!(matches!(g.edge(e_impl_ok).unwrap().state, EdgeState::Allowed));

    // add a divergent impl edge (reverse direction)
    let new_div = mk_edge(usersvc, login, SubgraphKind::Implementation, EdgeKind::depends_on());
    let e_impl_div = g.add_impl_edge_and_recompute(new_div).unwrap();

    assert!(matches!(g.edge(e_impl_div).unwrap().state, EdgeState::Divergent));

    // remove it and ensure we are back to baseline
    g.remove_impl_edge_and_recompute(e_impl_div).unwrap();

    assert!(matches!(g.edge(e_arch).unwrap().state, EdgeState::Convergent));
    assert!(matches!(g.edge(e_impl_ok).unwrap().state, EdgeState::Allowed));
}
