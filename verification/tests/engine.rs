use reflexion::graph::{Edge, GraphError, Node, ReflexionGraph};
use reflexion::state::EdgeState;
use reflexion::types::{EdgeKind, SubgraphKind};

fn edge(from: u32, to: u32, subgraph: SubgraphKind, kind: EdgeKind) -> Edge {
    Edge { id: 0, from, to, kind, subgraph, state: EdgeState::Undefined, counter: 0 }
}

fn arch(g: &mut ReflexionGraph, name: &str) -> u32 {
    g.add_node(Node::new(name, SubgraphKind::Architecture, None)).unwrap()
}

fn imp(g: &mut ReflexionGraph, name: &str) -> u32 {
    g.add_node(Node::new(name, SubgraphKind::Implementation, None)).unwrap()
}

fn live_edges(g: &ReflexionGraph) -> Vec<Edge> {
    (0..g.next_edge_id()).filter_map(|id| g.edge(id)).collect()
}

/// States and counters with the handles of propagated edges left out:
/// architecture and implementation edges by handle, propagated edges by
/// triple, each with its sorted sources.
fn classification(g: &ReflexionGraph) -> Vec<(u32, u32, u32, u32, EdgeState, u32, Vec<u32>)> {
    let mut rows: Vec<(u32, u32, u32, u32, EdgeState, u32, Vec<u32>)> = Vec::new();
    for e in live_edges(g) {
        if e.subgraph == SubgraphKind::Propagated {
            let mut sources = g.sources(e.id).cloned().unwrap_or_default();
            sources.sort();
            rows.push((u32::MAX, e.from, e.to, e.kind.tag, e.state, e.counter, sources));
        } else {
            rows.push((e.id, e.from, e.to, e.kind.tag, e.state, e.counter, Vec::new()));
        }
    }
    rows.sort_by(|a, b| (a.0, a.1, a.2, a.3).cmp(&(b.0, b.1, b.2, b.3)));
    rows
}

/// Two layers (UI, Service, DB) with one specified edge each way down, and
/// an implementation that follows one of them twice, breaks the layering
/// once, and has one unmapped node.
struct Sample {
    g: ReflexionGraph,
    ui_service: u32,
    service_db: u32,
    ok1: u32,
    ok2: u32,
    skip: u32,
    loose: u32,
}

fn sample() -> Sample {
    let mut g = ReflexionGraph::new();
    let ui = arch(&mut g, "UI");
    let service = arch(&mut g, "Service");
    let db = arch(&mut g, "DB");
    let page = imp(&mut g, "Page");
    let form = imp(&mut g, "Form");
    let users = imp(&mut g, "Users");
    let store = imp(&mut g, "Store");
    let script = imp(&mut g, "Script");
    let ui_service = g
        .add_edge(edge(ui, service, SubgraphKind::Architecture, EdgeKind::calls()))
        .unwrap();
    let service_db = g
        .add_edge(edge(service, db, SubgraphKind::Architecture, EdgeKind::calls()))
        .unwrap();
    let ok1 = g.add_edge(edge(page, users, SubgraphKind::Implementation, EdgeKind::calls())).unwrap();
    let ok2 = g.add_edge(edge(form, users, SubgraphKind::Implementation, EdgeKind::calls())).unwrap();
    let skip = g.add_edge(edge(page, store, SubgraphKind::Implementation, EdgeKind::calls())).unwrap();
    let loose = g
        .add_edge(edge(script, store, SubgraphKind::Implementation, EdgeKind::calls()))
        .unwrap();
    g.set_mapping(page, ui).unwrap();
    g.set_mapping(form, ui).unwrap();
    g.set_mapping(users, service).unwrap();
    g.set_mapping(store, db).unwrap();
    Sample { g, ui_service, service_db, ok1, ok2, skip, loose }
}

#[test]
fn full_run_classifies_every_edge() {
    let mut s = sample();
    assert_eq!(s.g.run_from_scratch(), Ok(()));
    let g = &s.g;

    let conv = g.edge(s.ui_service).unwrap();
    assert_eq!((conv.state, conv.counter), (EdgeState::Convergent, 2));
    let absent = g.edge(s.service_db).unwrap();
    assert_eq!((absent.state, absent.counter), (EdgeState::Absent, 0));
    assert_eq!(g.edge(s.ok1).unwrap().state, EdgeState::Allowed);
    assert_eq!(g.edge(s.ok2).unwrap().state, EdgeState::Allowed);
    assert_eq!(g.edge(s.skip).unwrap().state, EdgeState::Divergent);
    assert_eq!(g.edge(s.loose).unwrap().state, EdgeState::Unmapped);

    let props: Vec<Edge> = live_edges(g)
        .into_iter()
        .filter(|e| e.subgraph == SubgraphKind::Propagated)
        .collect();
    assert_eq!(props.len(), 2);
    // UI -> Service, produced by both conforming edges
    assert_eq!((props[0].from, props[0].to), (0, 1));
    assert_eq!((props[0].state, props[0].counter), (EdgeState::Allowed, 2));
    assert_eq!(g.sources(props[0].id).unwrap(), &vec![s.ok1, s.ok2]);
    // UI -> DB, produced by the edge that skips a layer
    assert_eq!((props[1].from, props[1].to), (0, 2));
    assert_eq!((props[1].state, props[1].counter), (EdgeState::Divergent, 1));
    assert_eq!(g.sources(props[1].id).unwrap(), &vec![s.skip]);
    assert_eq!(g.propagation_table_len(), 2);

    // the absent edge, the divergent implementation edge and its
    // propagated edge
    assert_eq!(g.count_violations(), 3);
}

#[test]
fn running_twice_changes_no_state_or_counter() {
    let mut s = sample();
    s.g.run_from_scratch().unwrap();
    let once = classification(&s.g);
    s.g.run_from_scratch().unwrap();
    let twice = classification(&s.g);
    assert_eq!(once, twice);
    assert_eq!(s.g.count_violations(), 3);
}

#[test]
fn a_second_run_uses_fresh_handles_for_its_propagated_edges() {
    let mut s = sample();
    s.g.run_from_scratch().unwrap();
    let after_first = s.g.next_edge_id();
    assert_eq!(after_first, 8);
    s.g.run_from_scratch().unwrap();
    assert_eq!(s.g.next_edge_id(), 10);
    for e in live_edges(&s.g) {
        if e.subgraph == SubgraphKind::Propagated {
            assert!(e.id >= after_first);
        }
    }
    assert_eq!(s.g.edge(6), None);
    assert_eq!(s.g.edge(7), None);
}

#[test]
fn the_order_of_the_implementation_edges_is_immaterial() {
    let mut s = sample();
    s.g.run_from_scratch().unwrap();
    let expected = classification(&s.g);

    let orders = [
        [s.loose, s.skip, s.ok2, s.ok1],
        [s.skip, s.ok1, s.loose, s.ok2],
        [s.ok2, s.ok1, s.skip, s.loose],
    ];
    for order in orders {
        let mut t = sample();
        t.g.clear_propagated_edges();
        t.g.init_states();
        for e in order {
            t.g.propagate_and_lift(e).unwrap();
        }
        t.g.finalize_architecture_states();
        assert_eq!(classification(&t.g), expected);
    }
}

#[test]
fn counters_equal_the_size_of_the_provenance() {
    let mut s = sample();
    s.g.run_from_scratch().unwrap();
    let g = &s.g;
    let mut lifted_onto_ui_service = 0;
    for e in live_edges(g) {
        if e.subgraph == SubgraphKind::Propagated {
            let sources = g.sources(e.id).unwrap();
            assert_eq!(e.counter as usize, sources.len());
            if g.lift_exact(e.from, e.to, &e.kind).unwrap() == Some(s.ui_service) {
                lifted_onto_ui_service += sources.len();
            }
        }
    }
    assert_eq!(g.edge(s.ui_service).unwrap().counter as usize, lifted_onto_ui_service);
}

#[test]
fn propagating_an_edge_twice_counts_it_once() {
    let mut s = sample();
    s.g.propagate_impl_edge(s.ok1).unwrap();
    s.g.propagate_impl_edge(s.ok1).unwrap();
    let prop = s.g.arch_out(0).unwrap()[1];
    assert_eq!(s.g.edge(prop).unwrap().counter, 1);
    assert_eq!(s.g.sources(prop).unwrap(), &vec![s.ok1]);
    assert_eq!(s.g.propagation_table_len(), 1);
}

#[test]
fn propagation_reports_a_missing_edge() {
    let mut s = sample();
    assert_eq!(s.g.propagate_impl_edge(99), Err(GraphError::EdgeNotFound(99)));
    assert_eq!(s.g.propagate_and_lift(99), Err(GraphError::EdgeNotFound(99)));
    assert_eq!(s.g.next_edge_id(), 6);
}

#[test]
fn lifting_an_architecture_edge_is_refused() {
    let mut s = sample();
    assert_eq!(
        s.g.propagate_and_lift(s.ui_service),
        Err(GraphError::WrongSubgraph {
            node: 0,
            expected: SubgraphKind::Implementation,
            found: SubgraphKind::Architecture,
        })
    );
}

#[test]
fn propagate_and_lift_marks_divergent_when_nothing_is_specified() {
    let mut s = sample();
    s.g.init_states();
    s.g.propagate_and_lift(s.skip).unwrap();
    assert_eq!(s.g.edge(s.skip).unwrap().state, EdgeState::Divergent);
    let prop = s.g.arch_out(0).unwrap()[1];
    let pe = s.g.edge(prop).unwrap();
    assert_eq!((pe.from, pe.to, pe.state, pe.counter), (0, 2, EdgeState::Divergent, 1));
    // no architecture edge was touched
    let ae = s.g.edge(s.ui_service).unwrap();
    assert_eq!((ae.state, ae.counter), (EdgeState::Specified, 0));
}

#[test]
fn propagate_and_lift_stops_at_an_unmapped_endpoint() {
    let mut s = sample();
    s.g.init_states();
    s.g.propagate_and_lift(s.loose).unwrap();
    assert_eq!(s.g.edge(s.loose).unwrap().state, EdgeState::Unmapped);
    assert_eq!(s.g.next_edge_id(), 6);
    assert_eq!(s.g.propagation_table_len(), 0);
}

#[test]
fn lift_exact_matches_the_whole_triple_only() {
    let mut s = sample();
    let g = &mut s.g;
    assert_eq!(g.lift_exact(0, 1, &EdgeKind::calls()), Ok(Some(s.ui_service)));
    assert_eq!(g.lift_exact(1, 2, &EdgeKind::calls()), Ok(Some(s.service_db)));
    assert_eq!(g.lift_exact(0, 1, &EdgeKind::depends_on()), Ok(None));
    assert_eq!(g.lift_exact(1, 0, &EdgeKind::calls()), Ok(None));
    assert_eq!(g.lift_exact(0, 2, &EdgeKind::calls()), Ok(None));
    assert_eq!(g.lift_exact(40, 1, &EdgeKind::calls()), Ok(None));
    // a propagated edge with the triple is no match
    g.run_from_scratch().unwrap();
    assert_eq!(g.lift_exact(0, 2, &EdgeKind::calls()), Ok(None));
}

#[test]
fn lift_exact_returns_the_oldest_of_equal_edges() {
    let mut g = ReflexionGraph::new();
    let a = arch(&mut g, "A");
    let b = arch(&mut g, "B");
    let i = imp(&mut g, "I");
    let j = imp(&mut g, "J");
    let first = g.add_edge(edge(a, b, SubgraphKind::Architecture, EdgeKind::calls())).unwrap();
    let second = g.add_edge(edge(a, b, SubgraphKind::Architecture, EdgeKind::calls())).unwrap();
    let ie = g.add_edge(edge(i, j, SubgraphKind::Implementation, EdgeKind::calls())).unwrap();
    g.set_mapping(i, a).unwrap();
    g.set_mapping(j, b).unwrap();
    assert_eq!(g.lift_exact(a, b, &EdgeKind::calls()), Ok(Some(first)));
    g.run_from_scratch().unwrap();
    assert_eq!(g.edge(ie).unwrap().state, EdgeState::Allowed);
    let e1 = g.edge(first).unwrap();
    let e2 = g.edge(second).unwrap();
    assert_eq!((e1.state, e1.counter), (EdgeState::Convergent, 1));
    assert_eq!((e2.state, e2.counter), (EdgeState::Absent, 0));
}

#[test]
fn get_or_create_propagated_edge_reuses_the_edge_it_created() {
    let mut g = ReflexionGraph::new();
    let a = arch(&mut g, "A");
    let b = arch(&mut g, "B");
    let p = g.get_or_create_propagated_edge(a, b, EdgeKind::calls()).unwrap();
    let again = g.get_or_create_propagated_edge(a, b, EdgeKind::calls()).unwrap();
    let other = g.get_or_create_propagated_edge(a, b, EdgeKind::depends_on()).unwrap();
    assert_eq!(p, again);
    assert_ne!(p, other);
    assert_eq!(g.next_edge_id(), 2);
    assert_eq!(g.propagation_table_len(), 0);
}

#[test]
fn get_or_create_propagated_edge_checks_the_endpoints() {
    let mut g = ReflexionGraph::new();
    let a = arch(&mut g, "A");
    let i = imp(&mut g, "I");
    assert_eq!(
        g.get_or_create_propagated_edge(a, 9, EdgeKind::calls()),
        Err(GraphError::NodeNotFound(9))
    );
    assert_eq!(
        g.get_or_create_propagated_edge(i, a, EdgeKind::calls()),
        Err(GraphError::WrongSubgraph {
            node: i,
            expected: SubgraphKind::Architecture,
            found: SubgraphKind::Implementation,
        })
    );
    assert_eq!(g.next_edge_id(), 0);
}

#[test]
fn finalize_turns_unsupported_specified_edges_absent() {
    let mut s = sample();
    s.g.init_states();
    s.g.propagate_and_lift(s.ok1).unwrap();
    assert_eq!(s.g.edge(s.service_db).unwrap().state, EdgeState::Specified);
    s.g.finalize_architecture_states();
    let conv = s.g.edge(s.ui_service).unwrap();
    assert_eq!((conv.state, conv.counter), (EdgeState::Convergent, 1));
    let absent = s.g.edge(s.service_db).unwrap();
    assert_eq!((absent.state, absent.counter), (EdgeState::Absent, 0));
    // implementation edges are none of its business
    assert_eq!(s.g.edge(s.ok1).unwrap().state, EdgeState::Allowed);
    assert_eq!(s.g.edge(s.ok2).unwrap().state, EdgeState::Undefined);
}

#[test]
fn finalize_leaves_unclassified_architecture_edges_alone() {
    let mut s = sample();
    s.g.finalize_architecture_states();
    assert_eq!(s.g.edge(s.ui_service).unwrap().state, EdgeState::Undefined);
}

#[test]
fn a_changed_mapping_shows_in_the_next_run() {
    let mut s = sample();
    s.g.run_from_scratch().unwrap();
    assert_eq!(s.g.edge(s.skip).unwrap().state, EdgeState::Divergent);
    // Store now realises Service: Page -> Store conforms
    assert_eq!(s.g.set_mapping_overwrite(6, 1), Ok(Some(2)));
    s.g.run_from_scratch().unwrap();
    assert_eq!(s.g.edge(s.skip).unwrap().state, EdgeState::Allowed);
    assert_eq!(s.g.edge(s.ui_service).unwrap().counter, 3);
    assert_eq!(s.g.count_violations(), 1);
}

#[test]
fn incremental_add_equals_a_run_with_the_edge_in_place() {
    let mut s = sample();
    s.g.run_from_scratch().unwrap();
    let added = s
        .g
        .add_impl_edge_and_recompute(edge(4, 6, SubgraphKind::Implementation, EdgeKind::calls()))
        .unwrap();

    let mut t = sample();
    let same = t
        .g
        .add_edge(edge(4, 6, SubgraphKind::Implementation, EdgeKind::calls()))
        .unwrap();
    t.g.run_from_scratch().unwrap();

    assert_eq!(added, 8);
    assert_eq!(same, 6);
    let mut left = classification(&s.g);
    let mut right = classification(&t.g);
    // the new edge has another handle in the two graphs
    for row in left.iter_mut().chain(right.iter_mut()) {
        if row.0 == added || row.0 == same {
            row.0 = 0;
        }
        for src in row.6.iter_mut() {
            if *src == added || *src == same {
                *src = 0;
            }
        }
        row.6.sort();
    }
    left.sort_by(|a, b| (a.0, a.1, a.2, a.3).cmp(&(b.0, b.1, b.2, b.3)));
    right.sort_by(|a, b| (a.0, a.1, a.2, a.3).cmp(&(b.0, b.1, b.2, b.3)));
    assert_eq!(left, right);
    assert_eq!(s.g.edge(added).unwrap().state, EdgeState::Divergent);
}

#[test]
fn incremental_remove_equals_a_run_without_the_edge() {
    let mut s = sample();
    s.g.run_from_scratch().unwrap();
    let before = s.g.count_violations();
    assert_eq!(before, 3);
    s.g.remove_impl_edge_and_recompute(s.skip).unwrap();
    assert_eq!(s.g.edge(s.skip), None);
    assert_eq!(s.g.impl_out(3).unwrap(), &vec![s.ok1]);
    assert_eq!(s.g.impl_edge_count(), 3);
    // only the absent architecture edge is left
    assert_eq!(s.g.count_violations(), 1);
    assert_eq!(s.g.edge(s.ui_service).unwrap().counter, 2);
}

#[test]
fn add_then_remove_restores_every_other_edge() {
    let mut s = sample();
    s.g.run_from_scratch().unwrap();
    let baseline = classification(&s.g);
    let added = s
        .g
        .add_impl_edge_and_recompute(edge(5, 3, SubgraphKind::Implementation, EdgeKind::calls()))
        .unwrap();
    assert_eq!(s.g.edge(added).unwrap().state, EdgeState::Divergent);
    assert_eq!(s.g.edge(s.ui_service).unwrap().state, EdgeState::Convergent);
    assert_eq!(s.g.count_violations(), 5);
    s.g.remove_impl_edge_and_recompute(added).unwrap();
    assert_eq!(classification(&s.g), baseline);
}

#[test]
fn incremental_add_refuses_edges_of_other_subgraphs() {
    let mut s = sample();
    assert_eq!(
        s.g.add_impl_edge_and_recompute(edge(0, 1, SubgraphKind::Architecture, EdgeKind::calls())),
        Err(GraphError::WrongSubgraph {
            node: 0,
            expected: SubgraphKind::Implementation,
            found: SubgraphKind::Architecture,
        })
    );
    assert_eq!(
        s.g.add_impl_edge_and_recompute(edge(3, 0, SubgraphKind::Implementation, EdgeKind::calls())),
        Err(GraphError::WrongSubgraph {
            node: 0,
            expected: SubgraphKind::Implementation,
            found: SubgraphKind::Architecture,
        })
    );
    assert_eq!(
        s.g.add_impl_edge_and_recompute(edge(3, 50, SubgraphKind::Implementation, EdgeKind::calls())),
        Err(GraphError::NodeNotFound(50))
    );
    assert_eq!(s.g.next_edge_id(), 6);
}

#[test]
fn incremental_remove_refuses_what_is_no_implementation_edge() {
    let mut s = sample();
    assert_eq!(s.g.remove_impl_edge_and_recompute(60), Err(GraphError::EdgeNotFound(60)));
    assert_eq!(
        s.g.remove_impl_edge_and_recompute(s.service_db),
        Err(GraphError::WrongSubgraph {
            node: 1,
            expected: SubgraphKind::Implementation,
            found: SubgraphKind::Architecture,
        })
    );
    s.g.remove_impl_edge_and_recompute(s.loose).unwrap();
    assert_eq!(s.g.remove_impl_edge_and_recompute(s.loose), Err(GraphError::EdgeNotFound(s.loose)));
}
