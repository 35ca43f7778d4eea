use reflexion::graph::{GraphError, Node, ReflexionGraph};
use reflexion::types::SubgraphKind;

fn arch(g: &mut ReflexionGraph, name: &str) -> u32 {
    g.add_node(Node::new(name, SubgraphKind::Architecture, None)).unwrap()
}

fn imp(g: &mut ReflexionGraph, name: &str) -> u32 {
    g.add_node(Node::new(name, SubgraphKind::Implementation, None)).unwrap()
}

#[test]
fn strict_mapping_is_idempotent_for_the_same_target() {
    let mut g = ReflexionGraph::new();
    let i = imp(&mut g, "i");
    let a = arch(&mut g, "a");
    assert_eq!(g.set_mapping(i, a), Ok(()));
    assert_eq!(g.set_mapping(i, a), Ok(()));
    assert_eq!(g.mapping_len(), 1);
    assert_eq!(g.get_arch_node(i), Ok(Some(a)));
}

#[test]
fn strict_mapping_conflict_leaves_the_table_unchanged() {
    let mut g = ReflexionGraph::new();
    let i = imp(&mut g, "i");
    let a = arch(&mut g, "a");
    let b = arch(&mut g, "b");
    g.set_mapping(i, a).unwrap();
    assert_eq!(
        g.set_mapping(i, b),
        Err(GraphError::MappingAlreadyExists { impl_node: i, old_arch: a, new_arch: b })
    );
    assert_eq!(g.get_arch_node(i), Ok(Some(a)));
    assert_eq!(g.mapping_len(), 1);
}

#[test]
fn mapping_rejects_nodes_of_the_wrong_subgraph() {
    let mut g = ReflexionGraph::new();
    let i = imp(&mut g, "i");
    let a = arch(&mut g, "a");
    let wrong_source = GraphError::WrongSubgraph {
        node: a,
        expected: SubgraphKind::Implementation,
        found: SubgraphKind::Architecture,
    };
    let wrong_target = GraphError::WrongSubgraph {
        node: i,
        expected: SubgraphKind::Architecture,
        found: SubgraphKind::Implementation,
    };
    assert_eq!(g.set_mapping(a, a), Err(wrong_source));
    assert_eq!(g.set_mapping(i, i), Err(wrong_target));
    assert_eq!(g.set_mapping_overwrite(a, a), Err(wrong_source));
    assert_eq!(g.set_mapping_overwrite(i, i), Err(wrong_target));
    assert_eq!(g.get_arch_node(a), Err(wrong_source));
    assert_eq!(g.is_mapped(a), Err(wrong_source));
    assert_eq!(g.remove_mapping(a), Err(wrong_source));
    assert_eq!(g.mapping_len(), 0);
}

#[test]
fn mapping_rejects_nodes_that_do_not_exist() {
    let mut g = ReflexionGraph::new();
    let i = imp(&mut g, "i");
    let a = arch(&mut g, "a");
    assert_eq!(g.set_mapping(7, a), Err(GraphError::NodeNotFound(7)));
    assert_eq!(g.set_mapping(i, 8), Err(GraphError::NodeNotFound(8)));
    assert_eq!(g.set_mapping_overwrite(7, a), Err(GraphError::NodeNotFound(7)));
    assert_eq!(g.set_mapping_overwrite(i, 8), Err(GraphError::NodeNotFound(8)));
    assert_eq!(g.get_arch_node(7), Err(GraphError::NodeNotFound(7)));
    assert_eq!(g.is_mapped(7), Err(GraphError::NodeNotFound(7)));
    assert_eq!(g.remove_mapping(7), Err(GraphError::NodeNotFound(7)));
}

#[test]
fn the_source_is_checked_before_the_target() {
    let mut g = ReflexionGraph::new();
    let a = arch(&mut g, "a");
    assert_eq!(
        g.set_mapping(a, 9),
        Err(GraphError::WrongSubgraph {
            node: a,
            expected: SubgraphKind::Implementation,
            found: SubgraphKind::Architecture,
        })
    );
}

#[test]
fn overwrite_replaces_and_returns_the_previous_target() {
    let mut g = ReflexionGraph::new();
    let i = imp(&mut g, "i");
    let a = arch(&mut g, "a");
    let b = arch(&mut g, "b");
    assert_eq!(g.set_mapping_overwrite(i, a), Ok(None));
    assert_eq!(g.set_mapping_overwrite(i, b), Ok(Some(a)));
    assert_eq!(g.get_arch_node(i), Ok(Some(b)));
    assert_eq!(g.mapping_len(), 1);
}

#[test]
fn remove_mapping_returns_the_target_and_unmaps() {
    let mut g = ReflexionGraph::new();
    let i = imp(&mut g, "i");
    let a = arch(&mut g, "a");
    g.set_mapping(i, a).unwrap();
    assert_eq!(g.remove_mapping(i), Ok(Some(a)));
    assert_eq!(g.is_mapped(i), Ok(false));
    assert_eq!(g.remove_mapping(i), Ok(None));
    assert_eq!(g.mapping_len(), 0);
    // after removal a different target is no conflict
    let b = arch(&mut g, "b");
    assert_eq!(g.set_mapping(i, b), Ok(()));
}

#[test]
fn many_sources_may_share_a_target() {
    let mut g = ReflexionGraph::new();
    let a = arch(&mut g, "a");
    let i = imp(&mut g, "i");
    let j = imp(&mut g, "j");
    let k = imp(&mut g, "k");
    g.set_mapping(k, a).unwrap();
    g.set_mapping(i, a).unwrap();
    g.set_mapping(j, a).unwrap();
    assert_eq!(g.mapping_len(), 3);
    assert_eq!(g.iter_mapping(), vec![(i, a), (j, a), (k, a)]);
    assert_eq!(g.validate_all_mappings(), Ok(()));
}

#[test]
fn clear_mappings_empties_the_table() {
    let mut g = ReflexionGraph::new();
    let a = arch(&mut g, "a");
    let i = imp(&mut g, "i");
    let j = imp(&mut g, "j");
    g.set_mapping(i, a).unwrap();
    g.set_mapping(j, a).unwrap();
    g.clear_mappings();
    assert_eq!(g.mapping_len(), 0);
    assert!(g.iter_mapping().is_empty());
    assert_eq!(g.is_mapped(i), Ok(false));
    assert_eq!(g.is_mapped(j), Ok(false));
    assert_eq!(g.node_count(), 3);
}

#[test]
fn mappings_survive_a_recompute() {
    let mut g = ReflexionGraph::new();
    let a = arch(&mut g, "a");
    let i = imp(&mut g, "i");
    g.set_mapping(i, a).unwrap();
    g.run_from_scratch().unwrap();
    g.run_from_scratch().unwrap();
    assert_eq!(g.iter_mapping(), vec![(i, a)]);
}
