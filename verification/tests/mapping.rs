use reflexion::graph::{GraphError, Node, ReflexionGraph};
use reflexion::types::SubgraphKind;

#[test]
fn mapping_insert_and_lookup_and_unmapped_none() {
    let mut g = ReflexionGraph::new();

    let impl1 = g
        .add_node(Node::new("impl1", SubgraphKind::Implementation, None))
        .unwrap();
    let impl2 = g
        .add_node(Node::new("impl2", SubgraphKind::Implementation, None))
        .unwrap();
    let impl3 = g
        .add_node(Node::new("impl3", SubgraphKind::Implementation, None))
        .unwrap();

    let arch1 = g
        .add_node(Node::new("arch1", SubgraphKind::Architecture, None))
        .unwrap();
    let arch2 = g
        .add_node(Node::new("arch2", SubgraphKind::Architecture, None))
        .unwrap();

    // insert mappings
    g.set_mapping(impl1, arch1).expect("impl1 → arch1 should succeed");
    g.set_mapping(impl2, arch2).expect("impl2 → arch2 should succeed");

    // lookups
    assert_eq!(g.get_arch_node(impl1).unwrap(), Some(arch1));
    assert_eq!(g.get_arch_node(impl2).unwrap(), Some(arch2));
    assert_eq!(g.get_arch_node(impl3).unwrap(), None);

    // mapped?
    assert_eq!(g.is_mapped(impl1).unwrap(), true);
    assert_eq!(g.is_mapped(impl3).unwrap(), false);
}

#[test]
fn mapping_rejects_overwrite() {
    let mut g = ReflexionGraph::new();

    let impl1 = g
        .add_node(Node::new("impl1", SubgraphKind::Implementation, None))
        .unwrap();
    let arch1 = g
        .add_node(Node::new("arch1", SubgraphKind::Architecture, None))
        .unwrap();
    let arch2 = g
        .add_node(Node::new("arch2", SubgraphKind::Architecture, None))
        .unwrap();

    g.set_mapping(impl1, arch1).unwrap();

    let err = g.set_mapping(impl1, arch2).unwrap_err();

    match err {
        GraphError::MappingAlreadyExists {
            impl_node,
            old_arch,
            new_arch,
        } => {
            assert_eq!(impl_node, impl1);
            assert_eq!(old_arch, arch1);
            assert_eq!(new_arch, arch2);
        }
        other => panic!("unexpected error: {:?}", other),
    }
}
