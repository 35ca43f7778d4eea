//! The mapping table: a partial function from implementation nodes to
//! architecture nodes.

use vstd::prelude::*;
use crate::graph::{GraphError, ReflexionGraph};
use crate::model::{lemma_mapping_check_fails, lemma_mapping_check_passes};
use crate::types::{NodeId, SubgraphKind};
use crate::util::{below, lemma_below_finite, lemma_below_step};

verus! {

impl ReflexionGraph {
    fn expect_impl_node(&self, impl_node: NodeId) -> (r: Result<(), GraphError>)
        requires
            self.wf(),
        ensures
            r == match self@.node_error(impl_node, SubgraphKind::Implementation) {
                Some(err) => Err::<(), GraphError>(err),
                None => Ok(()),
            },
    {
        let sg = self.node_subgraph(impl_node)?;
        if sg != SubgraphKind::Implementation {
            return Err(
                GraphError::WrongSubgraph {
                    node: impl_node,
                    expected: SubgraphKind::Implementation,
                    found: sg,
                },
            );
        }
        Ok(())
    }

    fn expect_arch_node(&self, arch_node: NodeId) -> (r: Result<(), GraphError>)
        requires
            self.wf(),
        ensures
            r == match self@.node_error(arch_node, SubgraphKind::Architecture) {
                Some(err) => Err::<(), GraphError>(err),
                None => Ok(()),
            },
    {
        let sg = self.node_subgraph(arch_node)?;
        if sg != SubgraphKind::Architecture {
            return Err(
                GraphError::WrongSubgraph {
                    node: arch_node,
                    expected: SubgraphKind::Architecture,
                    found: sg,
                },
            );
        }
        Ok(())
    }

    /// Strict insert: maps `impl_node` to `arch_node` unless it maps to a
    /// different node already. Setting the mapping it already has changes
    /// nothing and succeeds.
    pub fn set_mapping(&mut self, impl_node: NodeId, arch_node: NodeId) -> (r: Result<
        (),
        GraphError,
    >)
        requires
            old(self).wf(),
        ensures
            final(self).wf(),
            match old(self)@.strict_mapping_error(impl_node, arch_node) {
                Some(err) => {
                    &&& r == Err::<(), GraphError>(err)
                    &&& final(self)@ == old(self)@
                },
                None => {
                    &&& r == Ok::<(), GraphError>(())
                    &&& final(self)@ == old(self)@.with_mapping(
                        old(self)@.mapping.insert(impl_node, arch_node),
                    )
                },
            },
    {
        self.expect_impl_node(impl_node)?;
        self.expect_arch_node(arch_node)?;
        match self.maps_to[impl_node as usize] {
            None => {
                self.maps_to[impl_node as usize] = Some(arch_node);
                proof {
                    self.lemma_mapping_changed(*old(self));
                    assert(self@.mapping =~= old(self)@.mapping.insert(impl_node, arch_node));
                }
                Ok(())
            },
            Some(old_arch) => {
                if old_arch == arch_node {
                    proof {
                        assert(self@.mapping =~= old(self)@.mapping.insert(impl_node, arch_node));
                    }
                    Ok(())
                } else {
                    Err(GraphError::MappingAlreadyExists { impl_node, old_arch, new_arch: arch_node })
                }
            },
        }
    }

    /// The architecture node that `impl_node` maps to; `None` where it is
    /// unmapped.
    pub fn get_arch_node(&self, impl_node: NodeId) -> (r: Result<Option<NodeId>, GraphError>)
        requires
            self.wf(),
        ensures
            r == match self@.node_error(impl_node, SubgraphKind::Implementation) {
                Some(err) => Err::<Option<NodeId>, GraphError>(err),
                None => Ok(self@.mapped(impl_node)),
            },
    {
        self.expect_impl_node(impl_node)?;
        Ok(self.maps_to[impl_node as usize])
    }

    /// Whether `impl_node` is mapped.
    pub fn is_mapped(&self, impl_node: NodeId) -> (r: Result<bool, GraphError>)
        requires
            self.wf(),
        ensures
            r == match self@.node_error(impl_node, SubgraphKind::Implementation) {
                Some(err) => Err::<bool, GraphError>(err),
                None => Ok(self@.mapping.contains_key(impl_node)),
            },
    {
        self.expect_impl_node(impl_node)?;
        Ok(self.maps_to[impl_node as usize].is_some())
    }

    /// Removes the mapping of `impl_node` and returns the node it mapped to.
    pub fn remove_mapping(&mut self, impl_node: NodeId) -> (r: Result<Option<NodeId>, GraphError>)
        requires
            old(self).wf(),
        ensures
            final(self).wf(),
            match old(self)@.node_error(impl_node, SubgraphKind::Implementation) {
                Some(err) => {
                    &&& r == Err::<Option<NodeId>, GraphError>(err)
                    &&& final(self)@ == old(self)@
                },
                None => {
                    &&& r == Ok::<Option<NodeId>, GraphError>(old(self)@.mapped(impl_node))
                    &&& final(self)@ == old(self)@.with_mapping(
                        old(self)@.mapping.remove(impl_node),
                    )
                },
            },
    {
        self.expect_impl_node(impl_node)?;
        let was = self.maps_to[impl_node as usize];
        self.maps_to[impl_node as usize] = None;
        proof {
            self.lemma_mapping_changed(*old(self));
            assert(self@.mapping =~= old(self)@.mapping.remove(impl_node));
        }
        Ok(was)
    }

    /// Removes every mapping entry.
    pub fn clear_mappings(&mut self)
        requires
            old(self).wf(),
        ensures
            final(self).wf(),
            final(self)@ == old(self)@.with_mapping(Map::empty()),
    {
        let n = self.maps_to.len();
        let mut i: usize = 0;
        while i < n
            invariant
                i <= n,
                n == self.maps_to.len(),
                self.maps_to.len() == old(self).maps_to.len(),
                self.nodes == old(self).nodes,
                self.edges == old(self).edges,
                self.arch_out == old(self).arch_out,
                self.impl_out == old(self).impl_out,
                self.provenance == old(self).provenance,
                forall|j: int| 0 <= j < i ==> self.maps_to[j] is None,
                forall|j: int| i <= j < n ==> self.maps_to[j] == old(self).maps_to[j],
            decreases n - i,
        {
            self.maps_to[i] = None;
            i += 1;
        }
        proof {
            self.lemma_mapping_changed(*old(self));
            assert(self@.mapping =~= Map::<NodeId, NodeId>::empty());
        }
    }

    /// The number of mapping entries.
    pub fn mapping_len(&self) -> (n: usize)
        requires
            self.wf(),
        ensures
            self@.mapping.dom().finite(),
            n == self@.mapping.dom().len(),
    {
        let ghost p = |i: u32| self.maps_to[i as int] is Some;
        let mut count: usize = 0;
        let mut i: usize = 0;
        proof {
            lemma_below_finite(0, p);
        }
        while i < self.maps_to.len()
            invariant
                i <= self.maps_to.len(),
                self.maps_to.len() <= u32::MAX,
                p == |i: u32| self.maps_to[i as int] is Some,
                count == below(i as nat, p).len(),
                count <= i,
            decreases self.maps_to.len() - i,
        {
            proof {
                lemma_below_step(i as nat, p);
            }
            if self.maps_to[i].is_some() {
                count += 1;
            }
            i += 1;
        }
        proof {
            lemma_below_finite(i as nat, p);
            assert(self@.mapping.dom() =~= below(i as nat, p));
        }
        count
    }

    /// The mapping entries as (implementation node, architecture node)
    /// pairs, by ascending implementation node.
    pub fn iter_mapping(&self) -> (r: Vec<(NodeId, NodeId)>)
        requires
            self.wf(),
        ensures
            forall|j: int|
                0 <= j < r.len() ==> self@.mapping.contains_pair((#[trigger] r[j]).0, r[j].1),
            forall|i: NodeId| #[trigger]
                self@.mapping.contains_key(i) ==> r@.contains((i, self@.mapping[i])),
            forall|j: int, k: int| 0 <= j < k < r.len() ==> r[j].0 < r[k].0,
    {
        let mut out: Vec<(NodeId, NodeId)> = Vec::new();
        let mut i: usize = 0;
        while i < self.maps_to.len()
            invariant
                i <= self.maps_to.len(),
                self.maps_to.len() <= u32::MAX,
                forall|j: int|
                    0 <= j < out.len() ==> (#[trigger] out[j]).0 < i && self@.mapping.contains_pair(
                        out[j].0,
                        out[j].1,
                    ),
                forall|n: NodeId|
                    n < i && #[trigger] self@.mapping.contains_key(n) ==> out@.contains(
                        (n, self@.mapping[n]),
                    ),
                forall|j: int, k: int| 0 <= j < k < out.len() ==> out[j].0 < out[k].0,
            decreases self.maps_to.len() - i,
        {
            match self.maps_to[i] {
                Some(a) => {
                    let ghost before = out@;
                    out.push((i as NodeId, a));
                    proof {
                        assert forall|n: NodeId|
                            n < i + 1 && #[trigger] self@.mapping.contains_key(n) implies out@.contains(
                            (n, self@.mapping[n]),
                        ) by {
                            if n < i {
                                let j = choose|j: int|
                                    0 <= j < before.len() && before[j] == (n, self@.mapping[n]);
                                assert(out@[j] == (n, self@.mapping[n]));
                            } else {
                                assert(out@[out.len() - 1] == (n, self@.mapping[n]));
                            }
                        }
                    }
                },
                None => {},
            }
            i += 1;
        }
        out
    }

    fn validate_impl_node(&self, impl_node: NodeId) -> (r: Result<(), GraphError>)
        ensures
            r == match self@.node_error(impl_node, SubgraphKind::Implementation) {
                Some(err) => Err::<(), GraphError>(err),
                None => Ok(()),
            },
    {
        let found = self.node_subgraph(impl_node)?;
        if found != SubgraphKind::Implementation {
            return Err(
                GraphError::WrongSubgraph {
                    node: impl_node,
                    expected: SubgraphKind::Implementation,
                    found,
                },
            );
        }
        Ok(())
    }

    fn validate_arch_node(&self, arch_node: NodeId) -> (r: Result<(), GraphError>)
        ensures
            r == match self@.node_error(arch_node, SubgraphKind::Architecture) {
                Some(err) => Err::<(), GraphError>(err),
                None => Ok(()),
            },
    {
        let found = self.node_subgraph(arch_node)?;
        if found != SubgraphKind::Architecture {
            return Err(
                GraphError::WrongSubgraph {
                    node: arch_node,
                    expected: SubgraphKind::Architecture,
                    found,
                },
            );
        }
        Ok(())
    }

    /// Permissive insert: maps `impl_node` to `arch_node` whatever it
    /// mapped to before, and returns the node it mapped to before.
    pub fn set_mapping_overwrite(&mut self, impl_node: NodeId, arch_node: NodeId) -> (r: Result<
        Option<NodeId>,
        GraphError,
    >)
        requires
            old(self).wf(),
        ensures
            final(self).wf(),
            match old(self)@.mapping_error(impl_node, arch_node) {
                Some(err) => {
                    &&& r == Err::<Option<NodeId>, GraphError>(err)
                    &&& final(self)@ == old(self)@
                },
                None => {
                    &&& r == Ok::<Option<NodeId>, GraphError>(old(self)@.mapped(impl_node))
                    &&& final(self)@ == old(self)@.with_mapping(
                        old(self)@.mapping.insert(impl_node, arch_node),
                    )
                },
            },
    {
        self.validate_impl_node(impl_node)?;
        self.validate_arch_node(arch_node)?;
        let was = self.maps_to[impl_node as usize];
        self.maps_to[impl_node as usize] = Some(arch_node);
        proof {
            self.lemma_mapping_changed(*old(self));
            assert(self@.mapping =~= old(self)@.mapping.insert(impl_node, arch_node));
        }
        Ok(was)
    }

    /// Re-checks the subgraph membership of both nodes of every mapping
    /// entry, by ascending implementation node, and reports the first
    /// entry that fails. The sweep asks nothing of the mapping table; on
    /// a well-formed graph it finds nothing.
    pub fn validate_all_mappings(&self) -> (r: Result<(), GraphError>)
        requires
            self.store_wf(),
        ensures
            r == self@.mapping_check(),
            r is Ok <==> self@.mapping_valid(),
    {
        let mut i: usize = 0;
        while i < self.maps_to.len()
            invariant
                i <= self.maps_to.len(),
                self.maps_to.len() <= u32::MAX,
                forall|m: NodeId|
                    #[trigger] self@.mapping.contains_key(m) && m < i ==> self@.entry_error(m) is None,
            decreases self.maps_to.len() - i,
        {
            match self.maps_to[i] {
                Some(arch_node) => {
                    assert(self@.mapping.contains_key(i as NodeId));
                    assert(self@.mapping[i as NodeId] == arch_node);
                    match self.validate_impl_node(i as NodeId) {
                        Ok(_) => {},
                        Err(err) => {
                            proof {
                                assert(self@.is_first_invalid(i as NodeId));
                                lemma_mapping_check_fails(self@, i as NodeId);
                            }
                            return Err(err);
                        },
                    }
                    match self.validate_arch_node(arch_node) {
                        Ok(_) => {},
                        Err(err) => {
                            proof {
                                assert(self@.is_first_invalid(i as NodeId));
                                lemma_mapping_check_fails(self@, i as NodeId);
                            }
                            return Err(err);
                        },
                    }
                },
                None => {},
            }
            i += 1;
        }
        proof {
            assert forall|n: NodeId| #[trigger] self@.mapping.contains_key(n) implies self@.entry_error(
                n,
            ) is None by {}
            lemma_mapping_check_passes(self@);
        }
        Ok(())
    }

    /// A change of the mapping table alone leaves the rest of the model
    /// as it was.
    proof fn lemma_mapping_changed(&self, before: ReflexionGraph)
        requires
            self.nodes == before.nodes,
            self.edges == before.edges,
            self.arch_out == before.arch_out,
            self.impl_out == before.impl_out,
            self.provenance == before.provenance,
            self.maps_to.len() == before.maps_to.len(),
        ensures
            self@.nodes == before@.nodes,
            self@.edges == before@.edges,
            self@.provenance == before@.provenance,
            self@.next_edge == before@.next_edge,
            before.repr_ok() ==> self.repr_ok(),
    {
    }
}

} // verus!
