//! The propagation engine: projects implementation edges into
//! architecture space through the mapping.

use vstd::prelude::*;
use crate::graph::{Edge, GraphError, ReflexionGraph};
use crate::model::{GraphModel, lemma_edge_data_wf, lemma_first_match_some};
use crate::state::EdgeState;
use crate::types::{EdgeId, EdgeKind, NodeId, SubgraphKind};
use crate::util::lemma_distinct_len;

verus! {

impl ReflexionGraph {
    /// Returns the propagated edge with the given triple, creating it
    /// where there is none yet. An architecture edge with the same triple
    /// is never taken for it.
    pub fn get_or_create_propagated_edge(
        &mut self,
        from_arch: NodeId,
        to_arch: NodeId,
        kind: EdgeKind,
    ) -> (r: Result<EdgeId, GraphError>)
        requires
            old(self).wf(),
            old(self)@.propagated_for((from_arch, to_arch, kind)) is None ==> old(self)@.next_edge
                < u32::MAX,
        ensures
            final(self).wf(),
            match old(self)@.propagated_for((from_arch, to_arch, kind)) {
                Some(p) => {
                    &&& r == Ok::<EdgeId, GraphError>(p)
                    &&& final(self)@ == old(self)@
                },
                None => match old(self)@.edge_error(
                    GraphModel::propagated_edge((from_arch, to_arch, kind)),
                ) {
                    Some(err) => {
                        &&& r == Err::<EdgeId, GraphError>(err)
                        &&& final(self)@ == old(self)@
                    },
                    None => {
                        &&& r == Ok::<EdgeId, GraphError>(old(self)@.next_edge as EdgeId)
                        &&& final(self)@ == old(self)@.with_edge(
                            GraphModel::propagated_edge((from_arch, to_arch, kind)),
                        )
                    },
                },
            },
    {
        match self.find_in_arch_space(SubgraphKind::Propagated, from_arch, to_arch, kind) {
            Some(eid) => Ok(eid),
            None => {
                let new_edge = Edge {
                    id: 0,
                    from: from_arch,
                    to: to_arch,
                    kind,
                    subgraph: SubgraphKind::Propagated,
                    state: EdgeState::Undefined,
                    counter: 0,
                };
                self.add_edge(new_edge)
            },
        }
    }

    /// Propagates one implementation edge into architecture space.
    ///
    /// With an unmapped endpoint the edge becomes `Unmapped` and nothing
    /// else changes. Otherwise the propagated edge for the mapped triple is
    /// found or created, the edge joins its sources, and its counter is the
    /// number of its sources.
    pub fn propagate_impl_edge(&mut self, impl_edge_id: EdgeId) -> (r: Result<(), GraphError>)
        requires
            old(self).wf(),
            old(self)@.can_propagate(impl_edge_id),
        ensures
            final(self).wf(),
            match old(self)@.impl_edge_error(impl_edge_id) {
                Some(err) => {
                    &&& r == Err::<(), GraphError>(err)
                    &&& final(self)@ == old(self)@
                },
                None => {
                    &&& r == Ok::<(), GraphError>(())
                    &&& final(self)@ == old(self)@.propagated(impl_edge_id)
                },
            },
    {
        match self.project(impl_edge_id) {
            Ok(_) => Ok(()),
            Err(err) => Err(err),
        }
    }

    /// Propagates one implementation edge and returns the triple it
    /// projects onto together with the propagated edge that stands for
    /// it; `None` where an endpoint is unmapped.
    pub(crate) fn project(&mut self, impl_edge_id: EdgeId) -> (r: Result<
        Option<(NodeId, NodeId, EdgeKind, EdgeId)>,
        GraphError,
    >)
        requires
            old(self).wf(),
            old(self)@.can_propagate(impl_edge_id),
        ensures
            final(self).wf(),
            match old(self)@.impl_edge_error(impl_edge_id) {
                Some(err) => {
                    &&& r == Err::<Option<(NodeId, NodeId, EdgeKind, EdgeId)>, GraphError>(err)
                    &&& final(self)@ == old(self)@
                },
                None => {
                    &&& r == Ok::<Option<(NodeId, NodeId, EdgeKind, EdgeId)>, GraphError>(
                        match old(self)@.projection(impl_edge_id) {
                            Some(t) => Some(
                                (t.0, t.1, t.2, old(self)@.propagation_target(t)),
                            ),
                            None => None,
                        },
                    )
                    &&& final(self)@ == old(self)@.propagated(impl_edge_id)
                },
            },
    {
        if impl_edge_id as usize >= self.edges.len() {
            return Err(GraphError::EdgeNotFound(impl_edge_id));
        }
        let (from_impl, to_impl, kind) = match self.edges[impl_edge_id as usize] {
            None => {
                return Err(GraphError::EdgeNotFound(impl_edge_id));
            },
            Some(e) => {
                if e.subgraph != SubgraphKind::Implementation {
                    return Err(
                        GraphError::WrongSubgraph {
                            node: e.from,
                            expected: SubgraphKind::Implementation,
                            found: e.subgraph,
                        },
                    );
                }
                (e.from, e.to, e.kind)
            },
        };
        assert(old(self)@.edges.contains_key(impl_edge_id));
        let from_arch = match self.maps_to[from_impl as usize] {
            Some(x) => x,
            None => {
                self.mark(impl_edge_id, EdgeState::Unmapped);
                return Ok(None);
            },
        };
        let to_arch = match self.maps_to[to_impl as usize] {
            Some(x) => x,
            None => {
                self.mark(impl_edge_id, EdgeState::Unmapped);
                return Ok(None);
            },
        };
        let ghost t = (from_arch, to_arch, kind);
        assert(old(self)@.projection(impl_edge_id) == Some(t));
        assert(old(self)@.mapping.contains_key(from_impl));
        assert(old(self)@.mapping.contains_key(to_impl));
        let prop_id = self.get_or_create_propagated_edge(from_arch, to_arch, kind)?;
        let ghost mid = self@;
        proof {
            assert(mid == old(self)@.with_propagated(t));
            assert(prop_id == old(self)@.propagation_target(t));
            if old(self)@.propagated_for(t) is Some {
                lemma_first_match_some(old(self)@, SubgraphKind::Propagated, t);
            }
            assert(mid.has_edge_in(prop_id, SubgraphKind::Propagated));
        }
        self.record_source(prop_id, impl_edge_id);
        Ok(Some((from_arch, to_arch, kind, prop_id)))
    }

    /// Sets the state of a live edge.
    pub(crate) fn mark(&mut self, id: EdgeId, state: EdgeState)
        requires
            old(self).wf(),
            old(self)@.edges.contains_key(id),
        ensures
            final(self).wf(),
            final(self)@ == old(self)@.with_state(id, state),
    {
        let counter = self.edges[id as usize].unwrap().counter;
        self.set_edge_data(id, state, counter);
        proof {
            lemma_edge_data_wf(old(self)@, id, state, counter);
        }
    }

    /// Adds implementation edge `source` to the sources of propagated edge
    /// `prop_id`, and makes the counter of `prop_id` the number of its
    /// sources.
    fn record_source(&mut self, prop_id: EdgeId, source: EdgeId)
        requires
            old(self).wf(),
            old(self)@.has_edge_in(prop_id, SubgraphKind::Propagated),
            old(self)@.has_edge_in(source, SubgraphKind::Implementation),
        ensures
            final(self).wf(),
            final(self)@ == (GraphModel {
                edges: old(self)@.edges.insert(
                    prop_id,
                    Edge {
                        counter: old(self)@.sources(prop_id).insert(source).len() as u32,
                        ..old(self)@.edges[prop_id]
                    },
                ),
                provenance: old(self)@.provenance.insert(
                    prop_id,
                    old(self)@.sources(prop_id).insert(source),
                ),
                ..old(self)@
            }),
    {
        let ghost before = self.provenance[prop_id as int]@;
        let ghost set_before = old(self)@.sources(prop_id);
        proof {
            if before.len() == 0 {
                assert(!old(self)@.provenance.contains_key(prop_id));
                assert(before.to_set() =~= Set::<EdgeId>::empty());
            } else {
                assert(old(self)@.provenance.contains_key(prop_id));
            }
            assert(set_before == before.to_set());
            assert forall|j: int| 0 <= j < before.len() implies (#[trigger] before[j] as nat)
                < self.edges.len() by {
                assert(before.to_set().contains(before[j]));
                assert(old(self)@.provenance.contains_key(prop_id));
                assert(old(self)@.has_edge_in(before[j], SubgraphKind::Implementation));
            }
            lemma_distinct_len(before, self.edges.len() as nat);
        }
        let mut known = false;
        let mut i: usize = 0;
        while i < self.provenance[prop_id as usize].len()
            invariant
                self.provenance[prop_id as int]@ == before,
                (prop_id as int) < self.provenance.len(),
                i <= before.len(),
                known <==> exists|j: int| 0 <= j < i && before[j] == source,
            decreases before.len() - i,
        {
            if self.provenance[prop_id as usize][i] == source {
                known = true;
            }
            i += 1;
        }
        assert(known <==> before.contains(source));
        if !known {
            self.provenance[prop_id as usize].push(source);
            let ghost after = self.provenance[prop_id as int]@;
            proof {
                assert(after == before.push(source));
                assert(after.no_duplicates());
                before.lemma_push_to_set_commute(source);
                assert forall|j: int| 0 <= j < after.len() implies (#[trigger] after[j] as nat)
                    < self.edges.len() by {
                    if j < before.len() {
                        assert(after[j] == before[j]);
                    }
                }
                lemma_distinct_len(after, self.edges.len() as nat);
            }
            let was = self.edges[prop_id as usize].unwrap();
            let n: u32 = self.provenance[prop_id as usize].len() as u32;
            self.edges[prop_id as usize] = Some(Edge { counter: n, ..was });
            proof {
                assert(self@.nodes =~= old(self)@.nodes);
                assert(self@.mapping =~= old(self)@.mapping);
                assert(self@.provenance =~= old(self)@.provenance.insert(
                    prop_id,
                    set_before.insert(source),
                ));
                assert(self@.edges =~= old(self)@.edges.insert(
                    prop_id,
                    Edge {
                        counter: set_before.insert(source).len() as u32,
                        ..old(self)@.edges[prop_id]
                    },
                ));
                self.lemma_same_shape(*old(self));
            }
        } else {
            proof {
                assert(set_before.insert(source) =~= set_before);
                assert(self@.provenance =~= old(self)@.provenance.insert(
                    prop_id,
                    set_before.insert(source),
                ));
                assert(self@.edges =~= old(self)@.edges.insert(
                    prop_id,
                    Edge {
                        counter: set_before.insert(source).len() as u32,
                        ..old(self)@.edges[prop_id]
                    },
                ));
            }
        }
    }
}

} // verus!
