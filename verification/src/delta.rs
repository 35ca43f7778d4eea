//! The incremental updater. For now it trades speed for certainty: it
//! changes one implementation edge and recomputes everything, so that its
//! result is by construction the result of a full run on the changed graph.

use vstd::prelude::*;
use crate::classification::{lemma_impl_edges_listed, lemma_same_inputs_trans};
use crate::graph::{Edge, GraphError, ReflexionGraph, strictly_increasing};
use crate::model::GraphModel;
use crate::types::{EdgeId, SubgraphKind};

verus! {

impl GraphModel {
    /// Why `edge` cannot be added as an implementation edge, if it cannot:
    /// it is of another subgraph, or an endpoint is unusable.
    pub open spec fn impl_add_error(self, edge: Edge) -> Option<GraphError> {
        if edge.subgraph != SubgraphKind::Implementation {
            Some(
                GraphError::WrongSubgraph {
                    node: edge.from,
                    expected: SubgraphKind::Implementation,
                    found: edge.subgraph,
                },
            )
        } else {
            self.edge_error(edge)
        }
    }
}

/// `list` without `id`.
fn without(list: &Vec<EdgeId>, id: EdgeId) -> (kept: Vec<EdgeId>)
    requires
        strictly_increasing(list@),
    ensures
        strictly_increasing(kept@),
        forall|j: int| 0 <= j < kept.len() ==> list@.contains(#[trigger] kept[j]) && kept[j] != id,
        forall|k: int| 0 <= k < list.len() && #[trigger] list[k] != id ==> kept@.contains(list[k]),
{
    let mut kept: Vec<EdgeId> = Vec::new();
    let mut i: usize = 0;
    while i < list.len()
        invariant
            i <= list.len(),
            strictly_increasing(list@),
            strictly_increasing(kept@),
            forall|j: int|
                0 <= j < kept.len() ==> (exists|k: int| 0 <= k < i && list[k] == #[trigger] kept[j])
                    && kept[j] != id,
            forall|k: int| 0 <= k < i && #[trigger] list[k] != id ==> kept@.contains(list[k]),
        decreases list.len() - i,
    {
        let x = list[i];
        if x != id {
            let ghost before = kept@;
            kept.push(x);
            proof {
                assert forall|a: int, b: int| 0 <= a < b < kept.len() implies kept[a] < kept[b] by {
                    if b == kept.len() - 1 {
                        let k = choose|k: int| 0 <= k < i && list[k] == before[a];
                        assert(list[k] < list[i as int]);
                    }
                }
                assert forall|j: int| 0 <= j < kept.len() implies exists|k: int|
                    0 <= k < i + 1 && list[k] == #[trigger] kept[j] by {
                    if j < before.len() {
                        let k = choose|k: int| 0 <= k < i && list[k] == before[j];
                        assert(list[k] == kept[j]);
                    } else {
                        assert(list[i as int] == kept[j]);
                    }
                }
                assert forall|k: int| 0 <= k < i + 1 && #[trigger] list[k] != id implies kept@.contains(
                    list[k],
                ) by {
                    if k < i {
                        let j = choose|j: int| 0 <= j < before.len() && before[j] == list[k];
                        assert(kept@[j] == list[k]);
                    } else {
                        assert(kept@[kept.len() - 1] == list[k]);
                    }
                }
            }
        }
        i += 1;
    }
    kept
}

impl ReflexionGraph {
    /// Removes a live implementation edge from a graph whose propagation
    /// table is empty.
    fn remove_impl_edge(&mut self, id: EdgeId)
        requires
            old(self).wf(),
            old(self)@.has_edge_in(id, SubgraphKind::Implementation),
            old(self)@.provenance == Map::<EdgeId, Set<EdgeId>>::empty(),
        ensures
            final(self).wf(),
            final(self)@ == old(self)@.without_edge(id),
    {
        let from = self.edges[id as usize].unwrap().from;
        assert(old(self)@.edges.contains_key(id));
        self.edges[id as usize] = None;
        let kept = without(&self.impl_out[from as usize], id);
        self.impl_out[from as usize] = kept;
        proof {
            assert(self@.nodes =~= old(self)@.nodes);
            assert(self@.mapping =~= old(self)@.mapping);
            assert(self@.provenance =~= old(self)@.provenance);
            assert(self@.edges =~= old(self)@.without_edge(id).edges);
            assert forall|x: EdgeId| #[trigger] self@.edges.contains_key(x) implies old(
                self,
            )@.edges.contains_key(x) && self@.sources(x) == old(self)@.sources(x) by {}
            assert forall|n: int, j: int|
                0 <= n < self.arch_out@.len() && 0 <= j < self.arch_out@[n].len() implies {
                let x = #[trigger] self.arch_out@[n]@[j];
                &&& (x as int) < self.edges.len()
                &&& self.edges[x as int] matches Some(e)
                &&& e.from == n
                &&& (e.subgraph == SubgraphKind::Implementation) == false
            } by {
                let x = old(self).arch_out@[n]@[j];
                assert(old(self).edges[x as int] is Some);
            }
            assert forall|n: int, j: int|
                0 <= n < self.impl_out@.len() && 0 <= j < self.impl_out@[n].len() implies {
                let x = #[trigger] self.impl_out@[n]@[j];
                &&& (x as int) < self.edges.len()
                &&& self.edges[x as int] matches Some(e)
                &&& e.from == n
                &&& (e.subgraph == SubgraphKind::Implementation) == true
            } by {
                let x = self.impl_out@[n]@[j];
                let was = old(self).impl_out@[n]@;
                if n == from {
                    let k = choose|k: int| 0 <= k < was.len() && was[k] == x;
                    assert(old(self).impl_out@[n]@[k] == x);
                } else {
                    assert(old(self).impl_out@[n]@[j] == x);
                }
                assert(old(self).edges[x as int] is Some);
            }
            assert forall|x: int| 0 <= x < self.edges.len() implies ((#[trigger] self.edges[x]) matches Some(
                e,
            ) ==> (e.subgraph == SubgraphKind::Implementation) == false
                ==> self.arch_out@[e.from as int]@.contains(x as EdgeId)) by {
                assert(old(self).edges[x] is Some || self.edges[x] is None);
                if self.edges[x] is Some {
                    assert(old(self)@.edges.contains_key(x as EdgeId));
                }
            }
            assert forall|x: int| 0 <= x < self.edges.len() implies ((#[trigger] self.edges[x]) matches Some(
                e,
            ) ==> (e.subgraph == SubgraphKind::Implementation) == true
                ==> self.impl_out@[e.from as int]@.contains(x as EdgeId)) by {
                if let Some(e) = self.edges[x] {
                    if e.subgraph == SubgraphKind::Implementation {
                        assert(old(self).edges[x] == Some(e));
                        assert(old(self)@.edges.contains_key(x as EdgeId));
                        assert(old(self)@.node_kind(e.from) is Some);
                        let was = old(self).impl_out@[e.from as int]@;
                        assert(was.contains(x as EdgeId));
                        let k = choose|k: int| 0 <= k < was.len() && was[k] == x as EdgeId;
                        assert(was[k] != id);
                        if e.from == from {
                            assert(kept@.contains(was[k]));
                        } else {
                            assert(self.impl_out@[e.from as int]@[k] == x as EdgeId);
                        }
                    }
                }
            }
        }
    }

    /// Adds one implementation edge and recomputes the classification.
    /// The result is that of a full run on the graph with the edge in it.
    pub fn add_impl_edge_and_recompute(&mut self, edge: Edge) -> (r: Result<EdgeId, GraphError>)
        requires
            old(self).wf(),
            old(self)@.next_edge + old(self)@.impl_edges().len() + 2 <= u32::MAX,
        ensures
            final(self).wf(),
            match old(self)@.impl_add_error(edge) {
                Some(err) => {
                    &&& r == Err::<EdgeId, GraphError>(err)
                    &&& final(self)@ == old(self)@
                },
                None => {
                    &&& r == Ok::<EdgeId, GraphError>(old(self)@.next_edge as EdgeId)
                    &&& final(self)@ == old(self)@.with_edge(edge).recomputed()
                    &&& old(self)@.with_edge(edge).same_inputs(final(self)@)
                    &&& final(self)@.classified()
                },
            },
    {
        if edge.subgraph != SubgraphKind::Implementation {
            return Err(
                GraphError::WrongSubgraph {
                    node: edge.from,
                    expected: SubgraphKind::Implementation,
                    found: edge.subgraph,
                },
            );
        }
        let id = self.add_edge(edge)?;
        let ghost added = self@;
        proof {
            lemma_impl_edges_listed(old(self)@);
            assert(added.impl_edges() =~= old(self)@.impl_edges().insert(id));
        }
        self.clear_propagated_edges();
        proof {
            assert(self@.impl_edges() =~= added.impl_edges());
            assert(self@.cleared().edges =~= added.cleared().edges);
            assert(self@.cleared() == added.cleared());
        }
        let _ = self.run_from_scratch();
        Ok(id)
    }

    /// Removes one implementation edge and recomputes the classification.
    /// The result is that of a full run on the graph without the edge.
    pub fn remove_impl_edge_and_recompute(&mut self, edge_id: EdgeId) -> (r: Result<(), GraphError>)
        requires
            old(self).wf(),
            old(self)@.next_edge + old(self)@.impl_edges().len() <= u32::MAX,
        ensures
            final(self).wf(),
            match old(self)@.impl_edge_error(edge_id) {
                Some(err) => {
                    &&& r == Err::<(), GraphError>(err)
                    &&& final(self)@ == old(self)@
                },
                None => {
                    &&& r == Ok::<(), GraphError>(())
                    &&& final(self)@ == old(self)@.without_edge(edge_id).recomputed()
                    &&& old(self)@.without_edge(edge_id).same_inputs(final(self)@)
                    &&& final(self)@.classified()
                },
            },
    {
        if edge_id as usize >= self.edges.len() {
            return Err(GraphError::EdgeNotFound(edge_id));
        }
        match self.edges[edge_id as usize] {
            None => {
                return Err(GraphError::EdgeNotFound(edge_id));
            },
            Some(e) => {
                if e.subgraph != SubgraphKind::Implementation {
                    return Err(
                        GraphError::WrongSubgraph {
                            node: e.from,
                            expected: SubgraphKind::Implementation,
                            found: e.subgraph,
                        },
                    );
                }
            },
        }
        assert(old(self)@.edges.contains_key(edge_id));
        self.clear_propagated_edges();
        self.remove_impl_edge(edge_id);
        let ghost removed = old(self)@.without_edge(edge_id);
        proof {
            lemma_impl_edges_listed(old(self)@);
            assert(self@.impl_edges() =~= old(self)@.impl_edges().remove(edge_id));
            assert(self@.cleared().edges =~= removed.cleared().edges);
            assert(self@.cleared() == removed.cleared());
            assert forall|id: EdgeId|
                #![trigger removed.edges.contains_key(id)]
                #![trigger self@.edges.contains_key(id)]
                (removed.edges.contains_key(id) && removed.edges[id].subgraph
                    != SubgraphKind::Propagated) <==> (self@.edges.contains_key(id)
                    && self@.edges[id].subgraph != SubgraphKind::Propagated) by {}
            assert(removed.same_inputs(self@));
        }
        let ghost base = self@;
        let _ = self.run_from_scratch();
        proof {
            lemma_same_inputs_trans(removed, base, self@);
        }
        Ok(())
    }
}

} // verus!
