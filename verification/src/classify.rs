//! The full-recompute orchestrator.

use vstd::prelude::*;
use crate::classification::{
    lemma_close, lemma_impl_edges_below, lemma_impl_edges_listed, lemma_same_inputs,
    lemma_same_inputs_trans, lemma_start, lemma_step,
};
use crate::graph::{Edge, GraphError, ReflexionGraph};
use crate::model::{finalize_edge, lemma_finalized_wf};
use crate::state::EdgeState;
use crate::types::{EdgeId, SubgraphKind};
use crate::util::{below, lemma_below_finite, lemma_below_step};

verus! {

impl ReflexionGraph {
    /// The live implementation edges, oldest first.
    fn implementation_edges(&self) -> (order: Vec<EdgeId>)
        requires
            self.wf(),
        ensures
            order@ == self@.impl_edges_below(self@.next_edge),
    {
        let mut order: Vec<EdgeId> = Vec::new();
        let mut i: usize = 0;
        while i < self.edges.len()
            invariant
                i <= self.edges.len(),
                self.edges.len() <= u32::MAX,
                order@ == self@.impl_edges_below(i as nat),
            decreases self.edges.len() - i,
        {
            match self.edges[i] {
                Some(e) => {
                    if e.subgraph == SubgraphKind::Implementation {
                        order.push(i as EdgeId);
                    }
                },
                None => {},
            }
            i += 1;
        }
        order
    }

    /// Runs the whole analysis from scratch: removes the propagated edges
    /// of an earlier run, resets states and counters, propagates and lifts
    /// every implementation edge, and normalises the architecture edges.
    ///
    /// Afterwards the graph is classified: every edge is in the one state
    /// that the mapping and the specified architecture edges give it.
    pub fn run_from_scratch(&mut self) -> (r: Result<(), GraphError>)
        requires
            old(self).wf(),
            old(self)@.next_edge + old(self)@.impl_edges().len() <= u32::MAX,
        ensures
            final(self).wf(),
            r == Ok::<(), GraphError>(()),
            final(self)@ == old(self)@.recomputed(),
            old(self)@.same_inputs(final(self)@),
            final(self)@.classified(),
            old(self)@.next_edge <= final(self)@.next_edge <= old(self)@.next_edge + old(
                self,
            )@.impl_edges().len(),
    {
        self.clear_propagated_edges();
        self.init_states();
        let ghost start = self@;
        let order = self.implementation_edges();
        proof {
            lemma_start(old(self)@);
            lemma_same_inputs(old(self)@, start);
            lemma_impl_edges_listed(start);
            lemma_impl_edges_listed(old(self)@);
            lemma_impl_edges_below(start, start.next_edge);
            assert(order@.take(0) =~= Seq::<EdgeId>::empty());
            assert(order@.take(0).to_set() =~= Set::<EdgeId>::empty());
            lemma_same_inputs_trans(start, old(self)@, start);
        }
        let mut i: usize = 0;
        while i < order.len()
            invariant
                i <= order.len(),
                self.wf(),
                start.wf(),
                order@ == start.impl_edges_below(start.next_edge),
                order@.no_duplicates(),
                forall|j: int|
                    0 <= j < order.len() ==> start.has_edge_in(
                        #[trigger] order@[j],
                        SubgraphKind::Implementation,
                    ),
                start.next_edge + order.len() <= u32::MAX,
                self@ == start.lifted_all(order@.take(i as int)),
                self@.classified_over(order@.take(i as int).to_set(), false),
                start.same_inputs(self@),
                start.next_edge <= self@.next_edge <= start.next_edge + i,
            decreases order.len() - i,
        {
            let eid = order[i];
            let ghost prev = self@;
            let ghost done = order@.take(i as int).to_set();
            proof {
                lemma_same_inputs(start, prev);
                assert(prev.impl_edges().contains(eid));
                assert(!done.contains(eid)) by {
                    if done.contains(eid) {
                        let j = choose|j: int|
                            0 <= j < order@.take(i as int).len() && order@.take(i as int)[j] == eid;
                        assert(order@[j] == order@[i as int]);
                    }
                }
                lemma_step(prev, done, eid);
            }
            let _ = self.propagate_and_lift(eid);
            proof {
                let next = order@.take(i + 1);
                assert(next.drop_last() =~= order@.take(i as int));
                assert(next.last() == eid);
                order@.take(i as int).lemma_push_to_set_commute(eid);
                assert(next =~= order@.take(i as int).push(eid));
                lemma_same_inputs_trans(start, prev, self@);
            }
            i += 1;
        }
        proof {
            assert(order@.take(order.len() as int) =~= order@);
            lemma_same_inputs(start, self@);
            lemma_close(self@);
            lemma_same_inputs_trans(start, self@, self@.finalized());
            lemma_same_inputs_trans(old(self)@, start, self@.finalized());
        }
        self.finalize_architecture_states();
        Ok(())
    }

    /// The closing normalisation of a classification run: an architecture
    /// edge that is still `Specified` becomes `Absent` where its counter is
    /// 0 and `Convergent` otherwise.
    pub fn finalize_architecture_states(&mut self)
        requires
            old(self).wf(),
        ensures
            final(self).wf(),
            final(self)@ == old(self)@.finalized(),
    {
        let mut i: usize = 0;
        while i < self.edges.len()
            invariant
                i <= self.edges.len(),
                self.edges.len() == old(self).edges.len(),
                self.nodes == old(self).nodes,
                self.maps_to == old(self).maps_to,
                self.arch_out == old(self).arch_out,
                self.impl_out == old(self).impl_out,
                self.provenance == old(self).provenance,
                forall|j: int|
                    0 <= j < i ==> #[trigger] self.edges[j] == match old(self).edges[j] {
                        Some(e) => Some(finalize_edge(e)),
                        None => None,
                    },
                forall|j: int| i <= j < self.edges.len() ==> self.edges[j] == old(self).edges[j],
            decreases self.edges.len() - i,
        {
            match self.edges[i] {
                Some(e) => {
                    if e.subgraph == SubgraphKind::Architecture && e.state == EdgeState::Specified {
                        if e.counter == 0 {
                            self.edges[i] = Some(Edge { state: EdgeState::Absent, ..e });
                        } else {
                            self.edges[i] = Some(Edge { state: EdgeState::Convergent, ..e });
                        }
                    }
                },
                None => {},
            }
            i += 1;
        }
        proof {
            assert(self@.nodes =~= old(self)@.nodes);
            assert(self@.mapping =~= old(self)@.mapping);
            assert(self@.provenance =~= old(self)@.provenance);
            assert(self@.edges =~= old(self)@.finalized().edges);
            self.lemma_same_shape(*old(self));
            lemma_finalized_wf(old(self)@);
        }
    }

    /// The number of violations: the live edges that are `Divergent` or
    /// `Absent`.
    pub fn count_violations(&self) -> (n: usize)
        requires
            self.wf(),
        ensures
            self@.violations().finite(),
            n == self@.violations().len(),
    {
        let ghost p = |i: u32|
            self.edges[i as int] matches Some(e) && e.state.spec_is_violation();
        let mut count: usize = 0;
        let mut i: usize = 0;
        proof {
            lemma_below_finite(0, p);
        }
        while i < self.edges.len()
            invariant
                i <= self.edges.len(),
                self.edges.len() <= u32::MAX,
                p == |i: u32| self.edges[i as int] matches Some(e) && e.state.spec_is_violation(),
                count == below(i as nat, p).len(),
                count <= i,
            decreases self.edges.len() - i,
        {
            proof {
                lemma_below_step(i as nat, p);
            }
            match self.edges[i] {
                Some(e) => {
                    if e.state.is_violation() {
                        count += 1;
                    }
                },
                None => {},
            }
            i += 1;
        }
        proof {
            lemma_below_finite(i as nat, p);
            assert(self@.violations() =~= below(i as nat, p));
        }
        count
    }
}

} // verus!
