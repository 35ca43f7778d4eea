//! Lifting: matches a propagated relationship against the specified
//! architecture edges and classifies the edges involved.
//!
//! Specified: an architecture edge exists. Convergent: specified and
//! implemented. Divergent: implemented and not specified. Absent: specified
//! and not implemented.

use vstd::prelude::*;
use crate::graph::{GraphError, ReflexionGraph};
use crate::model::{lemma_edge_data_wf, lemma_first_match_stable};
use crate::state::EdgeState;
use crate::types::{EdgeId, EdgeKind, NodeId, SubgraphKind};

verus! {

impl ReflexionGraph {
    /// The architecture edge that exactly matches (from, to, kind); where
    /// several do, the oldest. Propagated edges are never taken for one.
    pub fn lift_exact(&self, from_arch: NodeId, to_arch: NodeId, kind: &EdgeKind) -> (r: Result<
        Option<EdgeId>,
        GraphError,
    >)
        requires
            self.wf(),
        ensures
            r == Ok::<Option<EdgeId>, GraphError>(self@.lift((from_arch, to_arch, *kind))),
    {
        Ok(self.find_in_arch_space(SubgraphKind::Architecture, from_arch, to_arch, *kind))
    }

    /// Propagates one implementation edge, then lifts it against the
    /// specified architecture edges.
    pub fn propagate_and_lift(&mut self, impl_edge_id: EdgeId) -> (r: Result<(), GraphError>)
        requires
            old(self).wf(),
            old(self)@.can_propagate(impl_edge_id),
            old(self)@.can_lift(impl_edge_id),
        ensures
            final(self).wf(),
            match old(self)@.impl_edge_error(impl_edge_id) {
                Some(err) => {
                    &&& r == Err::<(), GraphError>(err)
                    &&& final(self)@ == old(self)@
                },
                None => {
                    &&& r == Ok::<(), GraphError>(())
                    &&& final(self)@ == old(self)@.lifted(impl_edge_id)
                },
            },
    {
        let (from_arch, to_arch, kind, prop_id) = match self.project(impl_edge_id)? {
            None => {
                return Ok(());
            },
            Some(found) => found,
        };
        let ghost t = (from_arch, to_arch, kind);
        let ghost g = self@;
        proof {
            assert(old(self)@.edges.contains_key(impl_edge_id));
            assert(g.edges.contains_key(prop_id));
            assert(g.edges.contains_key(impl_edge_id));
            assert forall|id: EdgeId|
                old(self)@.is_match(id, SubgraphKind::Architecture, t) == g.is_match(
                    id,
                    SubgraphKind::Architecture,
                    t,
                ) by {}
            lemma_first_match_stable(old(self)@, g, SubgraphKind::Architecture, t);
        }
        match self.lift_exact(from_arch, to_arch, &kind)? {
            Some(arch_eid) => {
                proof {
                    assert(g.is_first_match(arch_eid, SubgraphKind::Architecture, t));
                    assert(g.edges[arch_eid] == old(self)@.edges[arch_eid]);
                }
                let counter = self.edges[arch_eid as usize].unwrap().counter;
                self.set_edge_data(arch_eid, EdgeState::Convergent, counter + 1);
                proof {
                    lemma_edge_data_wf(g, arch_eid, EdgeState::Convergent, (counter + 1) as u32);
                }
                self.mark(prop_id, EdgeState::Allowed);
                self.mark(impl_edge_id, EdgeState::Allowed);
            },
            None => {
                self.mark(prop_id, EdgeState::Divergent);
                self.mark(impl_edge_id, EdgeState::Divergent);
            },
        }
        Ok(())
    }
}

} // verus!
