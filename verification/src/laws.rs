//! What holds of every classification: it is a function of the nodes, the
//! mapping and the architecture and implementation edges alone.

use vstd::prelude::*;
use crate::classification::{
    lemma_impl_edges_listed, lemma_same_inputs, lemma_same_inputs_trans, lemma_start,
};
use crate::graph::Edge;
use crate::model::{
    GraphModel, Triple, lemma_cleared_wf, lemma_first_match_some, lemma_first_match_stable,
    lemma_initialized_wf, lemma_with_edge_wf,
};
use crate::state::EdgeState;
use crate::steps::{lemma_any_order, lemma_recomputed};
use crate::types::{EdgeId, SubgraphKind};
use crate::util::lemma_bounded_set_len;

verus! {

impl GraphModel {
    /// The two graphs carry the same classification: every architecture
    /// and implementation edge of the one is an edge of the other, with
    /// the same state and counter; and a triple has a propagated edge in
    /// both or in neither, with the same state, counter and sources. Only
    /// the handles of the propagated edges may differ.
    pub open spec fn agrees_with(self, other: GraphModel) -> bool {
        &&& forall|id: EdgeId| #[trigger]
            self.edges.contains_key(id) && self.edges[id].subgraph != SubgraphKind::Propagated ==> {
                &&& other.edges.contains_key(id)
                &&& self.edges[id] == other.edges[id]
            }
        &&& forall|t: Triple|
            match (#[trigger] self.propagated_for(t), other.propagated_for(t)) {
                (Some(p), Some(q)) => {
                    &&& self.edges[p].state == other.edges[q].state
                    &&& self.edges[p].counter == other.edges[q].counter
                    &&& self.sources(p) == other.sources(q)
                },
                (None, None) => true,
                _ => false,
            }
    }
}

/// A triple that has a propagated edge in a classified graph has one in
/// every classified graph with the same inputs.
proof fn lemma_propagated_in_both(a: GraphModel, b: GraphModel, t: Triple)
    requires
        a.wf(),
        b.wf(),
        a.same_inputs(b),
        a.classified(),
        b.classified(),
        a.propagated_for(t) is Some,
    ensures
        b.propagated_for(t) is Some,
{
    lemma_same_inputs(a, b);
    lemma_first_match_some(a, SubgraphKind::Propagated, t);
    let p = a.propagated_for(t).unwrap();
    assert(a.has_edge_in(p, SubgraphKind::Propagated));
    assert(a.triple_of(p) == t);
    let all = a.impl_edges();
    assert(a.provenance[p] == a.onto(all, t));
    assert(a.provenance[p].len() > 0);
    let e = a.provenance[p].choose();
    assert(a.provenance[p].contains(e)) by {
        if a.provenance[p].len() != 0 {
            vstd::set_lib::lemma_set_empty_equivalency_len(a.provenance[p]);
        }
    }
    assert(a.onto(all, t).contains(e));
    assert(b.impl_edges().contains(e));
    assert(a.has_edge_in(e, SubgraphKind::Implementation));
    assert(b.projection(e) == Some(t));
}

/// Classification is determined by the inputs: two classified graphs with
/// the same nodes, mapping, architecture edges and implementation edges
/// carry the same classification.
pub proof fn law_classification_is_determined(a: GraphModel, b: GraphModel)
    requires
        a.wf(),
        b.wf(),
        a.same_inputs(b),
        a.classified(),
        b.classified(),
    ensures
        a.agrees_with(b),
{
    lemma_same_inputs(a, b);
    let all = a.impl_edges();
    assert forall|id: EdgeId| #[trigger]
        a.edges.contains_key(id) && a.edges[id].subgraph != SubgraphKind::Propagated implies {
        &&& b.edges.contains_key(id)
        &&& a.edges[id] == b.edges[id]
    } by {
        assert(b.edges.contains_key(id));
        if a.edges[id].subgraph == SubgraphKind::Implementation {
            assert(a.has_edge_in(id, SubgraphKind::Implementation));
            assert(b.has_edge_in(id, SubgraphKind::Implementation));
            assert(a.verdict(id) == b.verdict(id));
            assert(all.contains(id));
        } else {
            assert(a.has_edge_in(id, SubgraphKind::Architecture));
            assert(b.has_edge_in(id, SubgraphKind::Architecture));
            assert(a.support(all, id) == b.support(all, id));
        }
    }
    assert forall|t: Triple|
        match (#[trigger] a.propagated_for(t), b.propagated_for(t)) {
            (Some(p), Some(q)) => {
                &&& a.edges[p].state == b.edges[q].state
                &&& a.edges[p].counter == b.edges[q].counter
                &&& a.sources(p) == b.sources(q)
            },
            (None, None) => true,
            _ => false,
        } by {
        if a.propagated_for(t) is Some {
            lemma_propagated_in_both(a, b, t);
        }
        if b.propagated_for(t) is Some {
            lemma_same_inputs_trans(b, a, b);
            lemma_propagated_in_both(b, a, t);
        }
        if a.propagated_for(t) is Some {
            let p = a.propagated_for(t).unwrap();
            let q = b.propagated_for(t).unwrap();
            lemma_first_match_some(a, SubgraphKind::Propagated, t);
            lemma_first_match_some(b, SubgraphKind::Propagated, t);
            assert(a.has_edge_in(p, SubgraphKind::Propagated));
            assert(b.has_edge_in(q, SubgraphKind::Propagated));
            assert(a.triple_of(p) == t);
            assert(b.triple_of(q) == t);
            assert(a.onto(all, t) == b.onto(all, t));
            assert(a.triple_verdict(t) == b.triple_verdict(t));
            assert(a.edges.contains_key(p));
            assert(b.edges.contains_key(q));
        }
    }
}

/// Idempotence: recomputing a graph that was just recomputed gives the
/// same states and counters.
pub proof fn law_recompute_is_idempotent(g: GraphModel)
    requires
        g.wf(),
        g.next_edge + 2 * g.impl_edges().len() <= u32::MAX,
    ensures
        g.recomputed().agrees_with(g.recomputed().recomputed()),
{
    lemma_cleared_wf(g);
    lemma_recomputed(g);
    let once = g.recomputed();
    lemma_cleared_wf(once);
    lemma_recomputed(once);
    law_classification_is_determined(once, once.recomputed());
}

/// Order independence: whatever the order in which the implementation
/// edges of a freshly reset graph are propagated and lifted, the states
/// and counters at the end are the same.
pub proof fn law_order_is_immaterial(g: GraphModel, first: Seq<EdgeId>, second: Seq<EdgeId>)
    requires
        g.wf(),
        first.no_duplicates(),
        second.no_duplicates(),
        first.to_set() == g.impl_edges(),
        second.to_set() == g.impl_edges(),
        g.next_edge + g.impl_edges().len() <= u32::MAX,
    ensures
        ({
            let start = g.cleared().initialized();
            start.lifted_all(first).finalized().agrees_with(
                start.lifted_all(second).finalized(),
            )
        }),
{
    let start = g.cleared().initialized();
    lemma_cleared_wf(g);
    lemma_initialized_wf(g.cleared());
    lemma_start(g);
    lemma_same_inputs(g, start);
    first.unique_seq_to_set();
    second.unique_seq_to_set();
    lemma_any_order(start, first);
    lemma_any_order(start, second);
    let a = start.lifted_all(first).finalized();
    let b = start.lifted_all(second).finalized();
    lemma_same_inputs(start, a);
    lemma_same_inputs_trans(a, start, b);
    law_classification_is_determined(a, b);
}

/// Counters count sources: in a classified graph the counter of a
/// propagated edge is the size of its provenance set, which holds the
/// implementation edges that project onto its triple, and the counter of
/// an architecture edge is the number of implementation edges that lift
/// onto it.
pub proof fn law_counters_count_sources(g: GraphModel)
    requires
        g.wf(),
        g.classified(),
    ensures
        forall|p: EdgeId| #[trigger]
            g.has_edge_in(p, SubgraphKind::Propagated) ==> {
                &&& g.provenance.contains_key(p)
                &&& g.edges[p].counter == g.provenance[p].len()
                &&& g.provenance[p] == g.onto(g.impl_edges(), g.triple_of(p))
            },
        forall|x: EdgeId| #[trigger]
            g.has_edge_in(x, SubgraphKind::Architecture) ==> g.edges[x].counter == g.support(
                g.impl_edges(),
                x,
            ).len(),
{
    assert forall|p: EdgeId| #[trigger] g.has_edge_in(p, SubgraphKind::Propagated) implies {
        &&& g.provenance.contains_key(p)
        &&& g.edges[p].counter == g.provenance[p].len()
        &&& g.provenance[p] == g.onto(g.impl_edges(), g.triple_of(p))
    } by {
        assert(g.edges.contains_key(p));
    }
}

/// The boundary of the mapping: propagating an implementation edge with an
/// unmapped endpoint marks it `Unmapped` and changes nothing else; no
/// propagated edge appears and the propagation table gains no entry.
/// Lifting it adds nothing to that.
pub proof fn law_unmapped_edge_creates_nothing(g: GraphModel, e: EdgeId)
    requires
        g.has_edge_in(e, SubgraphKind::Implementation),
        g.projection(e) is None,
    ensures
        g.propagated(e) == g.with_state(e, EdgeState::Unmapped),
        g.lifted(e) == g.propagated(e),
        g.propagated(e).edges[e].state == EdgeState::Unmapped,
        g.propagated(e).provenance == g.provenance,
        g.propagated(e).next_edge == g.next_edge,
        g.propagated(e).edges.dom() == g.edges.dom(),
        forall|id: EdgeId| id != e ==> g.propagated(e).edges[id] == g.edges[id],
{
    assert(g.propagated(e).edges.dom() =~= g.edges.dom());
}

/// Adding an implementation edge does not change what the edges that were
/// there project onto, nor what a triple lifts onto.
proof fn lemma_added_edge_frame(g: GraphModel, edge: Edge)
    requires
        g.wf(),
        g.impl_add_error(edge) is None,
        g.next_edge < u32::MAX,
    ensures
        ({
            let added = g.with_edge(edge);
            &&& added.impl_edges() == g.impl_edges().insert(g.next_edge as EdgeId)
            &&& !g.impl_edges().contains(g.next_edge as EdgeId)
            &&& forall|e: EdgeId| #[trigger]
                g.has_edge_in(e, SubgraphKind::Implementation) ==> added.projection(e)
                    == g.projection(e) && added.verdict(e) == g.verdict(e)
            &&& forall|t: Triple| #[trigger] added.lift(t) == g.lift(t)
        }),
{
    let added = g.with_edge(edge);
    let id = g.next_edge as EdgeId;
    assert(!g.edges.contains_key(id));
    assert(added.impl_edges() =~= g.impl_edges().insert(id));
    assert forall|t: Triple| #[trigger] added.lift(t) == g.lift(t) by {
        assert forall|x: EdgeId|
            g.is_match(x, SubgraphKind::Architecture, t) == added.is_match(
                x,
                SubgraphKind::Architecture,
                t,
            ) by {}
        lemma_first_match_stable(g, added, SubgraphKind::Architecture, t);
    }
    assert forall|e: EdgeId| #[trigger]
        g.has_edge_in(e, SubgraphKind::Implementation) implies added.projection(e) == g.projection(e)
        && added.verdict(e) == g.verdict(e) by {
        assert(g.edges.contains_key(e));
        if let Some(t) = g.projection(e) {
            assert(added.lift(t) == g.lift(t));
        }
    }
}

/// Add and remove, round trip: in a classified graph, adding an
/// implementation edge and recomputing gives the new edge its verdict,
/// leaves every other implementation edge as it was and every convergent
/// architecture edge convergent, and leaves the architecture edges
/// untouched where the new edge is not `Allowed`. Removing the edge again
/// and recomputing restores the states and counters from before.
pub proof fn law_add_then_remove_restores(g: GraphModel, edge: Edge)
    requires
        g.wf(),
        g.classified(),
        g.impl_add_error(edge) is None,
        g.next_edge + 2 * g.impl_edges().len() + 3 <= u32::MAX,
    ensures
        ({
            let id = g.next_edge as EdgeId;
            let added = g.with_edge(edge);
            let with_it = added.recomputed();
            let without_it = with_it.without_edge(id).recomputed();
            &&& with_it.has_edge_in(id, SubgraphKind::Implementation)
            &&& with_it.edges[id].state == added.verdict(id)
            &&& forall|e: EdgeId| #[trigger]
                g.has_edge_in(e, SubgraphKind::Implementation) ==> with_it.edges.contains_key(e)
                    && with_it.edges[e] == g.edges[e]
            &&& forall|x: EdgeId| #[trigger]
                g.has_edge_in(x, SubgraphKind::Architecture) ==> {
                    &&& with_it.edges.contains_key(x)
                    &&& with_it.edges[x].counter >= g.edges[x].counter
                    &&& (g.edges[x].state == EdgeState::Convergent ==> with_it.edges[x].state
                        == EdgeState::Convergent)
                    &&& (added.verdict(id) != EdgeState::Allowed ==> with_it.edges[x] == g.edges[x])
                }
            &&& g.agrees_with(without_it)
        }),
{
    let id = g.next_edge as EdgeId;
    let added = g.with_edge(edge);
    let with_it = added.recomputed();
    let removed = with_it.without_edge(id);
    let without_it = removed.recomputed();
    lemma_impl_edges_listed(g);
    lemma_added_edge_frame(g, edge);
    lemma_with_edge_wf(g, edge);
    lemma_cleared_wf(added);
    lemma_recomputed(added);
    lemma_same_inputs(added, with_it);
    assert(added.edges.contains_key(id));
    assert(added.has_edge_in(id, SubgraphKind::Implementation));
    let all = g.impl_edges();
    let more = added.impl_edges();
    assert(with_it.impl_edges().contains(id));

    assert forall|e: EdgeId| #[trigger]
        g.has_edge_in(e, SubgraphKind::Implementation) implies with_it.edges.contains_key(e)
        && with_it.edges[e] == g.edges[e] by {
        assert(g.edges.contains_key(e));
        assert(added.edges.contains_key(e));
        assert(added.has_edge_in(e, SubgraphKind::Implementation));
        assert(with_it.has_edge_in(e, SubgraphKind::Implementation));
        assert(with_it.edges.contains_key(e));
        assert(more.contains(e));
        assert(all.contains(e));
        assert(with_it.verdict(e) == added.verdict(e));
    }
    assert forall|x: EdgeId| #[trigger] g.has_edge_in(x, SubgraphKind::Architecture) implies {
        &&& with_it.edges.contains_key(x)
        &&& with_it.edges[x].counter >= g.edges[x].counter
        &&& (g.edges[x].state == EdgeState::Convergent ==> with_it.edges[x].state
            == EdgeState::Convergent)
        &&& (added.verdict(id) != EdgeState::Allowed ==> with_it.edges[x] == g.edges[x])
    } by {
        assert(g.edges.contains_key(x));
        assert(added.edges.contains_key(x));
        assert(with_it.has_edge_in(x, SubgraphKind::Architecture));
        assert(with_it.edges.contains_key(x));
        assert(with_it.support(more, x) == added.support(more, x));
        let small = g.support(all, x);
        let big = added.support(more, x);
        assert forall|i: EdgeId| big.contains(i) implies (i as nat) < added.next_edge by {
            assert(added.edges.contains_key(i));
        }
        lemma_bounded_set_len(big, added.next_edge);
        assert(small.subset_of(big)) by {
            assert forall|i: EdgeId| small.contains(i) implies big.contains(i) by {
                assert(g.has_edge_in(i, SubgraphKind::Implementation));
                assert(added.projection(i) == g.projection(i));
                assert(added.lift(g.projection(i).unwrap()) == g.lift(g.projection(i).unwrap()));
            }
        }
        vstd::set_lib::lemma_len_subset(small, big);
        if added.verdict(id) != EdgeState::Allowed {
            assert(big =~= small) by {
                assert forall|i: EdgeId| big.contains(i) implies small.contains(i) by {
                    if i == id {
                        assert(added.triple_verdict(added.projection(id).unwrap())
                            == EdgeState::Allowed);
                    } else {
                        assert(all.contains(i));
                        assert(g.has_edge_in(i, SubgraphKind::Implementation));
                        assert(added.projection(i) == g.projection(i));
                        assert(added.lift(g.projection(i).unwrap()) == g.lift(
                            g.projection(i).unwrap(),
                        ));
                    }
                }
            }
        }
    }

    lemma_cleared_wf(with_it);
    assert(removed.cleared().wf()) by {
        let c = with_it.cleared();
        let r = removed.cleared();
        assert(r.edges =~= c.edges.remove(id));
        assert forall|i: EdgeId| #[trigger] r.edges.contains_key(i) implies c.edges.contains_key(i)
            && r.edges[i] == c.edges[i] by {}
    }
    assert(removed.impl_edges() =~= all);
    lemma_recomputed(removed);
    assert(g.same_inputs(removed)) by {
        assert forall|i: EdgeId|
            #![trigger g.edges.contains_key(i)]
            #![trigger removed.edges.contains_key(i)]
            (g.edges.contains_key(i) && g.edges[i].subgraph != SubgraphKind::Propagated) <==> (
            removed.edges.contains_key(i) && removed.edges[i].subgraph
                != SubgraphKind::Propagated) by {
            if g.edges.contains_key(i) && g.edges[i].subgraph != SubgraphKind::Propagated {
                assert(added.edges.contains_key(i));
                assert(with_it.edges.contains_key(i));
            }
            if removed.edges.contains_key(i) && removed.edges[i].subgraph
                != SubgraphKind::Propagated {
                assert(with_it.edges.contains_key(i));
                assert(added.edges.contains_key(i));
            }
        }
        assert forall|i: EdgeId| #[trigger]
            g.edges.contains_key(i) && g.edges[i].subgraph != SubgraphKind::Propagated implies {
            &&& g.edges[i].from == removed.edges[i].from
            &&& g.edges[i].to == removed.edges[i].to
            &&& g.edges[i].kind == removed.edges[i].kind
            &&& g.edges[i].subgraph == removed.edges[i].subgraph
        } by {
            assert(added.edges.contains_key(i));
        }
    }
    lemma_same_inputs_trans(g, removed, without_it);
    law_classification_is_determined(g, without_it);
}

/// Absence: in a classified graph an architecture edge onto which no
/// implementation edge lifts is `Absent` with counter 0; so is every
/// architecture edge of a graph without implementation edges.
pub proof fn law_unsupported_edge_is_absent(g: GraphModel, x: EdgeId)
    requires
        g.wf(),
        g.classified(),
        g.has_edge_in(x, SubgraphKind::Architecture),
        g.support(g.impl_edges(), x) == Set::<EdgeId>::empty() || g.impl_edges()
            == Set::<EdgeId>::empty(),
    ensures
        g.edges[x].state == EdgeState::Absent,
        g.edges[x].counter == 0,
{
    assert(g.support(g.impl_edges(), x) =~= Set::<EdgeId>::empty());
}

/// Convergence and divergence: in a classified graph a mapped
/// implementation edge is `Allowed` where an architecture edge matches its
/// projection, and that edge is then `Convergent` and counts it; where
/// none matches, the implementation edge is `Divergent`.
pub proof fn law_mapped_edge_converges_or_diverges(g: GraphModel, e: EdgeId, t: Triple)
    requires
        g.wf(),
        g.classified(),
        g.has_edge_in(e, SubgraphKind::Implementation),
        g.projection(e) == Some(t),
    ensures
        match g.lift(t) {
            Some(x) => {
                &&& g.edges[e].state == EdgeState::Allowed
                &&& g.has_edge_in(x, SubgraphKind::Architecture)
                &&& g.edges[x].state == EdgeState::Convergent
                &&& g.edges[x].counter >= 1
                &&& g.support(g.impl_edges(), x).contains(e)
            },
            None => g.edges[e].state == EdgeState::Divergent,
        },
{
    assert(g.impl_edges().contains(e));
    if let Some(x) = g.lift(t) {
        lemma_first_match_some(g, SubgraphKind::Architecture, t);
        assert(g.has_edge_in(x, SubgraphKind::Architecture));
        let s = g.support(g.impl_edges(), x);
        assert(s.contains(e));
        assert forall|i: EdgeId| s.contains(i) implies (i as nat) < g.next_edge by {
            assert(g.edges.contains_key(i));
        }
        lemma_bounded_set_len(s, g.next_edge);
        if s.len() == 0 {
            vstd::set_lib::lemma_set_empty_equivalency_len(s);
        }
    }
}

} // verus!
