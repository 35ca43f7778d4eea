//! Propagating and lifting keep a graph well formed, in any order of the
//! implementation edges.

use vstd::prelude::*;
use crate::classification::{
    lemma_close, lemma_impl_edges_listed, lemma_same_inputs, lemma_same_inputs_trans, lemma_start,
    lemma_step,
};
use crate::model::{
    GraphModel, lemma_edge_data_wf, lemma_finalized_wf, lemma_first_match_some,
    lemma_initialized_wf, node_space,
};
use crate::state::EdgeState;
use crate::types::{EdgeId, SubgraphKind};
use crate::util::lemma_bounded_set_len;

verus! {

/// Propagating an implementation edge keeps the graph well formed and
/// takes at most one new handle.
pub proof fn lemma_propagated_wf(g: GraphModel, e: EdgeId)
    requires
        g.wf(),
        g.has_edge_in(e, SubgraphKind::Implementation),
        g.can_propagate(e),
    ensures
        g.propagated(e).wf(),
        g.next_edge <= g.propagated(e).next_edge <= g.next_edge + 1,
{
    assert(g.edges.contains_key(e));
    match g.projection(e) {
        None => {
            lemma_edge_data_wf(g, e, EdgeState::Unmapped, g.edges[e].counter);
        },
        Some(t) => {
            let mid = g.with_propagated(t);
            let p = g.propagation_target(t);
            let h = g.propagated(e);
            assert(g.mapping.contains_key(g.edges[e].from));
            assert(g.mapping.contains_key(g.edges[e].to));
            if g.propagated_for(t) is Some {
                lemma_first_match_some(g, SubgraphKind::Propagated, t);
            } else {
                if g.provenance.contains_key(p) {
                    assert(g.has_edge_in(p, SubgraphKind::Propagated));
                }
                assert(mid.sources(p) =~= Set::<EdgeId>::empty());
            }
            assert(mid.has_edge_in(p, SubgraphKind::Propagated));
            assert(mid.wf()) by {
                assert forall|id: EdgeId| #[trigger] mid.edges.contains_key(id) implies mid.sources(id)
                    == g.sources(id) by {}
                assert forall|q: EdgeId| #[trigger] mid.provenance.contains_key(q) implies {
                    &&& mid.has_edge_in(q, SubgraphKind::Propagated)
                    &&& forall|i: EdgeId| #[trigger]
                        mid.provenance[q].contains(i) ==> mid.has_edge_in(
                            i,
                            SubgraphKind::Implementation,
                        )
                } by {
                    assert(g.provenance.contains_key(q));
                    assert(g.has_edge_in(q, SubgraphKind::Propagated));
                    assert forall|i: EdgeId| #[trigger] mid.provenance[q].contains(i) implies mid.has_edge_in(
                        i,
                        SubgraphKind::Implementation,
                    ) by {
                        assert(g.provenance[q].contains(i));
                        assert(g.has_edge_in(i, SubgraphKind::Implementation));
                    }
                }
            }
            let sources = mid.sources(p).insert(e);
            assert forall|i: EdgeId| sources.contains(i) implies (i as nat) < mid.next_edge
                && mid.has_edge_in(i, SubgraphKind::Implementation) by {
                if i != e {
                    assert(mid.provenance.contains_key(p));
                    assert(mid.provenance[p].contains(i));
                    assert(mid.has_edge_in(i, SubgraphKind::Implementation));
                }
                assert(mid.edges.contains_key(i));
            }
            lemma_bounded_set_len(sources, mid.next_edge);
            assert(sources.len() > 0) by {
                if sources.len() == 0 {
                    assert(sources =~= Set::<EdgeId>::empty());
                    assert(sources.contains(e));
                }
            }
            assert forall|id: EdgeId| #[trigger] h.edges.contains_key(id) implies {
                let edge = h.edges[id];
                &&& id < h.next_edge
                &&& edge.id == id
                &&& h.node_kind(edge.from) == Some(node_space(edge.subgraph))
                &&& h.node_kind(edge.to) == Some(node_space(edge.subgraph))
                &&& (edge.subgraph == SubgraphKind::Implementation ==> edge.counter == 0)
                &&& (edge.subgraph == SubgraphKind::Propagated ==> edge.counter == h.sources(
                    id,
                ).len())
            } by {
                assert(mid.edges.contains_key(id));
                if id != p {
                    assert(h.sources(id) == mid.sources(id));
                }
            }
            assert forall|q: EdgeId| #[trigger] h.provenance.contains_key(q) implies {
                &&& h.has_edge_in(q, SubgraphKind::Propagated)
                &&& h.provenance[q].finite()
                &&& h.provenance[q].len() > 0
                &&& forall|i: EdgeId| #[trigger]
                    h.provenance[q].contains(i) ==> h.has_edge_in(i, SubgraphKind::Implementation)
            } by {
                if q != p {
                    assert(mid.provenance.contains_key(q));
                    assert(mid.has_edge_in(q, SubgraphKind::Propagated));
                    assert forall|i: EdgeId| #[trigger] h.provenance[q].contains(i) implies h.has_edge_in(
                        i,
                        SubgraphKind::Implementation,
                    ) by {
                        assert(mid.provenance[q].contains(i));
                        assert(mid.has_edge_in(i, SubgraphKind::Implementation));
                    }
                } else {
                    assert forall|i: EdgeId| #[trigger] h.provenance[q].contains(i) implies h.has_edge_in(
                        i,
                        SubgraphKind::Implementation,
                    ) by {
                        assert(sources.contains(i));
                    }
                }
            }
        },
    }
}

/// Propagating and lifting an implementation edge keeps the graph well
/// formed and takes at most one new handle.
pub proof fn lemma_lifted_wf(g: GraphModel, e: EdgeId)
    requires
        g.wf(),
        g.has_edge_in(e, SubgraphKind::Implementation),
        g.can_propagate(e),
        g.can_lift(e),
    ensures
        g.lifted(e).wf(),
        g.next_edge <= g.lifted(e).next_edge <= g.next_edge + 1,
{
    lemma_propagated_wf(g, e);
    let pg = g.propagated(e);
    assert(g.edges.contains_key(e));
    if let Some(t) = g.projection(e) {
        let p = g.propagation_target(t);
        if g.propagated_for(t) is Some {
            lemma_first_match_some(g, SubgraphKind::Propagated, t);
        }
        assert(pg.edges.contains_key(p));
        assert(pg.edges.contains_key(e));
        match g.lift(t) {
            Some(x) => {
                lemma_first_match_some(g, SubgraphKind::Architecture, t);
                assert(g.is_match(x, SubgraphKind::Architecture, t));
                assert(pg.edges.contains_key(x));
                assert(pg.edges[x].subgraph == SubgraphKind::Architecture);
                let a = pg.with_edge_data(
                    x,
                    EdgeState::Convergent,
                    (pg.edges[x].counter + 1) as u32,
                );
                lemma_edge_data_wf(pg, x, EdgeState::Convergent, (pg.edges[x].counter + 1) as u32);
                let b = a.with_state(p, EdgeState::Allowed);
                lemma_edge_data_wf(a, p, EdgeState::Allowed, a.edges[p].counter);
                lemma_edge_data_wf(b, e, EdgeState::Allowed, b.edges[e].counter);
            },
            None => {
                let b = pg.with_state(p, EdgeState::Divergent);
                lemma_edge_data_wf(pg, p, EdgeState::Divergent, pg.edges[p].counter);
                lemma_edge_data_wf(b, e, EdgeState::Divergent, b.edges[e].counter);
            },
        }
    }
}

/// Propagating and lifting distinct implementation edges outside `done`,
/// in whatever order, extends a classification over `done` to them.
pub proof fn lemma_lifted_all(g: GraphModel, done: Set<EdgeId>, order: Seq<EdgeId>)
    requires
        g.wf(),
        g.classified_over(done, false),
        order.no_duplicates(),
        forall|j: int|
            0 <= j < order.len() ==> g.has_edge_in(#[trigger] order[j], SubgraphKind::Implementation)
                && !done.contains(order[j]),
        g.next_edge + order.len() <= u32::MAX,
    ensures
        g.lifted_all(order).wf(),
        g.same_inputs(g.lifted_all(order)),
        g.lifted_all(order).classified_over(done.union(order.to_set()), false),
        g.next_edge <= g.lifted_all(order).next_edge <= g.next_edge + order.len(),
    decreases order.len(),
{
    if order.len() == 0 {
        assert(done.union(order.to_set()) =~= done);
        lemma_same_inputs_refl(g);
    } else {
        let init = order.drop_last();
        let e = order.last();
        lemma_lifted_all(g, done, init);
        let prev = g.lifted_all(init);
        let sofar = done.union(init.to_set());
        lemma_same_inputs(g, prev);
        assert(g.impl_edges().contains(e));
        assert(prev.has_edge_in(e, SubgraphKind::Implementation));
        assert(!sofar.contains(e)) by {
            if init.to_set().contains(e) {
                let j = choose|j: int| 0 <= j < init.len() && init[j] == e;
                assert(order[j] == order[order.len() - 1]);
            }
        }
        lemma_step(prev, sofar, e);
        lemma_lifted_wf(prev, e);
        lemma_same_inputs_trans(g, prev, prev.lifted(e));
        assert(order =~= init.push(e));
        init.lemma_push_to_set_commute(e);
        assert(done.union(order.to_set()) =~= sofar.insert(e));
    }
}

/// Every graph has the same inputs as itself.
pub proof fn lemma_same_inputs_refl(g: GraphModel)
    ensures
        g.same_inputs(g),
{
}

/// Recomputing classifies: the result is well formed, has the inputs of
/// the graph it started from, and is classified.
pub proof fn lemma_recomputed(g: GraphModel)
    requires
        g.cleared().wf(),
        g.next_edge + g.impl_edges().len() <= u32::MAX,
    ensures
        g.recomputed().wf(),
        g.same_inputs(g.recomputed()),
        g.recomputed().classified(),
        g.impl_edges().finite(),
        g.recomputed().impl_edges() == g.impl_edges(),
        g.next_edge <= g.recomputed().next_edge <= g.next_edge + g.impl_edges().len(),
{
    let start = g.cleared().initialized();
    lemma_initialized_wf(g.cleared());
    lemma_start(g);
    lemma_same_inputs(g, start);
    lemma_impl_edges_listed(start);
    lemma_any_order(start, start.impl_edges_below(start.next_edge));
    lemma_same_inputs_trans(g, start, g.recomputed());
    lemma_same_inputs(g, g.recomputed());
}

/// Propagating and lifting all implementation edges of a freshly reset
/// graph, in whatever order, and normalising classifies the graph.
pub proof fn lemma_any_order(start: GraphModel, order: Seq<EdgeId>)
    requires
        start.wf(),
        start.classified_over(Set::empty(), false),
        order.no_duplicates(),
        order.to_set() == start.impl_edges(),
        start.next_edge + order.len() <= u32::MAX,
    ensures
        start.lifted_all(order).finalized().wf(),
        start.same_inputs(start.lifted_all(order).finalized()),
        start.lifted_all(order).finalized().classified(),
        start.next_edge <= start.lifted_all(order).finalized().next_edge <= start.next_edge
            + order.len(),
{
    assert forall|j: int| 0 <= j < order.len() implies start.has_edge_in(
        #[trigger] order[j],
        SubgraphKind::Implementation,
    ) by {
        assert(order.to_set().contains(order[j]));
    }
    lemma_lifted_all(start, Set::empty(), order);
    let all = start.lifted_all(order);
    lemma_same_inputs(start, all);
    assert(Set::<EdgeId>::empty().union(order.to_set()) =~= all.impl_edges());
    lemma_close(all);
    lemma_finalized_wf(all);
    lemma_same_inputs_trans(start, all, all.finalized());
}

} // verus!
