//! What it means for a graph to be classified, and why propagating and
//! lifting the implementation edges one by one classifies it.

use vstd::prelude::*;
use crate::model::{
    GraphModel, Triple, lemma_first_match_is, lemma_first_match_some, lemma_first_match_stable,
    lemma_match_has_first,
};
use crate::state::EdgeState;
use crate::types::{EdgeId, SubgraphKind};
use crate::util::lemma_bounded_set_len;

verus! {

impl GraphModel {
    /// The live implementation edges.
    pub open spec fn impl_edges(self) -> Set<EdgeId> {
        Set::new(|e: EdgeId| self.has_edge_in(e, SubgraphKind::Implementation))
    }

    /// The implementation edges among `done` that project onto `t`.
    pub open spec fn onto(self, done: Set<EdgeId>, t: Triple) -> Set<EdgeId> {
        Set::new(
            |e: EdgeId|
                done.contains(e) && self.has_edge_in(e, SubgraphKind::Implementation)
                    && self.projection(e) == Some(t),
        )
    }

    /// The implementation edges among `done` whose projection lifts onto
    /// architecture edge `x`.
    pub open spec fn support(self, done: Set<EdgeId>, x: EdgeId) -> Set<EdgeId> {
        Set::new(
            |e: EdgeId|
                done.contains(e) && self.has_edge_in(e, SubgraphKind::Implementation) && (
                self.projection(e) matches Some(t) && self.lift(t) == Some(x)),
        )
    }

    /// The state of whatever projects onto `t`: `Allowed` where the
    /// architecture specifies `t`, `Divergent` where it does not.
    pub open spec fn triple_verdict(self, t: Triple) -> EdgeState {
        if self.lift(t) is Some {
            EdgeState::Allowed
        } else {
            EdgeState::Divergent
        }
    }

    /// The state that classification gives implementation edge `e`.
    pub open spec fn verdict(self, e: EdgeId) -> EdgeState {
        match self.projection(e) {
            None => EdgeState::Unmapped,
            Some(t) => self.triple_verdict(t),
        }
    }

    /// The graph is classified with respect to the implementation edges in
    /// `done`, and to no others:
    /// - an implementation edge in `done` has its verdict, any other is
    ///   `Undefined`;
    /// - an architecture edge counts the edges of `done` that lift onto it,
    ///   and is `Convergent` where it counts any; where it counts none it
    ///   is `Absent` once the run is `closed`, and `Specified` before;
    /// - a propagated edge is the only one for its triple, its sources are
    ///   the edges of `done` that project onto the triple, and its state
    ///   is the verdict of the triple;
    /// - every mapped edge of `done` has its propagated edge.
    pub open spec fn classified_over(self, done: Set<EdgeId>, closed: bool) -> bool {
        &&& done.subset_of(self.impl_edges())
        &&& forall|e: EdgeId| #[trigger]
            self.has_edge_in(e, SubgraphKind::Implementation) ==> self.edges[e].state == (if done.contains(
                e,
            ) {
                self.verdict(e)
            } else {
                EdgeState::Undefined
            })
        &&& forall|x: EdgeId| #[trigger]
            self.has_edge_in(x, SubgraphKind::Architecture) ==> {
                &&& self.edges[x].counter == self.support(done, x).len()
                &&& self.edges[x].state == (if self.edges[x].counter > 0 {
                    EdgeState::Convergent
                } else if closed {
                    EdgeState::Absent
                } else {
                    EdgeState::Specified
                })
            }
        &&& forall|p: EdgeId| #[trigger]
            self.has_edge_in(p, SubgraphKind::Propagated) ==> {
                &&& self.provenance.contains_key(p)
                &&& self.provenance[p] == self.onto(done, self.triple_of(p))
                &&& self.edges[p].state == self.triple_verdict(self.triple_of(p))
                &&& self.propagated_for(self.triple_of(p)) == Some(p)
            }
        &&& forall|e: EdgeId|
            done.contains(e) ==> (#[trigger] self.projection(e) matches Some(t)
                ==> self.propagated_for(t) is Some)
    }

    /// The graph after the implementation edges in `order` were propagated
    /// and lifted one after the other.
    pub open spec fn lifted_all(self, order: Seq<EdgeId>) -> GraphModel
        decreases order.len(),
    {
        if order.len() == 0 {
            self
        } else {
            self.lifted_all(order.drop_last()).lifted(order.last())
        }
    }

    /// The live implementation edges with a handle below `n`, oldest first.
    pub open spec fn impl_edges_below(self, n: nat) -> Seq<EdgeId>
        decreases n,
    {
        if n == 0 {
            Seq::empty()
        } else {
            let rest = self.impl_edges_below((n - 1) as nat);
            if self.has_edge_in((n - 1) as EdgeId, SubgraphKind::Implementation) {
                rest.push((n - 1) as EdgeId)
            } else {
                rest
            }
        }
    }

    /// The graph after a full recomputation: the propagated edges are
    /// removed, the states are reset, every implementation edge is
    /// propagated and lifted, oldest first, and the architecture edges are
    /// normalised.
    pub open spec fn recomputed(self) -> GraphModel {
        let start = self.cleared().initialized();
        start.lifted_all(start.impl_edges_below(start.next_edge)).finalized()
    }

    /// The graph is fully classified: every implementation edge was
    /// propagated and lifted, and the architecture edges are normalised.
    pub open spec fn classified(self) -> bool {
        self.classified_over(self.impl_edges(), true)
    }

    /// `other` has the same nodes and the same mapping, and its
    /// architecture and implementation edges connect the same nodes under
    /// the same handles.
    pub open spec fn same_inputs(self, other: GraphModel) -> bool {
        &&& self.nodes == other.nodes
        &&& self.mapping == other.mapping
        &&& forall|id: EdgeId|
            #![trigger self.edges.contains_key(id)]
            #![trigger other.edges.contains_key(id)]
            (self.edges.contains_key(id) && self.edges[id].subgraph != SubgraphKind::Propagated) <==> (
            other.edges.contains_key(id) && other.edges[id].subgraph != SubgraphKind::Propagated)
        &&& forall|id: EdgeId| #[trigger]
            self.edges.contains_key(id) && self.edges[id].subgraph != SubgraphKind::Propagated ==> {
                &&& self.edges[id].from == other.edges[id].from
                &&& self.edges[id].to == other.edges[id].to
                &&& self.edges[id].kind == other.edges[id].kind
                &&& self.edges[id].subgraph == other.edges[id].subgraph
            }
    }
}

/// Graphs with the same inputs project and lift alike.
pub proof fn lemma_same_inputs(g: GraphModel, h: GraphModel)
    requires
        g.same_inputs(h),
    ensures
        h.same_inputs(g),
        g.impl_edges() == h.impl_edges(),
        forall|e: EdgeId| #[trigger]
            g.has_edge_in(e, SubgraphKind::Implementation) ==> g.projection(e) == h.projection(e),
        forall|t: Triple| #[trigger] g.lift(t) == h.lift(t),
        forall|done: Set<EdgeId>, t: Triple| #[trigger] g.onto(done, t) == h.onto(done, t),
        forall|done: Set<EdgeId>, x: EdgeId| #[trigger] g.support(done, x) == h.support(done, x),
        forall|e: EdgeId| #[trigger]
            g.has_edge_in(e, SubgraphKind::Implementation) ==> g.verdict(e) == h.verdict(e),
        forall|t: Triple| #[trigger] g.triple_verdict(t) == h.triple_verdict(t),
{
    assert forall|id: EdgeId| #[trigger]
        h.edges.contains_key(id) && h.edges[id].subgraph != SubgraphKind::Propagated implies {
        &&& h.edges[id].from == g.edges[id].from
        &&& h.edges[id].to == g.edges[id].to
        &&& h.edges[id].kind == g.edges[id].kind
        &&& h.edges[id].subgraph == g.edges[id].subgraph
    } by {
        assert(g.edges.contains_key(id));
    }
    assert(g.impl_edges() =~= h.impl_edges()) by {
        assert forall|e: EdgeId| g.impl_edges().contains(e) == h.impl_edges().contains(e) by {
            if g.has_edge_in(e, SubgraphKind::Implementation) {
                assert(g.edges.contains_key(e));
            }
            if h.has_edge_in(e, SubgraphKind::Implementation) {
                assert(h.edges.contains_key(e));
            }
        }
    }
    assert forall|e: EdgeId| #[trigger]
        g.has_edge_in(e, SubgraphKind::Implementation) implies g.projection(e) == h.projection(e) by {
        assert(g.edges.contains_key(e));
    }
    assert forall|t: Triple| #[trigger] g.lift(t) == h.lift(t) by {
        assert forall|id: EdgeId|
            g.is_match(id, SubgraphKind::Architecture, t) == h.is_match(
                id,
                SubgraphKind::Architecture,
                t,
            ) by {
            if g.is_match(id, SubgraphKind::Architecture, t) {
                assert(g.edges.contains_key(id));
            }
            if h.is_match(id, SubgraphKind::Architecture, t) {
                assert(h.edges.contains_key(id));
            }
        }
        lemma_first_match_stable(g, h, SubgraphKind::Architecture, t);
    }
    assert forall|done: Set<EdgeId>, t: Triple| #[trigger] g.onto(done, t) == h.onto(done, t) by {
        assert forall|e: EdgeId| g.onto(done, t).contains(e) == h.onto(done, t).contains(e) by {
            assert(g.impl_edges().contains(e) == h.impl_edges().contains(e));
        }
        assert(g.onto(done, t) =~= h.onto(done, t));
    }
    assert forall|done: Set<EdgeId>, x: EdgeId| #[trigger]
        g.support(done, x) == h.support(done, x) by {
        assert forall|e: EdgeId| g.support(done, x).contains(e) == h.support(done, x).contains(e) by {
            assert(g.impl_edges().contains(e) == h.impl_edges().contains(e));
            if g.has_edge_in(e, SubgraphKind::Implementation) {
                assert(g.projection(e) == h.projection(e));
                if g.projection(e) is Some {
                    assert(g.lift(g.projection(e).unwrap()) == h.lift(g.projection(e).unwrap()));
                }
            }
        }
        assert(g.support(done, x) =~= h.support(done, x));
    }
    assert forall|t: Triple| #[trigger] g.triple_verdict(t) == h.triple_verdict(t) by {
        assert(g.lift(t) == h.lift(t));
    }
    assert forall|e: EdgeId| #[trigger]
        g.has_edge_in(e, SubgraphKind::Implementation) implies g.verdict(e) == h.verdict(e) by {
        assert(g.projection(e) == h.projection(e));
        if g.projection(e) is Some {
            assert(g.triple_verdict(g.projection(e).unwrap()) == h.triple_verdict(
                g.projection(e).unwrap(),
            ));
        }
    }
}

/// How propagating and lifting a mapped implementation edge changes the
/// graph, edge by edge.
pub proof fn lemma_lifted_frame(g: GraphModel, e: EdgeId, t: Triple)
    requires
        g.wf(),
        g.has_edge_in(e, SubgraphKind::Implementation),
        g.can_propagate(e),
        g.can_lift(e),
        g.projection(e) == Some(t),
    ensures
        ({
            let h = g.lifted(e);
            let p = g.propagation_target(t);
            &&& g.same_inputs(h)
            &&& h.has_edge_in(p, SubgraphKind::Propagated)
            &&& h.triple_of(p) == t
            &&& h.edges[p].state == g.triple_verdict(t)
            &&& h.provenance == g.provenance.insert(p, g.sources(p).insert(e))
            &&& (g.propagated_for(t) is None ==> !g.edges.contains_key(p) && g.sources(p)
                == Set::<EdgeId>::empty() && forall|id: EdgeId|
                !g.is_match(id, SubgraphKind::Propagated, t))
            &&& (g.propagated_for(t) is Some ==> g.is_first_match(p, SubgraphKind::Propagated, t))
            &&& forall|id: EdgeId|
                h.has_edge_in(id, SubgraphKind::Propagated) <==> g.has_edge_in(
                    id,
                    SubgraphKind::Propagated,
                ) || id == p
            &&& forall|id: EdgeId|
                g.has_edge_in(id, SubgraphKind::Propagated) ==> h.triple_of(id) == g.triple_of(id) && (
                id != p ==> h.edges[id] == g.edges[id])
            &&& h.edges[e].state == g.triple_verdict(t)
            &&& forall|id: EdgeId|
                g.has_edge_in(id, SubgraphKind::Implementation) && id != e ==> h.edges[id]
                    == g.edges[id]
            &&& forall|x: EdgeId|
                g.has_edge_in(x, SubgraphKind::Architecture) ==> (if g.lift(t) == Some(x) {
                    h.edges[x].state == EdgeState::Convergent && h.edges[x].counter
                        == g.edges[x].counter + 1
                } else {
                    h.edges[x] == g.edges[x]
                })
            &&& h.propagated_for(t) == Some(p)
            &&& forall|other: Triple|
                other != t ==> #[trigger] h.propagated_for(other) == g.propagated_for(other)
        }),
{
    let h = g.lifted(e);
    let p = g.propagation_target(t);
    let mid = g.with_propagated(t);
    let pg = g.propagated(e);
    assert(g.edges.contains_key(e));
    if g.propagated_for(t) is Some {
        lemma_first_match_some(g, SubgraphKind::Propagated, t);
        assert(g.is_match(p, SubgraphKind::Propagated, t));
    } else {
        assert(p == g.next_edge);
        assert(!g.edges.contains_key(p));
        if g.provenance.contains_key(p) {
            assert(g.has_edge_in(p, SubgraphKind::Propagated));
        }
        assert forall|id: EdgeId| !g.is_match(id, SubgraphKind::Propagated, t) by {
            if g.is_match(id, SubgraphKind::Propagated, t) {
                lemma_match_has_first(g, id, SubgraphKind::Propagated, t);
            }
        }
    }
    assert(mid.has_edge_in(p, SubgraphKind::Propagated));
    assert(mid.triple_of(p) == t);
    assert(mid.sources(p) == g.sources(p));
    if g.lift(t) is Some {
        lemma_first_match_some(g, SubgraphKind::Architecture, t);
        let x = g.lift(t).unwrap();
        assert(g.is_match(x, SubgraphKind::Architecture, t));
        assert(pg.edges[x] == g.edges[x]);
    }
    assert(h.provenance =~= g.provenance.insert(p, g.sources(p).insert(e)));
    assert forall|id: EdgeId|
        #![trigger g.edges.contains_key(id)]
        #![trigger h.edges.contains_key(id)]
        (g.edges.contains_key(id) && g.edges[id].subgraph != SubgraphKind::Propagated) <==> (
        h.edges.contains_key(id) && h.edges[id].subgraph != SubgraphKind::Propagated) by {}
    assert(g.same_inputs(h));
    assert forall|id: EdgeId|
        h.is_match(id, SubgraphKind::Propagated, t) implies p <= id by {
        if id != p {
            assert(g.is_match(id, SubgraphKind::Propagated, t));
        }
    }
    assert(h.is_first_match(p, SubgraphKind::Propagated, t));
    lemma_first_match_is(h, p, SubgraphKind::Propagated, t);
    assert forall|other: Triple| other != t implies #[trigger] h.propagated_for(other)
        == g.propagated_for(other) by {
        assert forall|id: EdgeId|
            g.is_match(id, SubgraphKind::Propagated, other) == h.is_match(
                id,
                SubgraphKind::Propagated,
                other,
            ) by {}
        lemma_first_match_stable(g, h, SubgraphKind::Propagated, other);
    }
}

/// In a graph classified over `done`, lifting an edge outside `done` keeps
/// the counter of the matched architecture edge in range.
pub proof fn lemma_can_lift(g: GraphModel, done: Set<EdgeId>, e: EdgeId)
    requires
        g.wf(),
        g.classified_over(done, false),
        g.has_edge_in(e, SubgraphKind::Implementation),
        !done.contains(e),
    ensures
        g.can_lift(e),
{
    if let Some(t) = g.projection(e) {
        if let Some(x) = g.lift(t) {
            lemma_first_match_some(g, SubgraphKind::Architecture, t);
            assert(g.has_edge_in(x, SubgraphKind::Architecture));
            let with_e = g.support(done, x).insert(e);
            assert forall|i: EdgeId| with_e.contains(i) implies (i as nat) < g.next_edge by {
                assert(g.edges.contains_key(i));
            }
            lemma_bounded_set_len(with_e, g.next_edge);
            assert forall|i: EdgeId| g.support(done, x).contains(i) implies (i as nat)
                < g.next_edge by {
                assert(g.edges.contains_key(i));
            }
            lemma_bounded_set_len(g.support(done, x), g.next_edge);
            assert(!g.support(done, x).contains(e));
        }
    }
}

/// A graph without propagated edges whose states were reset is classified
/// over no edge at all.
pub proof fn lemma_start(g: GraphModel)
    ensures
        g.same_inputs(g.cleared().initialized()),
        g.cleared().initialized().classified_over(Set::empty(), false),
{
    let h = g.cleared().initialized();
    assert forall|x: EdgeId| #[trigger] h.has_edge_in(x, SubgraphKind::Architecture) implies {
        &&& h.edges[x].counter == h.support(Set::empty(), x).len()
        &&& h.edges[x].state == EdgeState::Specified
    } by {
        assert(h.support(Set::empty(), x) =~= Set::<EdgeId>::empty());
    }
    assert forall|id: EdgeId|
        #![trigger g.edges.contains_key(id)]
        #![trigger h.edges.contains_key(id)]
        (g.edges.contains_key(id) && g.edges[id].subgraph != SubgraphKind::Propagated) <==> (
        h.edges.contains_key(id) && h.edges[id].subgraph != SubgraphKind::Propagated) by {}
}

/// Propagating and lifting one more implementation edge extends the
/// classification to that edge.
pub proof fn lemma_step(g: GraphModel, done: Set<EdgeId>, e: EdgeId)
    requires
        g.wf(),
        g.classified_over(done, false),
        g.has_edge_in(e, SubgraphKind::Implementation),
        !done.contains(e),
        g.can_propagate(e),
    ensures
        g.can_lift(e),
        g.same_inputs(g.lifted(e)),
        g.lifted(e).classified_over(done.insert(e), false),
{
    lemma_can_lift(g, done, e);
    let h = g.lifted(e);
    let more = done.insert(e);
    assert(g.edges.contains_key(e));
    match g.projection(e) {
        None => {
            assert forall|id: EdgeId|
                #![trigger g.edges.contains_key(id)]
                #![trigger h.edges.contains_key(id)]
                (g.edges.contains_key(id) && g.edges[id].subgraph != SubgraphKind::Propagated) <==> (
                h.edges.contains_key(id) && h.edges[id].subgraph != SubgraphKind::Propagated) by {}
            assert(g.same_inputs(h));
            lemma_same_inputs(g, h);
            assert forall|other: Triple| #[trigger] h.propagated_for(other) == g.propagated_for(other) by {
                assert forall|id: EdgeId|
                    g.is_match(id, SubgraphKind::Propagated, other) == h.is_match(
                        id,
                        SubgraphKind::Propagated,
                        other,
                    ) by {}
                lemma_first_match_stable(g, h, SubgraphKind::Propagated, other);
            }
            assert forall|x: EdgeId| #[trigger] h.has_edge_in(x, SubgraphKind::Architecture) implies {
                &&& h.edges[x].counter == h.support(more, x).len()
                &&& h.edges[x].state == (if h.edges[x].counter > 0 {
                    EdgeState::Convergent
                } else {
                    EdgeState::Specified
                })
            } by {
                assert(g.has_edge_in(x, SubgraphKind::Architecture));
                assert(h.support(more, x) == g.support(more, x));
                assert(g.support(more, x) =~= g.support(done, x));
            }
            assert forall|p: EdgeId| #[trigger] h.has_edge_in(p, SubgraphKind::Propagated) implies {
                &&& h.provenance.contains_key(p)
                &&& h.provenance[p] == h.onto(more, h.triple_of(p))
                &&& h.edges[p].state == h.triple_verdict(h.triple_of(p))
                &&& h.propagated_for(h.triple_of(p)) == Some(p)
            } by {
                assert(g.has_edge_in(p, SubgraphKind::Propagated));
                let tp = g.triple_of(p);
                assert(h.onto(more, tp) == g.onto(more, tp));
                assert(g.onto(more, tp) =~= g.onto(done, tp));
                assert(h.triple_verdict(tp) == g.triple_verdict(tp));
                assert(h.propagated_for(tp) == g.propagated_for(tp));
            }
            assert forall|i: EdgeId| #[trigger]
                h.has_edge_in(i, SubgraphKind::Implementation) implies h.edges[i].state == (if more.contains(
                i,
            ) {
                h.verdict(i)
            } else {
                EdgeState::Undefined
            }) by {
                assert(g.has_edge_in(i, SubgraphKind::Implementation));
                assert(g.verdict(i) == h.verdict(i));
            }
            assert forall|i: EdgeId| more.contains(i) implies (#[trigger] h.projection(i) matches Some(
                ti,
            ) ==> h.propagated_for(ti) is Some) by {
                if i != e {
                    assert(g.impl_edges().contains(i));
                    assert(g.projection(i) == h.projection(i));
                    if let Some(ti) = g.projection(i) {
                        assert(h.propagated_for(ti) == g.propagated_for(ti));
                    }
                } else {
                    assert(g.projection(i) == h.projection(i));
                }
            }
            assert(more.subset_of(h.impl_edges())) by {
                assert forall|i: EdgeId| more.contains(i) implies h.impl_edges().contains(i) by {
                    if i != e {
                        assert(g.impl_edges().contains(i));
                    }
                }
            }
        },
        Some(t) => {
            lemma_lifted_frame(g, e, t);
            lemma_same_inputs(g, h);
            let p = g.propagation_target(t);
            assert(more.subset_of(h.impl_edges())) by {
                assert forall|i: EdgeId| more.contains(i) implies h.impl_edges().contains(i) by {
                    if i != e {
                        assert(g.impl_edges().contains(i));
                    }
                }
            }
            assert forall|i: EdgeId| #[trigger]
                h.has_edge_in(i, SubgraphKind::Implementation) implies h.edges[i].state == (if more.contains(
                i,
            ) {
                h.verdict(i)
            } else {
                EdgeState::Undefined
            }) by {
                assert(g.has_edge_in(i, SubgraphKind::Implementation));
                assert(g.verdict(i) == h.verdict(i));
            }
            assert forall|x: EdgeId| #[trigger] h.has_edge_in(x, SubgraphKind::Architecture) implies {
                &&& h.edges[x].counter == h.support(more, x).len()
                &&& h.edges[x].state == (if h.edges[x].counter > 0 {
                    EdgeState::Convergent
                } else {
                    EdgeState::Specified
                })
            } by {
                assert(g.has_edge_in(x, SubgraphKind::Architecture));
                assert(h.support(more, x) == g.support(more, x));
                assert forall|i: EdgeId| g.support(done, x).contains(i) implies (i as nat)
                    < g.next_edge by {
                    assert(g.edges.contains_key(i));
                }
                lemma_bounded_set_len(g.support(done, x), g.next_edge);
                if g.lift(t) == Some(x) {
                    assert(g.support(more, x) =~= g.support(done, x).insert(e));
                } else {
                    assert(g.support(more, x) =~= g.support(done, x));
                }
            }
            assert forall|q: EdgeId| #[trigger] h.has_edge_in(q, SubgraphKind::Propagated) implies {
                &&& h.provenance.contains_key(q)
                &&& h.provenance[q] == h.onto(more, h.triple_of(q))
                &&& h.edges[q].state == h.triple_verdict(h.triple_of(q))
                &&& h.propagated_for(h.triple_of(q)) == Some(q)
            } by {
                let tq = h.triple_of(q);
                assert(h.onto(more, tq) == g.onto(more, tq));
                assert(h.triple_verdict(tq) == g.triple_verdict(tq));
                if q == p {
                    assert(tq == t);
                    if g.propagated_for(t) is Some {
                        assert(g.has_edge_in(p, SubgraphKind::Propagated));
                        assert(g.triple_of(p) == t);
                        assert(g.sources(p) == g.onto(done, t));
                    } else {
                        assert(g.onto(done, t) =~= Set::<EdgeId>::empty()) by {
                            assert forall|i: EdgeId| !g.onto(done, t).contains(i) by {
                                if g.onto(done, t).contains(i) {
                                    assert(g.projection(i) == Some(t));
                                }
                            }
                        }
                    }
                    assert(g.onto(more, t) =~= g.onto(done, t).insert(e));
                } else {
                    assert(g.has_edge_in(q, SubgraphKind::Propagated));
                    assert(g.triple_of(q) == tq);
                    if tq == t {
                        assert(g.propagated_for(t) == Some(q));
                        assert(q == p);
                    }
                    assert(g.onto(more, tq) =~= g.onto(done, tq));
                    assert(h.propagated_for(tq) == g.propagated_for(tq));
                }
            }
            assert forall|i: EdgeId| more.contains(i) implies (#[trigger] h.projection(i) matches Some(
                ti,
            ) ==> h.propagated_for(ti) is Some) by {
                if i != e {
                    assert(g.impl_edges().contains(i));
                }
                assert(g.has_edge_in(i, SubgraphKind::Implementation));
                assert(g.projection(i) == h.projection(i));
                if let Some(ti) = g.projection(i) {
                    if ti != t {
                        assert(h.propagated_for(ti) == g.propagated_for(ti));
                    }
                }
            }
        },
    }
}

/// The closing normalisation turns a graph classified over all its
/// implementation edges into a classified graph.
pub proof fn lemma_close(g: GraphModel)
    requires
        g.wf(),
        g.classified_over(g.impl_edges(), false),
    ensures
        g.same_inputs(g.finalized()),
        g.finalized().classified(),
{
    let h = g.finalized();
    let all = g.impl_edges();
    assert forall|id: EdgeId|
        #![trigger g.edges.contains_key(id)]
        #![trigger h.edges.contains_key(id)]
        (g.edges.contains_key(id) && g.edges[id].subgraph != SubgraphKind::Propagated) <==> (
        h.edges.contains_key(id) && h.edges[id].subgraph != SubgraphKind::Propagated) by {}
    assert(g.same_inputs(h));
    lemma_same_inputs(g, h);
    assert forall|other: Triple| #[trigger] h.propagated_for(other) == g.propagated_for(other) by {
        assert forall|id: EdgeId|
            g.is_match(id, SubgraphKind::Propagated, other) == h.is_match(
                id,
                SubgraphKind::Propagated,
                other,
            ) by {}
        lemma_first_match_stable(g, h, SubgraphKind::Propagated, other);
    }
    assert forall|x: EdgeId| #[trigger] h.has_edge_in(x, SubgraphKind::Architecture) implies {
        &&& h.edges[x].counter == h.support(all, x).len()
        &&& h.edges[x].state == (if h.edges[x].counter > 0 {
            EdgeState::Convergent
        } else {
            EdgeState::Absent
        })
    } by {
        assert(g.has_edge_in(x, SubgraphKind::Architecture));
        assert(h.support(all, x) == g.support(all, x));
    }
    assert forall|p: EdgeId| #[trigger] h.has_edge_in(p, SubgraphKind::Propagated) implies {
        &&& h.provenance.contains_key(p)
        &&& h.provenance[p] == h.onto(all, h.triple_of(p))
        &&& h.edges[p].state == h.triple_verdict(h.triple_of(p))
        &&& h.propagated_for(h.triple_of(p)) == Some(p)
    } by {
        assert(g.has_edge_in(p, SubgraphKind::Propagated));
        let tp = g.triple_of(p);
        assert(h.onto(all, tp) == g.onto(all, tp));
        assert(h.triple_verdict(tp) == g.triple_verdict(tp));
        assert(h.propagated_for(tp) == g.propagated_for(tp));
    }
    assert forall|i: EdgeId| #[trigger]
        h.has_edge_in(i, SubgraphKind::Implementation) implies h.edges[i].state == (if all.contains(i) {
        h.verdict(i)
    } else {
        EdgeState::Undefined
    }) by {
        assert(g.has_edge_in(i, SubgraphKind::Implementation));
        assert(g.verdict(i) == h.verdict(i));
    }
    assert forall|i: EdgeId| all.contains(i) implies (#[trigger] h.projection(i) matches Some(ti)
        ==> h.propagated_for(ti) is Some) by {
        assert(g.has_edge_in(i, SubgraphKind::Implementation));
        assert(g.projection(i) == h.projection(i));
        if let Some(ti) = g.projection(i) {
            assert(h.propagated_for(ti) == g.propagated_for(ti));
        }
    }
}

/// Having the same inputs carries over from graph to graph.
pub proof fn lemma_same_inputs_trans(a: GraphModel, b: GraphModel, c: GraphModel)
    requires
        a.same_inputs(b),
        b.same_inputs(c),
    ensures
        a.same_inputs(c),
{
    assert forall|id: EdgeId|
        #![trigger a.edges.contains_key(id)]
        #![trigger c.edges.contains_key(id)]
        (a.edges.contains_key(id) && a.edges[id].subgraph != SubgraphKind::Propagated) <==> (
        c.edges.contains_key(id) && c.edges[id].subgraph != SubgraphKind::Propagated) by {
        if a.edges.contains_key(id) && a.edges[id].subgraph != SubgraphKind::Propagated {
            assert(b.edges.contains_key(id));
        }
        if c.edges.contains_key(id) && c.edges[id].subgraph != SubgraphKind::Propagated {
            assert(b.edges.contains_key(id));
            assert(a.edges.contains_key(id));
        }
    }
    assert forall|id: EdgeId| #[trigger]
        a.edges.contains_key(id) && a.edges[id].subgraph != SubgraphKind::Propagated implies {
        &&& a.edges[id].from == c.edges[id].from
        &&& a.edges[id].to == c.edges[id].to
        &&& a.edges[id].kind == c.edges[id].kind
        &&& a.edges[id].subgraph == c.edges[id].subgraph
    } by {
        assert(b.edges.contains_key(id));
    }
}

/// `impl_edges_below(n)` lists exactly the live implementation edges with
/// a handle below `n`, each once, in ascending order.
pub proof fn lemma_impl_edges_below(g: GraphModel, n: nat)
    requires
        n <= u32::MAX + 1,
    ensures
        ({
            let s = g.impl_edges_below(n);
            &&& s.len() <= n
            &&& forall|j: int|
                0 <= j < s.len() ==> (#[trigger] s[j] as nat) < n && g.has_edge_in(
                    s[j],
                    SubgraphKind::Implementation,
                )
            &&& forall|i: int, j: int| 0 <= i < j < s.len() ==> s[i] < s[j]
            &&& forall|e: EdgeId|
                (e as nat) < n && #[trigger] g.has_edge_in(e, SubgraphKind::Implementation)
                    ==> s.contains(e)
            &&& s.no_duplicates()
        }),
    decreases n,
{
    if n > 0 {
        let m = (n - 1) as nat;
        lemma_impl_edges_below(g, m);
        let rest = g.impl_edges_below(m);
        let s = g.impl_edges_below(n);
        assert forall|e: EdgeId|
            (e as nat) < n && #[trigger] g.has_edge_in(
                e,
                SubgraphKind::Implementation,
            ) implies s.contains(e) by {
            if (e as nat) < m {
                assert(rest.contains(e));
                let j = choose|j: int| 0 <= j < rest.len() && rest[j] == e;
                assert(s[j] == e);
            } else {
                assert(s[s.len() - 1] == e);
            }
        }
    }
}

/// In a well-formed graph `impl_edges_below(next_edge)` lists all live
/// implementation edges, so it is as long as their set is large.
pub proof fn lemma_impl_edges_listed(g: GraphModel)
    requires
        g.wf(),
    ensures
        g.impl_edges().finite(),
        g.impl_edges_below(g.next_edge).to_set() == g.impl_edges(),
        g.impl_edges_below(g.next_edge).len() == g.impl_edges().len(),
        g.impl_edges_below(g.next_edge).no_duplicates(),
{
    let s = g.impl_edges_below(g.next_edge);
    lemma_impl_edges_below(g, g.next_edge);
    assert forall|e: EdgeId| s.to_set().contains(e) == g.impl_edges().contains(e) by {
        if g.impl_edges().contains(e) {
            assert(g.edges.contains_key(e));
        }
        if s.to_set().contains(e) {
            let j = choose|j: int| 0 <= j < s.len() && s[j] == e;
            assert(g.has_edge_in(s[j], SubgraphKind::Implementation));
        }
    }
    assert(s.to_set() =~= g.impl_edges());
    s.unique_seq_to_set();
}

} // verus!
