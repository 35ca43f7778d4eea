//! The mathematical model of a reflexion graph, and the classification
//! rules stated over it.

use vstd::prelude::*;
use crate::graph::{Edge, GraphError};
use crate::state::EdgeState;
use crate::types::{EdgeId, EdgeKind, NodeId, SubgraphKind};

verus! {

/// What a node is, as contracts see it.
pub struct NodeModel {
    pub label: Seq<char>,
    pub subgraph: SubgraphKind,
    pub parent: Option<NodeId>,
}

/// A (source, target, kind) triple in architecture space.
pub type Triple = (NodeId, NodeId, EdgeKind);

/// What a graph is, as contracts see it: the nodes by handle, the live
/// edges by handle, the mapping table, the propagation table, and the
/// handle that the next new edge will get.
pub struct GraphModel {
    pub nodes: Seq<NodeModel>,
    pub edges: Map<EdgeId, Edge>,
    pub mapping: Map<NodeId, NodeId>,
    pub provenance: Map<EdgeId, Set<EdgeId>>,
    pub next_edge: nat,
}

/// The subgraph whose nodes an edge of the given subgraph connects:
/// propagated edges live in architecture space.
pub open spec fn node_space(sub: SubgraphKind) -> SubgraphKind {
    match sub {
        SubgraphKind::Implementation => SubgraphKind::Implementation,
        _ => SubgraphKind::Architecture,
    }
}

/// An edge after the reset that precedes a classification run.
pub open spec fn reset_edge(e: Edge) -> Edge {
    match e.subgraph {
        SubgraphKind::Architecture => Edge { state: EdgeState::Specified, counter: 0, ..e },
        SubgraphKind::Implementation => Edge { state: EdgeState::Undefined, ..e },
        SubgraphKind::Propagated => e,
    }
}

/// An architecture edge after the closing normalisation: one that is still
/// `Specified` becomes `Absent` where nothing counts towards it, and
/// `Convergent` otherwise. Every other edge stays as it is.
pub open spec fn finalize_edge(e: Edge) -> Edge {
    if e.subgraph == SubgraphKind::Architecture && e.state == EdgeState::Specified {
        if e.counter == 0 {
            Edge { state: EdgeState::Absent, ..e }
        } else {
            Edge { state: EdgeState::Convergent, ..e }
        }
    } else {
        e
    }
}

impl GraphModel {
    /// The subgraph of a node, if the node exists.
    pub open spec fn node_kind(self, n: NodeId) -> Option<SubgraphKind> {
        if (n as int) < self.nodes.len() {
            Some(self.nodes[n as int].subgraph)
        } else {
            None
        }
    }

    /// The provenance set of an edge; empty where the table has no entry.
    pub open spec fn sources(self, p: EdgeId) -> Set<EdgeId> {
        if self.provenance.contains_key(p) {
            self.provenance[p]
        } else {
            Set::empty()
        }
    }

    /// `id` is a live edge of subgraph `sub`.
    pub open spec fn has_edge_in(self, id: EdgeId, sub: SubgraphKind) -> bool {
        self.edges.contains_key(id) && self.edges[id].subgraph == sub
    }

    /// The invariants of nodes, edges and propagation table: every edge
    /// connects existing nodes of the subgraph it belongs to, a propagated
    /// edge counts its sources, and the propagation table speaks of live
    /// propagated and implementation edges only.
    pub open spec fn structure_ok(self) -> bool {
        &&& self.nodes.len() <= u32::MAX
        &&& self.next_edge <= u32::MAX
        &&& forall|n: int|
            0 <= n < self.nodes.len() ==> ((#[trigger] self.nodes[n]).parent matches Some(p) ==> p
                < n)
        &&& forall|id: EdgeId| #[trigger]
            self.edges.contains_key(id) ==> {
                let e = self.edges[id];
                &&& id < self.next_edge
                &&& e.id == id
                &&& self.node_kind(e.from) == Some(node_space(e.subgraph))
                &&& self.node_kind(e.to) == Some(node_space(e.subgraph))
                &&& (e.subgraph == SubgraphKind::Implementation ==> e.counter == 0)
                &&& (e.subgraph == SubgraphKind::Propagated ==> e.counter == self.sources(id).len())
            }
        &&& forall|p: EdgeId| #[trigger]
            self.provenance.contains_key(p) ==> {
                &&& self.has_edge_in(p, SubgraphKind::Propagated)
                &&& self.provenance[p].finite()
                &&& self.provenance[p].len() > 0
                &&& forall|e: EdgeId| #[trigger]
                    self.provenance[p].contains(e) ==> self.has_edge_in(
                        e,
                        SubgraphKind::Implementation,
                    )
            }
    }

    /// Every mapping entry leads from an implementation node to an
    /// architecture node.
    pub open spec fn mapping_valid(self) -> bool {
        forall|n: NodeId| #[trigger]
            self.mapping.contains_key(n) ==> {
                &&& self.node_kind(n) == Some(SubgraphKind::Implementation)
                &&& self.node_kind(self.mapping[n]) == Some(SubgraphKind::Architecture)
            }
    }

    /// The structural invariants of the data model.
    pub open spec fn wf(self) -> bool {
        &&& self.structure_ok()
        &&& self.mapping_valid()
    }

    /// Why the mapping entry of `n` is unusable, if it is: its
    /// implementation node or its architecture node does not exist or lies
    /// in the wrong subgraph; the implementation node is looked at first.
    pub open spec fn entry_error(self, n: NodeId) -> Option<GraphError> {
        self.mapping_error(n, self.mapping[n])
    }

    /// `n` has an unusable mapping entry, and no smaller node has one.
    pub open spec fn is_first_invalid(self, n: NodeId) -> bool {
        &&& self.mapping.contains_key(n)
        &&& self.entry_error(n) is Some
        &&& forall|m: NodeId|
            #[trigger] self.mapping.contains_key(m) && m < n ==> self.entry_error(m) is None
    }

    /// What a sweep over the mapping table finds, going by ascending
    /// implementation node: the error of the first unusable entry, or
    /// nothing.
    pub open spec fn mapping_check(self) -> Result<(), GraphError> {
        if exists|n: NodeId| self.is_first_invalid(n) {
            Err(self.entry_error(choose|n: NodeId| self.is_first_invalid(n)).unwrap())
        } else {
            Ok(())
        }
    }

    /// Why `n` cannot be used as a node of subgraph `expected`, if it
    /// cannot: it does not exist, or it lies in another subgraph.
    pub open spec fn node_error(self, n: NodeId, expected: SubgraphKind) -> Option<GraphError> {
        match self.node_kind(n) {
            None => Some(GraphError::NodeNotFound(n)),
            Some(found) => if found != expected {
                Some(GraphError::WrongSubgraph { node: n, expected, found })
            } else {
                None
            },
        }
    }

    /// Why the pair cannot be used as a mapping entry, if it cannot; the
    /// implementation node is looked at first.
    pub open spec fn mapping_error(self, impl_node: NodeId, arch_node: NodeId) -> Option<GraphError> {
        match self.node_error(impl_node, SubgraphKind::Implementation) {
            Some(err) => Some(err),
            None => self.node_error(arch_node, SubgraphKind::Architecture),
        }
    }

    /// Why a strict insert of the pair fails, if it fails: the pair is
    /// unusable, or the implementation node maps elsewhere already.
    pub open spec fn strict_mapping_error(self, impl_node: NodeId, arch_node: NodeId) -> Option<
        GraphError,
    > {
        match self.mapping_error(impl_node, arch_node) {
            Some(err) => Some(err),
            None => if self.mapping.contains_key(impl_node) && self.mapping[impl_node] != arch_node {
                Some(
                    GraphError::MappingAlreadyExists {
                        impl_node,
                        old_arch: self.mapping[impl_node],
                        new_arch: arch_node,
                    },
                )
            } else {
                None
            },
        }
    }

    /// The architecture node that `impl_node` maps to, if it is mapped.
    pub open spec fn mapped(self, impl_node: NodeId) -> Option<NodeId> {
        if self.mapping.contains_key(impl_node) {
            Some(self.mapping[impl_node])
        } else {
            None
        }
    }

    /// The graph with the mapping table replaced.
    pub open spec fn with_mapping(self, mapping: Map<NodeId, NodeId>) -> GraphModel {
        GraphModel { mapping, ..self }
    }

    /// The graph with the state and counter of live edge `id` replaced.
    pub open spec fn with_edge_data(self, id: EdgeId, state: EdgeState, counter: u32) -> GraphModel {
        GraphModel {
            edges: self.edges.insert(id, Edge { state, counter, ..self.edges[id] }),
            ..self
        }
    }

    /// The graph with the state of live edge `id` replaced.
    pub open spec fn with_state(self, id: EdgeId, state: EdgeState) -> GraphModel {
        self.with_edge_data(id, state, self.edges[id].counter)
    }

    /// The graph after the reset that precedes a classification run:
    /// architecture edges are `Specified` with counter 0, implementation
    /// edges are `Undefined`, propagated edges are as they were.
    pub open spec fn initialized(self) -> GraphModel {
        GraphModel { edges: self.edges.map_values(|e: Edge| reset_edge(e)), ..self }
    }

    /// The graph without its propagated edges and with an empty
    /// propagation table.
    pub open spec fn cleared(self) -> GraphModel {
        GraphModel {
            edges: self.edges.restrict(
                Set::new(|id: EdgeId| self.edges[id].subgraph != SubgraphKind::Propagated),
            ),
            provenance: Map::empty(),
            ..self
        }
    }

    /// The graph after the closing normalisation of the architecture edges.
    pub open spec fn finalized(self) -> GraphModel {
        GraphModel { edges: self.edges.map_values(|e: Edge| finalize_edge(e)), ..self }
    }

    /// The live edges in a violating state.
    pub open spec fn violations(self) -> Set<EdgeId> {
        Set::new(|id: EdgeId| self.edges.contains_key(id) && self.edges[id].state.is_violation())
    }

    /// The graph without edge `id`.
    pub open spec fn without_edge(self, id: EdgeId) -> GraphModel {
        GraphModel { edges: self.edges.remove(id), ..self }
    }

    /// Why `edge` cannot be added, if it cannot: an endpoint that does not
    /// exist, or one that lies in the wrong subgraph; the source is looked
    /// at first.
    pub open spec fn edge_error(self, edge: Edge) -> Option<GraphError> {
        let space = node_space(edge.subgraph);
        match self.node_kind(edge.from) {
            None => Some(GraphError::NodeNotFound(edge.from)),
            Some(found) => if found != space {
                Some(GraphError::WrongSubgraph { node: edge.from, expected: space, found })
            } else {
                match self.node_kind(edge.to) {
                    None => Some(GraphError::NodeNotFound(edge.to)),
                    Some(found) => if found != space {
                        Some(GraphError::WrongSubgraph { node: edge.to, expected: space, found })
                    } else {
                        None
                    },
                }
            },
        }
    }

    /// The edge as the graph stores it when it is added: under the next
    /// free handle, not yet classified.
    pub open spec fn fresh_edge(self, edge: Edge) -> Edge {
        Edge {
            id: self.next_edge as EdgeId,
            from: edge.from,
            to: edge.to,
            kind: edge.kind,
            subgraph: edge.subgraph,
            state: EdgeState::Undefined,
            counter: 0,
        }
    }

    /// The graph after `edge` was added.
    pub open spec fn with_edge(self, edge: Edge) -> GraphModel {
        GraphModel {
            edges: self.edges.insert(self.next_edge as EdgeId, self.fresh_edge(edge)),
            next_edge: self.next_edge + 1,
            ..self
        }
    }

    /// `id` is a live edge of subgraph `sub` with exactly the triple `t`.
    pub open spec fn is_match(self, id: EdgeId, sub: SubgraphKind, t: Triple) -> bool {
        &&& self.edges.contains_key(id)
        &&& self.edges[id].subgraph == sub
        &&& self.edges[id].from == t.0
        &&& self.edges[id].to == t.1
        &&& self.edges[id].kind == t.2
    }

    /// `id` is the oldest live edge of subgraph `sub` with the triple `t`.
    pub open spec fn is_first_match(self, id: EdgeId, sub: SubgraphKind, t: Triple) -> bool {
        &&& self.is_match(id, sub, t)
        &&& forall|other: EdgeId| #[trigger] self.is_match(other, sub, t) ==> id <= other
    }

    /// The oldest live edge of subgraph `sub` with the triple `t`, if any.
    pub open spec fn first_match(self, sub: SubgraphKind, t: Triple) -> Option<EdgeId> {
        if exists|id: EdgeId| self.is_first_match(id, sub, t) {
            Some(choose|id: EdgeId| self.is_first_match(id, sub, t))
        } else {
            None
        }
    }

    /// Lifting: the specified architecture edge that exactly matches `t`.
    pub open spec fn lift(self, t: Triple) -> Option<EdgeId> {
        self.first_match(SubgraphKind::Architecture, t)
    }

    /// The propagated edge that stands for the triple `t`.
    pub open spec fn propagated_for(self, t: Triple) -> Option<EdgeId> {
        self.first_match(SubgraphKind::Propagated, t)
    }

    /// The triple that implementation edge `e` projects onto through the
    /// mapping; `None` where either endpoint is unmapped.
    pub open spec fn projection(self, e: EdgeId) -> Option<Triple> {
        let edge = self.edges[e];
        if self.mapping.contains_key(edge.from) && self.mapping.contains_key(edge.to) {
            Some((self.mapping[edge.from], self.mapping[edge.to], edge.kind))
        } else {
            None
        }
    }

    /// A propagated edge for the triple `t`, as it is handed to the graph.
    pub open spec fn propagated_edge(t: Triple) -> Edge {
        Edge {
            id: 0,
            from: t.0,
            to: t.1,
            kind: t.2,
            subgraph: SubgraphKind::Propagated,
            state: EdgeState::Undefined,
            counter: 0,
        }
    }

    /// The graph after the propagated edge for `t` was found or created.
    pub open spec fn with_propagated(self, t: Triple) -> GraphModel {
        if self.propagated_for(t) is Some {
            self
        } else {
            self.with_edge(Self::propagated_edge(t))
        }
    }

    /// The handle of the propagated edge for `t` once it was found or
    /// created.
    pub open spec fn propagation_target(self, t: Triple) -> EdgeId {
        match self.propagated_for(t) {
            Some(p) => p,
            None => self.next_edge as EdgeId,
        }
    }

    /// Why `e` cannot be propagated, if it cannot: it is no live edge, or
    /// it is no implementation edge.
    pub open spec fn impl_edge_error(self, e: EdgeId) -> Option<GraphError> {
        if !self.edges.contains_key(e) {
            Some(GraphError::EdgeNotFound(e))
        } else if self.edges[e].subgraph != SubgraphKind::Implementation {
            Some(
                GraphError::WrongSubgraph {
                    node: self.edges[e].from,
                    expected: SubgraphKind::Implementation,
                    found: self.edges[e].subgraph,
                },
            )
        } else {
            None
        }
    }

    /// Propagating `e` needs no edge handle beyond the last one.
    pub open spec fn can_propagate(self, e: EdgeId) -> bool {
        self.impl_edge_error(e) is None ==> (self.projection(e) matches Some(t)
            ==> self.propagated_for(t) is None ==> self.next_edge < u32::MAX)
    }

    /// The graph after implementation edge `e` was propagated: with an
    /// unmapped endpoint `e` is `Unmapped` and nothing else changes;
    /// otherwise the propagated edge for its projection exists, has `e`
    /// among its sources, and counts its sources.
    pub open spec fn propagated(self, e: EdgeId) -> GraphModel {
        match self.projection(e) {
            None => self.with_state(e, EdgeState::Unmapped),
            Some(t) => {
                let g = self.with_propagated(t);
                let p = self.propagation_target(t);
                let sources = g.sources(p).insert(e);
                GraphModel {
                    edges: g.edges.insert(p, Edge { counter: sources.len() as u32, ..g.edges[p] }),
                    provenance: g.provenance.insert(p, sources),
                    ..g
                }
            },
        }
    }

    /// Lifting `e` keeps the counter of the matched architecture edge in
    /// range.
    pub open spec fn can_lift(self, e: EdgeId) -> bool {
        self.impl_edge_error(e) is None ==> (self.projection(e) matches Some(t) ==> (self.lift(
            t,
        ) matches Some(x) ==> self.edges[x].counter < u32::MAX))
    }

    /// The graph after implementation edge `e` was propagated and lifted.
    /// With an unmapped endpoint that is the graph after propagation. Where
    /// an architecture edge matches the projection of `e`, that edge counts
    /// one more and is `Convergent`, and the propagated edge and `e` are
    /// `Allowed`; where none matches, both are `Divergent`.
    pub open spec fn lifted(self, e: EdgeId) -> GraphModel {
        let g = self.propagated(e);
        match self.projection(e) {
            None => g,
            Some(t) => {
                let p = self.propagation_target(t);
                match self.lift(t) {
                    Some(x) => g.with_edge_data(
                        x,
                        EdgeState::Convergent,
                        (g.edges[x].counter + 1) as u32,
                    ).with_state(p, EdgeState::Allowed).with_state(e, EdgeState::Allowed),
                    None => g.with_state(p, EdgeState::Divergent).with_state(
                        e,
                        EdgeState::Divergent,
                    ),
                }
            },
        }
    }

    /// The triple of a live edge.
    pub open spec fn triple_of(self, id: EdgeId) -> Triple {
        (self.edges[id].from, self.edges[id].to, self.edges[id].kind)
    }
}

/// Where `n` has the first unusable mapping entry, the sweep reports the
/// error of that entry.
pub proof fn lemma_mapping_check_fails(g: GraphModel, n: NodeId)
    requires
        g.is_first_invalid(n),
    ensures
        g.mapping_check() == Err::<(), GraphError>(g.entry_error(n).unwrap()),
        !g.mapping_valid(),
{
    let c = choose|c: NodeId| g.is_first_invalid(c);
    assert(g.mapping.contains_key(c));
    assert(g.mapping.contains_key(n));
    if c < n {
        assert(g.entry_error(c) is None);
    }
    if n < c {
        assert(g.entry_error(n) is None);
    }
}

/// Where every mapping entry is usable, the sweep reports nothing, and
/// the mapping table is valid.
pub proof fn lemma_mapping_check_passes(g: GraphModel)
    requires
        forall|n: NodeId| #[trigger] g.mapping.contains_key(n) ==> g.entry_error(n) is None,
    ensures
        g.mapping_check() == Ok::<(), GraphError>(()),
        g.mapping_valid(),
{
    assert forall|n: NodeId| !g.is_first_invalid(n) by {
        if g.mapping.contains_key(n) {
            assert(g.entry_error(n) is None);
        }
    }
    assert forall|n: NodeId| #[trigger] g.mapping.contains_key(n) implies {
        &&& g.node_kind(n) == Some(SubgraphKind::Implementation)
        &&& g.node_kind(g.mapping[n]) == Some(SubgraphKind::Architecture)
    } by {
        assert(g.entry_error(n) is None);
    }
}

/// Any two first matches are the same edge.
pub proof fn lemma_first_match_unique(g: GraphModel, a: EdgeId, b: EdgeId, sub: SubgraphKind, t: Triple)
    requires
        g.is_first_match(a, sub, t),
        g.is_first_match(b, sub, t),
    ensures
        a == b,
{
    assert(g.is_match(a, sub, t));
    assert(g.is_match(b, sub, t));
}

/// An edge that is a first match is what `first_match` returns.
pub proof fn lemma_first_match_is(g: GraphModel, a: EdgeId, sub: SubgraphKind, t: Triple)
    requires
        g.is_first_match(a, sub, t),
    ensures
        g.first_match(sub, t) == Some(a),
{
    let c = choose|id: EdgeId| g.is_first_match(id, sub, t);
    lemma_first_match_unique(g, a, c, sub, t);
}

/// What `first_match` returns is a first match.
pub proof fn lemma_first_match_some(g: GraphModel, sub: SubgraphKind, t: Triple)
    requires
        g.first_match(sub, t) is Some,
    ensures
        g.is_first_match(g.first_match(sub, t).unwrap(), sub, t),
{
}

/// Where an edge matches, there is a first match.
pub proof fn lemma_match_has_first(g: GraphModel, id: EdgeId, sub: SubgraphKind, t: Triple)
    requires
        g.is_match(id, sub, t),
    ensures
        g.first_match(sub, t) is Some,
        g.first_match(sub, t).unwrap() <= id,
    decreases id,
{
    if forall|other: EdgeId| #[trigger] g.is_match(other, sub, t) ==> id <= other {
        assert(g.is_first_match(id, sub, t));
        lemma_first_match_is(g, id, sub, t);
    } else {
        let other = choose|other: EdgeId| #[trigger] g.is_match(other, sub, t) && !(id <= other);
        lemma_match_has_first(g, other, sub, t);
    }
}

/// Two graphs with the same matches for a triple have the same first
/// match for it.
pub proof fn lemma_first_match_stable(g1: GraphModel, g2: GraphModel, sub: SubgraphKind, t: Triple)
    requires
        forall|id: EdgeId| g1.is_match(id, sub, t) == g2.is_match(id, sub, t),
    ensures
        g1.first_match(sub, t) == g2.first_match(sub, t),
{
    if g1.first_match(sub, t) is Some {
        let a = g1.first_match(sub, t).unwrap();
        assert(g1.is_first_match(a, sub, t));
        assert(g2.is_match(a, sub, t));
        assert forall|other: EdgeId| #[trigger] g2.is_match(other, sub, t) implies a <= other by {
            assert(g1.is_match(other, sub, t));
        }
        lemma_first_match_is(g2, a, sub, t);
    } else {
        if g2.first_match(sub, t) is Some {
            let b = g2.first_match(sub, t).unwrap();
            assert(g2.is_first_match(b, sub, t));
            assert(g1.is_match(b, sub, t));
            lemma_match_has_first(g1, b, sub, t);
        }
    }
}

/// Replacing state and counter of an edge keeps the graph well formed
/// where the counter of an implementation or propagated edge stays.
pub proof fn lemma_edge_data_wf(g: GraphModel, id: EdgeId, state: EdgeState, counter: u32)
    requires
        g.wf(),
        g.edges.contains_key(id),
        g.edges[id].subgraph != SubgraphKind::Architecture ==> counter == g.edges[id].counter,
    ensures
        g.with_edge_data(id, state, counter).wf(),
{
    let h = g.with_edge_data(id, state, counter);
    assert forall|x: EdgeId| #[trigger] h.edges.contains_key(x) implies h.sources(x) == g.sources(x) by {}
    assert forall|p: EdgeId| #[trigger] h.provenance.contains_key(p) implies {
        &&& h.has_edge_in(p, SubgraphKind::Propagated)
        &&& forall|e: EdgeId| #[trigger]
            h.provenance[p].contains(e) ==> h.has_edge_in(e, SubgraphKind::Implementation)
    } by {
        assert(g.provenance.contains_key(p));
        assert(g.has_edge_in(p, SubgraphKind::Propagated));
        assert forall|e: EdgeId| #[trigger] h.provenance[p].contains(e) implies h.has_edge_in(
            e,
            SubgraphKind::Implementation,
        ) by {
            assert(g.provenance[p].contains(e));
            assert(g.has_edge_in(e, SubgraphKind::Implementation));
        }
    }
}

/// Removing the propagated edges keeps the graph well formed.
pub proof fn lemma_cleared_wf(g: GraphModel)
    requires
        g.wf(),
    ensures
        g.cleared().wf(),
{
    let h = g.cleared();
    assert forall|x: EdgeId| #[trigger] h.edges.contains_key(x) implies g.edges.contains_key(x)
        && h.edges[x] == g.edges[x] by {}
}

/// Adding an acceptable edge keeps the graph well formed.
pub proof fn lemma_with_edge_wf(g: GraphModel, edge: Edge)
    requires
        g.wf(),
        g.edge_error(edge) is None,
        g.next_edge < u32::MAX,
    ensures
        g.with_edge(edge).wf(),
{
    let h = g.with_edge(edge);
    let id = g.next_edge as EdgeId;
    if g.provenance.contains_key(id) {
        assert(g.has_edge_in(id, SubgraphKind::Propagated));
    }
    assert forall|x: EdgeId| #[trigger] h.edges.contains_key(x) implies h.sources(x) == g.sources(x) by {}
    assert(h.sources(id).len() == 0);
    assert forall|p: EdgeId| #[trigger] h.provenance.contains_key(p) implies {
        &&& h.has_edge_in(p, SubgraphKind::Propagated)
        &&& forall|e: EdgeId| #[trigger]
            h.provenance[p].contains(e) ==> h.has_edge_in(e, SubgraphKind::Implementation)
    } by {
        assert(g.provenance.contains_key(p));
        assert(g.has_edge_in(p, SubgraphKind::Propagated));
        assert forall|e: EdgeId| #[trigger] h.provenance[p].contains(e) implies h.has_edge_in(
            e,
            SubgraphKind::Implementation,
        ) by {
            assert(g.provenance[p].contains(e));
            assert(g.has_edge_in(e, SubgraphKind::Implementation));
        }
    }
}

/// The reset before a run keeps the graph well formed.
pub proof fn lemma_initialized_wf(g: GraphModel)
    requires
        g.wf(),
    ensures
        g.initialized().wf(),
{
    let h = g.initialized();
    assert forall|x: EdgeId| #[trigger] h.edges.contains_key(x) implies h.sources(x) == g.sources(x)
        && g.edges.contains_key(x) by {}
    assert forall|p: EdgeId| #[trigger] h.provenance.contains_key(p) implies {
        &&& h.has_edge_in(p, SubgraphKind::Propagated)
        &&& forall|e: EdgeId| #[trigger]
            h.provenance[p].contains(e) ==> h.has_edge_in(e, SubgraphKind::Implementation)
    } by {
        assert(g.provenance.contains_key(p));
        assert(g.has_edge_in(p, SubgraphKind::Propagated));
        assert forall|e: EdgeId| #[trigger] h.provenance[p].contains(e) implies h.has_edge_in(
            e,
            SubgraphKind::Implementation,
        ) by {
            assert(g.provenance[p].contains(e));
            assert(g.has_edge_in(e, SubgraphKind::Implementation));
        }
    }
}

/// The closing normalisation keeps the graph well formed.
pub proof fn lemma_finalized_wf(g: GraphModel)
    requires
        g.wf(),
    ensures
        g.finalized().wf(),
{
    let h = g.finalized();
    assert forall|x: EdgeId| #[trigger] h.edges.contains_key(x) implies h.sources(x) == g.sources(x)
        && g.edges.contains_key(x) by {}
    assert forall|p: EdgeId| #[trigger] h.provenance.contains_key(p) implies {
        &&& h.has_edge_in(p, SubgraphKind::Propagated)
        &&& forall|e: EdgeId| #[trigger]
            h.provenance[p].contains(e) ==> h.has_edge_in(e, SubgraphKind::Implementation)
    } by {
        assert(g.provenance.contains_key(p));
        assert(g.has_edge_in(p, SubgraphKind::Propagated));
        assert forall|e: EdgeId| #[trigger] h.provenance[p].contains(e) implies h.has_edge_in(
            e,
            SubgraphKind::Implementation,
        ) by {
            assert(g.provenance[p].contains(e));
            assert(g.has_edge_in(e, SubgraphKind::Implementation));
        }
    }
}

/// Where no edge matches, `first_match` returns nothing.
pub proof fn lemma_first_match_none(g: GraphModel, sub: SubgraphKind, t: Triple)
    requires
        forall|id: EdgeId| !g.is_match(id, sub, t),
    ensures
        g.first_match(sub, t) is None,
{
}

} // verus!
