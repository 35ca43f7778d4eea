//! The graph store: nodes and edges by integer handle, adjacency indices,
//! the mapping table and the propagation table.

use vstd::prelude::*;
use crate::model::{
    GraphModel, NodeModel, lemma_cleared_wf, lemma_first_match_is, lemma_first_match_none,
    lemma_initialized_wf, reset_edge,
};
use crate::state::EdgeState;
use crate::types::{EdgeId, EdgeKind, NodeId, SubgraphKind};
use crate::util::{below, lemma_below_finite, lemma_below_step};

verus! {

/// A node of the architecture or of the implementation.
#[derive(Clone, Debug)]
pub struct Node {
    pub label: String,
    pub subgraph: SubgraphKind,
    pub parent: Option<NodeId>,
}

impl View for Node {
    type V = NodeModel;

    open spec fn view(&self) -> NodeModel {
        NodeModel { label: self.label@, subgraph: self.subgraph, parent: self.parent }
    }
}

impl Node {
    /// A node with the given label, subgraph and optional parent.
    pub fn new(label: &str, subgraph: SubgraphKind, parent: Option<NodeId>) -> (n: Node)
        ensures
            n@ == (NodeModel { label: label@, subgraph, parent }),
    {
        Node { label: label.to_owned(), subgraph, parent }
    }
}

/// A relationship between two nodes. `state` and `counter` belong to the
/// classification subsystem; `id` is assigned by the graph.
#[derive(Clone, Copy, Debug, PartialEq, Eq, Structural)]
pub struct Edge {
    pub id: EdgeId,
    pub from: NodeId,
    pub to: NodeId,
    pub kind: EdgeKind,
    pub subgraph: SubgraphKind,
    pub state: EdgeState,
    pub counter: u32,
}

/// What can go wrong at the graph's boundary.
#[derive(Clone, Copy, Debug, PartialEq, Eq, Structural)]
pub enum GraphError {
    /// The edge handle refers to no live edge.
    EdgeNotFound(EdgeId),
    /// The node handle refers to no node.
    NodeNotFound(NodeId),
    /// A node or edge was used where another subgraph is required.
    WrongSubgraph { node: NodeId, expected: SubgraphKind, found: SubgraphKind },
    /// A strict mapping insert met a different existing mapping.
    MappingAlreadyExists { impl_node: NodeId, old_arch: NodeId, new_arch: NodeId },
}

/// `s` is strictly increasing.
pub open spec fn strictly_increasing(s: Seq<EdgeId>) -> bool {
    forall|i: int, j: int| 0 <= i < j < s.len() ==> s[i] < s[j]
}

/// The reflexion graph: an arena of nodes and edges with the mapping and
/// propagation tables.
pub struct ReflexionGraph {
    pub(crate) nodes: Vec<Node>,
    pub(crate) edges: Vec<Option<Edge>>,
    pub(crate) maps_to: Vec<Option<NodeId>>,
    pub(crate) arch_out: Vec<Vec<EdgeId>>,
    pub(crate) impl_out: Vec<Vec<EdgeId>>,
    pub(crate) provenance: Vec<Vec<EdgeId>>,
}

impl View for ReflexionGraph {
    type V = GraphModel;

    open(crate) spec fn view(&self) -> GraphModel {
        GraphModel {
            nodes: Seq::new(self.nodes.len() as nat, |i: int| self.nodes[i]@),
            edges: Map::new(
                |id: EdgeId| (id as int) < self.edges.len() && self.edges[id as int] is Some,
                |id: EdgeId| self.edges[id as int].unwrap(),
            ),
            mapping: Map::new(
                |n: NodeId| (n as int) < self.maps_to.len() && self.maps_to[n as int] is Some,
                |n: NodeId| self.maps_to[n as int].unwrap(),
            ),
            provenance: Map::new(
                |p: EdgeId| (p as int) < self.provenance.len() && self.provenance[p as int].len() > 0,
                |p: EdgeId| self.provenance[p as int]@.to_set(),
            ),
            next_edge: self.edges.len() as nat,
        }
    }
}

impl ReflexionGraph {
    /// `out` is an adjacency index: per node, the live edges that leave it,
    /// oldest first. With `implementation` it indexes the implementation
    /// edges, without it the architecture and propagated edges.
    pub open(crate) spec fn index_ok(&self, out: Seq<Vec<EdgeId>>, implementation: bool) -> bool {
        &&& out.len() == self.nodes.len()
        &&& forall|n: int| 0 <= n < out.len() ==> strictly_increasing(#[trigger] out[n]@)
        &&& forall|n: int, j: int|
            0 <= n < out.len() && 0 <= j < out[n].len() ==> {
                let id = #[trigger] out[n]@[j];
                &&& (id as int) < self.edges.len()
                &&& self.edges[id as int] matches Some(e)
                &&& e.from == n
                &&& (e.subgraph == SubgraphKind::Implementation) == implementation
            }
        &&& forall|id: int|
            0 <= id < self.edges.len() ==> ((#[trigger] self.edges[id]) matches Some(e) ==> (e.subgraph
                == SubgraphKind::Implementation) == implementation ==> out[e.from as int]@.contains(
                id as EdgeId,
            ))
    }

    /// The graph is well formed: the store is, and every mapping entry
    /// leads from an implementation node to an architecture node.
    pub open spec fn wf(&self) -> bool {
        &&& self.store_wf()
        &&& self@.mapping_valid()
    }

    /// The store is well formed, whatever the mapping table holds: the
    /// invariants of nodes, edges and propagation table hold and the
    /// indices agree with the edges.
    pub open(crate) spec fn store_wf(&self) -> bool {
        &&& self@.structure_ok()
        &&& self.repr_ok()
    }

    /// The representation invariant: the tables are as long as the arenas,
    /// and the adjacency indices list exactly the live edges.
    pub open(crate) spec fn repr_ok(&self) -> bool {
        &&& self.maps_to.len() == self.nodes.len()
        &&& self.provenance.len() == self.edges.len()
        &&& self.index_ok(self.arch_out@, false)
        &&& self.index_ok(self.impl_out@, true)
        &&& forall|p: int|
            0 <= p < self.provenance.len() ==> (#[trigger] self.provenance[p]@).no_duplicates()
    }

    /// An empty graph.
    pub fn new() -> (g: ReflexionGraph)
        ensures
            g.wf(),
            g@.nodes.len() == 0,
            g@.edges == Map::<EdgeId, Edge>::empty(),
            g@.mapping == Map::<NodeId, NodeId>::empty(),
            g@.provenance == Map::<EdgeId, Set<EdgeId>>::empty(),
            g@.next_edge == 0,
    {
        let g = ReflexionGraph {
            nodes: Vec::new(),
            edges: Vec::new(),
            maps_to: Vec::new(),
            arch_out: Vec::new(),
            impl_out: Vec::new(),
            provenance: Vec::new(),
        };
        assert(g@.edges =~= Map::<EdgeId, Edge>::empty());
        assert(g@.mapping =~= Map::<NodeId, NodeId>::empty());
        assert(g@.provenance =~= Map::<EdgeId, Set<EdgeId>>::empty());
        g
    }

    /// Adds a node and returns its handle. A parent, if given, must be a
    /// node of the graph already.
    pub fn add_node(&mut self, node: Node) -> (r: Result<NodeId, GraphError>)
        requires
            old(self).wf(),
            old(self)@.nodes.len() < u32::MAX,
        ensures
            final(self).wf(),
            match node.parent {
                Some(p) if p >= old(self)@.nodes.len() => {
                    &&& r == Err::<NodeId, GraphError>(GraphError::NodeNotFound(p))
                    &&& final(self)@ == old(self)@
                },
                _ => {
                    &&& r == Ok::<NodeId, GraphError>(old(self)@.nodes.len() as NodeId)
                    &&& final(self)@ == (GraphModel {
                        nodes: old(self)@.nodes.push(node@),
                        ..old(self)@
                    })
                },
            },
    {
        match node.parent {
            Some(p) => {
                if p as usize >= self.nodes.len() {
                    return Err(GraphError::NodeNotFound(p));
                }
            },
            None => {},
        }
        let id: NodeId = self.nodes.len() as NodeId;
        self.nodes.push(node);
        self.maps_to.push(None);
        self.arch_out.push(Vec::new());
        self.impl_out.push(Vec::new());
        proof {
            assert(self@.nodes =~= old(self)@.nodes.push(node@));
            assert(self@.edges =~= old(self)@.edges);
            assert(self@.mapping =~= old(self)@.mapping);
            assert(self@.provenance =~= old(self)@.provenance);
            assert forall|e: int| 0 <= e < self.edges.len() implies (#[trigger] self.edges[e] matches Some(
                edge,
            ) ==> (if edge.subgraph == SubgraphKind::Implementation {
                self.impl_out
            } else {
                self.arch_out
            })[edge.from as int]@.contains(e as EdgeId)) by {
                if let Some(edge) = self.edges[e] {
                    assert(old(self)@.edges.contains_key(e as EdgeId));
                    if edge.subgraph == SubgraphKind::Implementation {
                        let j = choose|j: int|
                            0 <= j < old(self).impl_out[edge.from as int]@.len() && old(
                                self,
                            ).impl_out[edge.from as int]@[j] == e as EdgeId;
                        assert(self.impl_out[edge.from as int]@[j] == e as EdgeId);
                    } else {
                        let j = choose|j: int|
                            0 <= j < old(self).arch_out[edge.from as int]@.len() && old(
                                self,
                            ).arch_out[edge.from as int]@[j] == e as EdgeId;
                        assert(self.arch_out[edge.from as int]@[j] == e as EdgeId);
                    }
                }
            }
        }
        Ok(id)
    }

    /// Adds an edge and returns its handle. The edge is stored under a
    /// fresh handle and not yet classified, whatever `id`, `state` and
    /// `counter` it came with. Both endpoints must exist and lie in the
    /// subgraph that the edge's own subgraph connects.
    pub fn add_edge(&mut self, edge: Edge) -> (r: Result<EdgeId, GraphError>)
        requires
            old(self).wf(),
            old(self)@.next_edge < u32::MAX,
        ensures
            final(self).wf(),
            match old(self)@.edge_error(edge) {
                Some(err) => {
                    &&& r == Err::<EdgeId, GraphError>(err)
                    &&& final(self)@ == old(self)@
                },
                None => {
                    &&& r == Ok::<EdgeId, GraphError>(old(self)@.next_edge as EdgeId)
                    &&& final(self)@ == old(self)@.with_edge(edge)
                },
            },
    {
        let space = match edge.subgraph {
            SubgraphKind::Implementation => SubgraphKind::Implementation,
            _ => SubgraphKind::Architecture,
        };
        let from_kind = self.node_subgraph(edge.from)?;
        if from_kind != space {
            return Err(GraphError::WrongSubgraph { node: edge.from, expected: space, found: from_kind });
        }
        let to_kind = self.node_subgraph(edge.to)?;
        if to_kind != space {
            return Err(GraphError::WrongSubgraph { node: edge.to, expected: space, found: to_kind });
        }
        let id: EdgeId = self.edges.len() as EdgeId;
        let stored = Edge {
            id,
            from: edge.from,
            to: edge.to,
            kind: edge.kind,
            subgraph: edge.subgraph,
            state: EdgeState::Undefined,
            counter: 0,
        };
        self.edges.push(Some(stored));
        self.provenance.push(Vec::new());
        match edge.subgraph {
            SubgraphKind::Implementation => {
                self.impl_out[edge.from as usize].push(id);
            },
            _ => {
                self.arch_out[edge.from as usize].push(id);
            },
        }
        proof {
            assert(self@.nodes =~= old(self)@.nodes);
            assert(self@.edges =~= old(self)@.with_edge(edge).edges);
            assert(self@.mapping =~= old(self)@.mapping);
            assert(self@.provenance =~= old(self)@.provenance);
            assert forall|e: int| 0 <= e < self.edges.len() implies (#[trigger] self.edges[e] matches Some(
                edge,
            ) ==> (if edge.subgraph == SubgraphKind::Implementation {
                self.impl_out
            } else {
                self.arch_out
            })[edge.from as int]@.contains(e as EdgeId)) by {
                if let Some(edge) = self.edges[e] {
                    let was = if edge.subgraph == SubgraphKind::Implementation {
                        old(self).impl_out
                    } else {
                        old(self).arch_out
                    }[edge.from as int]@;
                    let now = if edge.subgraph == SubgraphKind::Implementation {
                        self.impl_out
                    } else {
                        self.arch_out
                    }[edge.from as int]@;
                    if e < old(self).edges.len() {
                        assert(old(self)@.edges.contains_key(e as EdgeId));
                        let j = choose|j: int| 0 <= j < was.len() && was[j] == e as EdgeId;
                        assert(now[j] == e as EdgeId);
                    } else {
                        assert(now[now.len() - 1] == e as EdgeId);
                    }
                }
            }
            assert forall|id: EdgeId| #[trigger] self@.edges.contains_key(id) implies self@.sources(id)
                == old(self)@.sources(id) by {}
        }
        Ok(id)
    }

    /// The oldest live edge of architecture space with the given subgraph
    /// and triple, found through the adjacency index of `from`.
    pub(crate) fn find_in_arch_space(
        &self,
        sub: SubgraphKind,
        from: NodeId,
        to: NodeId,
        kind: EdgeKind,
    ) -> (r: Option<EdgeId>)
        requires
            self.wf(),
            sub != SubgraphKind::Implementation,
        ensures
            r == self@.first_match(sub, (from, to, kind)),
    {
        let ghost t = (from, to, kind);
        if from as usize >= self.nodes.len() {
            proof {
                lemma_first_match_none(self@, sub, t);
            }
            return None;
        }
        let out = &self.arch_out[from as usize];
        let mut i: usize = 0;
        while i < out.len()
            invariant
                self.wf(),
                sub != SubgraphKind::Implementation,
                t == (from, to, kind),
                (from as int) < self.nodes.len(),
                out == &self.arch_out[from as int],
                i <= out.len(),
                forall|j: int| 0 <= j < i ==> !self@.is_match(#[trigger] out@[j], sub, t),
            decreases out.len() - i,
        {
            let eid = out[i];
            match self.edges[eid as usize] {
                Some(e) => {
                    if e.subgraph == sub && e.to == to && e.kind == kind {
                        proof {
                            assert(self@.is_match(eid, sub, t));
                            assert forall|other: EdgeId| #[trigger]
                                self@.is_match(other, sub, t) implies eid <= other by {
                                assert(self.edges[other as int] is Some);
                                let k = choose|k: int| 0 <= k < out@.len() && out@[k] == other;
                                if k < i {
                                    assert(!self@.is_match(out@[k], sub, t));
                                }
                            }
                            lemma_first_match_is(self@, eid, sub, t);
                        }
                        return Some(eid);
                    }
                },
                None => {},
            }
            i += 1;
        }
        proof {
            assert forall|id: EdgeId| !self@.is_match(id, sub, t) by {
                if self@.is_match(id, sub, t) {
                    assert(self.edges[id as int] is Some);
                    let k = choose|k: int| 0 <= k < out@.len() && out@[k] == id;
                    assert(!self@.is_match(out@[k], sub, t));
                }
            }
            lemma_first_match_none(self@, sub, t);
        }
        None
    }

    /// The adjacency indices of `before` fit this graph too where the two
    /// have the same nodes and their edges differ in state and counter
    /// only.
    pub(crate) proof fn lemma_same_shape(&self, before: ReflexionGraph)
        requires
            before.index_ok(before.arch_out@, false),
            before.index_ok(before.impl_out@, true),
            self.nodes.len() == before.nodes.len(),
            self.arch_out == before.arch_out,
            self.impl_out == before.impl_out,
            self.edges.len() == before.edges.len(),
            forall|i: int|
                0 <= i < self.edges.len() ==> match (#[trigger] self.edges[i], before.edges[i]) {
                    (Some(a), Some(b)) => a.from == b.from && a.subgraph == b.subgraph,
                    (None, None) => true,
                    _ => false,
                },
        ensures
            self.index_ok(self.arch_out@, false),
            self.index_ok(self.impl_out@, true),
    {
        assert forall|n: int, j: int|
            0 <= n < self.arch_out@.len() && 0 <= j < self.arch_out@[n].len() implies {
            let id = #[trigger] self.arch_out@[n]@[j];
            &&& (id as int) < self.edges.len()
            &&& self.edges[id as int] matches Some(e)
            &&& e.from == n
            &&& (e.subgraph == SubgraphKind::Implementation) == false
        } by {
            let id = before.arch_out@[n]@[j];
            assert(before.edges[id as int] is Some);
        }
        assert forall|n: int, j: int|
            0 <= n < self.impl_out@.len() && 0 <= j < self.impl_out@[n].len() implies {
            let id = #[trigger] self.impl_out@[n]@[j];
            &&& (id as int) < self.edges.len()
            &&& self.edges[id as int] matches Some(e)
            &&& e.from == n
            &&& (e.subgraph == SubgraphKind::Implementation) == true
        } by {
            let id = before.impl_out@[n]@[j];
            assert(before.edges[id as int] is Some);
        }
        assert forall|id: int| 0 <= id < self.edges.len() implies ((#[trigger] self.edges[id]) matches Some(
            e,
        ) ==> (e.subgraph == SubgraphKind::Implementation) == false
            ==> self.arch_out@[e.from as int]@.contains(id as EdgeId)) by {
            assert(before.edges[id] is Some || self.edges[id] is None);
        }
        assert forall|id: int| 0 <= id < self.edges.len() implies ((#[trigger] self.edges[id]) matches Some(
            e,
        ) ==> (e.subgraph == SubgraphKind::Implementation) == true
            ==> self.impl_out@[e.from as int]@.contains(id as EdgeId)) by {
            assert(before.edges[id] is Some || self.edges[id] is None);
        }
    }

    /// Replaces the state and counter of a live edge.
    pub(crate) fn set_edge_data(&mut self, id: EdgeId, state: EdgeState, counter: u32)
        requires
            old(self).repr_ok(),
            old(self)@.edges.contains_key(id),
        ensures
            final(self).repr_ok(),
            final(self)@ == old(self)@.with_edge_data(id, state, counter),
    {
        let was = self.edges[id as usize].unwrap();
        self.edges[id as usize] = Some(Edge { state, counter, ..was });
        proof {
            assert(self@.nodes =~= old(self)@.nodes);
            assert(self@.edges =~= old(self)@.with_edge_data(id, state, counter).edges);
            assert(self@.mapping =~= old(self)@.mapping);
            assert(self@.provenance =~= old(self)@.provenance);
        }
    }

    /// Resets the classification: architecture edges become `Specified`
    /// with counter 0, implementation edges become `Undefined`.
    pub fn init_states(&mut self)
        requires
            old(self).wf(),
        ensures
            final(self).wf(),
            final(self)@ == old(self)@.initialized(),
    {
        let mut i: usize = 0;
        while i < self.edges.len()
            invariant
                i <= self.edges.len(),
                self.edges.len() == old(self).edges.len(),
                self.nodes == old(self).nodes,
                self.maps_to == old(self).maps_to,
                self.arch_out == old(self).arch_out,
                self.impl_out == old(self).impl_out,
                self.provenance == old(self).provenance,
                forall|j: int|
                    0 <= j < i ==> #[trigger] self.edges[j] == match old(self).edges[j] {
                        Some(e) => Some(reset_edge(e)),
                        None => None,
                    },
                forall|j: int| i <= j < self.edges.len() ==> self.edges[j] == old(self).edges[j],
            decreases self.edges.len() - i,
        {
            match self.edges[i] {
                Some(e) => {
                    match e.subgraph {
                        SubgraphKind::Architecture => {
                            self.edges[i] = Some(
                                Edge { state: EdgeState::Specified, counter: 0, ..e },
                            );
                        },
                        SubgraphKind::Implementation => {
                            self.edges[i] = Some(Edge { state: EdgeState::Undefined, ..e });
                        },
                        SubgraphKind::Propagated => {},
                    }
                },
                None => {},
            }
            i += 1;
        }
        proof {
            assert(self@.nodes =~= old(self)@.nodes);
            assert(self@.mapping =~= old(self)@.mapping);
            assert(self@.provenance =~= old(self)@.provenance);
            assert(self@.edges =~= old(self)@.initialized().edges);
            self.lemma_same_shape(*old(self));
            lemma_initialized_wf(old(self)@);
        }
    }

    /// `kept` is what is left of the adjacency list `was` when only the
    /// architecture edges stay.
    pub(crate) open spec fn kept_of(&self, was: Seq<EdgeId>, kept: Seq<EdgeId>) -> bool {
        &&& strictly_increasing(kept)
        &&& forall|j: int|
            0 <= j < kept.len() ==> was.contains(#[trigger] kept[j]) && self.edges[kept[j] as int].unwrap().subgraph
                == SubgraphKind::Architecture
        &&& forall|k: int|
            0 <= k < was.len() && self.edges[(#[trigger] was[k]) as int].unwrap().subgraph
                == SubgraphKind::Architecture ==> kept.contains(was[k])
    }

    /// The architecture edges in the adjacency list of node `n`.
    fn architecture_edges_from(&self, n: usize) -> (kept: Vec<EdgeId>)
        requires
            n < self.arch_out.len(),
            strictly_increasing(self.arch_out[n as int]@),
            forall|j: int|
                0 <= j < self.arch_out[n as int].len() ==> ((#[trigger] self.arch_out[n as int]@[j]) as int)
                    < self.edges.len() && self.edges[self.arch_out[n as int]@[j] as int] is Some,
        ensures
            self.kept_of(self.arch_out[n as int]@, kept@),
    {
        let out = &self.arch_out[n];
        let mut kept: Vec<EdgeId> = Vec::new();
        let mut i: usize = 0;
        while i < out.len()
            invariant
                n < self.arch_out.len(),
                out == &self.arch_out[n as int],
                strictly_increasing(out@),
                forall|j: int|
                    0 <= j < out.len() ==> ((#[trigger] out@[j]) as int) < self.edges.len()
                        && self.edges[out@[j] as int] is Some,
                i <= out.len(),
                strictly_increasing(kept@),
                forall|j: int|
                    0 <= j < kept.len() ==> (exists|k: int| 0 <= k < i && out@[k] == #[trigger] kept[j])
                        && self.edges[kept[j] as int].unwrap().subgraph
                        == SubgraphKind::Architecture,
                forall|k: int|
                    0 <= k < i && self.edges[(#[trigger] out@[k]) as int].unwrap().subgraph
                        == SubgraphKind::Architecture ==> kept@.contains(out@[k]),
            decreases out.len() - i,
        {
            let eid = out[i];
            let e = self.edges[eid as usize].unwrap();
            if e.subgraph == SubgraphKind::Architecture {
                let ghost before = kept@;
                kept.push(eid);
                proof {
                    assert forall|a: int, b: int| 0 <= a < b < kept.len() implies kept[a] < kept[b] by {
                        if b == kept.len() - 1 {
                            let k = choose|k: int| 0 <= k < i && out@[k] == before[a];
                            assert(out@[k] < out@[i as int]);
                        }
                    }
                    assert forall|j: int| 0 <= j < kept.len() implies exists|k: int|
                        0 <= k < i + 1 && out@[k] == #[trigger] kept[j] by {
                        if j < before.len() {
                            let k = choose|k: int| 0 <= k < i && out@[k] == before[j];
                            assert(out@[k] == kept[j]);
                        } else {
                            assert(out@[i as int] == kept[j]);
                        }
                    }
                    assert forall|k: int|
                        0 <= k < i + 1 && self.edges[(#[trigger] out@[k]) as int].unwrap().subgraph
                            == SubgraphKind::Architecture implies kept@.contains(out@[k]) by {
                        if k < i {
                            let j = choose|j: int| 0 <= j < before.len() && before[j] == out@[k];
                            assert(kept@[j] == out@[k]);
                        } else {
                            assert(kept@[kept.len() - 1] == out@[k]);
                        }
                    }
                }
            }
            i += 1;
        }
        kept
    }

    /// Removes every propagated edge, its adjacency entry and the whole
    /// propagation table.
    pub fn clear_propagated_edges(&mut self)
        requires
            old(self).wf(),
        ensures
            final(self).wf(),
            final(self)@ == old(self)@.cleared(),
    {
        let mut n: usize = 0;
        while n < self.arch_out.len()
            invariant
                n <= self.arch_out.len(),
                self.arch_out.len() == old(self).arch_out.len(),
                self.nodes == old(self).nodes,
                self.edges == old(self).edges,
                self.maps_to == old(self).maps_to,
                self.impl_out == old(self).impl_out,
                self.provenance == old(self).provenance,
                old(self).wf(),
                forall|m: int|
                    0 <= m < n ==> old(self).kept_of(
                        old(self).arch_out[m]@,
                        (#[trigger] self.arch_out[m])@,
                    ),
                forall|m: int| n <= m < self.arch_out.len() ==> self.arch_out[m] == old(self).arch_out[m],
            decreases self.arch_out.len() - n,
        {
            proof {
                let was = old(self).arch_out@[n as int]@;
                assert forall|j: int| 0 <= j < was.len() implies ((#[trigger] was[j]) as int)
                    < self.edges.len() && self.edges[was[j] as int] is Some by {
                    assert(old(self).arch_out@[n as int]@[j] == was[j]);
                }
            }
            let kept = self.architecture_edges_from(n);
            self.arch_out[n] = kept;
            n += 1;
        }
        let mut i: usize = 0;
        while i < self.edges.len()
            invariant
                i <= self.edges.len(),
                self.edges.len() == old(self).edges.len(),
                self.provenance.len() == old(self).provenance.len(),
                self.nodes == old(self).nodes,
                self.maps_to == old(self).maps_to,
                self.impl_out == old(self).impl_out,
                self.arch_out.len() == old(self).arch_out.len(),
                old(self).wf(),
                forall|m: int|
                    0 <= m < self.arch_out.len() ==> old(self).kept_of(
                        old(self).arch_out[m]@,
                        (#[trigger] self.arch_out[m])@,
                    ),
                forall|j: int|
                    0 <= j < i ==> #[trigger] self.edges[j] == match old(self).edges[j] {
                        Some(e) => if e.subgraph == SubgraphKind::Propagated {
                            None
                        } else {
                            Some(e)
                        },
                        None => None,
                    },
                forall|j: int| 0 <= j < i ==> (#[trigger] self.provenance[j]).len() == 0,
                forall|j: int| i <= j < self.edges.len() ==> self.edges[j] == old(self).edges[j],
                forall|j: int|
                    i <= j < self.edges.len() ==> self.provenance[j] == old(self).provenance[j],
            decreases self.edges.len() - i,
        {
            let propagated = match self.edges[i] {
                Some(e) => e.subgraph == SubgraphKind::Propagated,
                None => false,
            };
            if propagated {
                self.edges[i] = None;
                self.provenance[i] = Vec::new();
            } else {
                proof {
                    if self.provenance[i as int].len() > 0 {
                        assert(old(self)@.provenance.contains_key(i as EdgeId));
                        assert(old(self)@.has_edge_in(i as EdgeId, SubgraphKind::Propagated));
                    }
                }
            }
            i += 1;
        }
        proof {
            assert(self@.nodes =~= old(self)@.nodes);
            assert(self@.mapping =~= old(self)@.mapping);
            assert(self@.provenance =~= Map::<EdgeId, Set<EdgeId>>::empty());
            assert(self@.edges =~= old(self)@.cleared().edges);
            lemma_cleared_wf(old(self)@);
            self.lemma_cleared_repr(*old(self));
        }
    }

    /// After the propagated edges were removed, the reduced adjacency
    /// lists are the index of the edges that are left.
    proof fn lemma_cleared_repr(&self, before: ReflexionGraph)
        requires
            before.wf(),
            self.nodes == before.nodes,
            self.maps_to == before.maps_to,
            self.impl_out == before.impl_out,
            self.arch_out.len() == before.arch_out.len(),
            self.edges.len() == before.edges.len(),
            self.provenance.len() == before.provenance.len(),
            forall|m: int|
                0 <= m < self.arch_out.len() ==> before.kept_of(
                    before.arch_out[m]@,
                    (#[trigger] self.arch_out[m])@,
                ),
            forall|j: int|
                0 <= j < self.edges.len() ==> #[trigger] self.edges[j] == match before.edges[j] {
                    Some(e) => if e.subgraph == SubgraphKind::Propagated {
                        None
                    } else {
                        Some(e)
                    },
                    None => None,
                },
            forall|j: int| 0 <= j < self.provenance.len() ==> (#[trigger] self.provenance[j]).len() == 0,
        ensures
            self.repr_ok(),
    {
        assert forall|n: int, j: int|
            0 <= n < self.arch_out@.len() && 0 <= j < self.arch_out@[n].len() implies {
            let id = #[trigger] self.arch_out@[n]@[j];
            &&& (id as int) < self.edges.len()
            &&& self.edges[id as int] matches Some(e)
            &&& e.from == n
            &&& (e.subgraph == SubgraphKind::Implementation) == false
        } by {
            let id = self.arch_out@[n]@[j];
            assert(before.kept_of(before.arch_out[n]@, self.arch_out[n]@));
            let k = choose|k: int| 0 <= k < before.arch_out[n]@.len() && before.arch_out[n]@[k] == id;
            assert(before.arch_out@[n]@[k] == id);
            assert(before.edges[id as int] is Some);
        }
        assert forall|n: int, j: int|
            0 <= n < self.impl_out@.len() && 0 <= j < self.impl_out@[n].len() implies {
            let id = #[trigger] self.impl_out@[n]@[j];
            &&& (id as int) < self.edges.len()
            &&& self.edges[id as int] matches Some(e)
            &&& e.from == n
            &&& (e.subgraph == SubgraphKind::Implementation) == true
        } by {
            let id = before.impl_out@[n]@[j];
            assert(before.edges[id as int] is Some);
        }
        assert forall|id: int| 0 <= id < self.edges.len() implies ((#[trigger] self.edges[id]) matches Some(
            e,
        ) ==> (e.subgraph == SubgraphKind::Implementation) == false
            ==> self.arch_out@[e.from as int]@.contains(id as EdgeId)) by {
            if let Some(e) = self.edges[id] {
                if e.subgraph != SubgraphKind::Implementation {
                    assert(before.edges[id] == Some(e));
                    assert(before@.edges.contains_key(id as EdgeId));
                    let was = before.arch_out@[e.from as int]@;
                    let k = choose|k: int| 0 <= k < was.len() && was[k] == id as EdgeId;
                    assert(before.kept_of(was, self.arch_out[e.from as int]@));
                    assert(before.edges[was[k] as int].unwrap().subgraph == SubgraphKind::Architecture);
                }
            }
        }
        assert forall|id: int| 0 <= id < self.edges.len() implies ((#[trigger] self.edges[id]) matches Some(
            e,
        ) ==> (e.subgraph == SubgraphKind::Implementation) == true
            ==> self.impl_out@[e.from as int]@.contains(id as EdgeId)) by {
            assert(before.edges[id] is Some || self.edges[id] is None);
        }
        assert forall|p: int| 0 <= p < self.provenance.len() implies (#[trigger] self.provenance[p]@).no_duplicates() by {
            assert(self.provenance[p].len() == 0);
        }
    }

    /// The live edge with handle `id`.
    pub fn edge(&self, id: EdgeId) -> (r: Option<Edge>)
        requires
            self.wf(),
        ensures
            r == (if self@.edges.contains_key(id) {
                Some(self@.edges[id])
            } else {
                None
            }),
    {
        if (id as usize) < self.edges.len() {
            self.edges[id as usize]
        } else {
            None
        }
    }

    /// The handle that the next new edge will get; every live edge has a
    /// smaller one.
    pub fn next_edge_id(&self) -> (n: EdgeId)
        requires
            self.wf(),
        ensures
            n == self@.next_edge,
    {
        self.edges.len() as EdgeId
    }

    /// The number of live implementation edges.
    pub fn impl_edge_count(&self) -> (n: usize)
        requires
            self.wf(),
        ensures
            self@.impl_edges().finite(),
            n == self@.impl_edges().len(),
            n <= self@.next_edge,
    {
        let ghost p = |i: u32|
            self.edges[i as int] matches Some(e) && e.subgraph == SubgraphKind::Implementation;
        let mut count: usize = 0;
        let mut i: usize = 0;
        proof {
            lemma_below_finite(0, p);
        }
        while i < self.edges.len()
            invariant
                i <= self.edges.len(),
                self.edges.len() <= u32::MAX,
                p == |i: u32|
                    self.edges[i as int] matches Some(e) && e.subgraph
                        == SubgraphKind::Implementation,
                count == below(i as nat, p).len(),
                count <= i,
            decreases self.edges.len() - i,
        {
            proof {
                lemma_below_step(i as nat, p);
            }
            match self.edges[i] {
                Some(e) => {
                    if e.subgraph == SubgraphKind::Implementation {
                        count += 1;
                    }
                },
                None => {},
            }
            i += 1;
        }
        proof {
            lemma_below_finite(i as nat, p);
            assert(self@.impl_edges() =~= below(i as nat, p));
        }
        count
    }

    /// A well-formed graph has a well-formed model.
    pub proof fn lemma_model_wf(&self)
        requires
            self.wf(),
        ensures
            self@.wf(),
    {
    }

    /// The number of nodes; the handles of the nodes are the numbers below
    /// it.
    pub fn node_count(&self) -> (n: usize)
        requires
            self.wf(),
        ensures
            n == self@.nodes.len(),
    {
        self.nodes.len()
    }

    /// The entry of the propagation table for propagated edge `p`: the
    /// implementation edges that produced it, each once.
    pub fn sources(&self, p: EdgeId) -> (r: Option<&Vec<EdgeId>>)
        requires
            self.wf(),
        ensures
            match r {
                Some(v) => {
                    &&& self@.provenance.contains_key(p)
                    &&& v@.to_set() == self@.provenance[p]
                    &&& v@.no_duplicates()
                },
                None => !self@.provenance.contains_key(p),
            },
    {
        if (p as usize) < self.provenance.len() && self.provenance[p as usize].len() > 0 {
            Some(&self.provenance[p as usize])
        } else {
            None
        }
    }

    /// The number of entries of the propagation table.
    pub fn propagation_table_len(&self) -> (n: usize)
        requires
            self.wf(),
        ensures
            self@.provenance.dom().finite(),
            n == self@.provenance.dom().len(),
    {
        let ghost p = |i: u32| self.provenance[i as int].len() > 0;
        let mut count: usize = 0;
        let mut i: usize = 0;
        proof {
            lemma_below_finite(0, p);
        }
        while i < self.provenance.len()
            invariant
                i <= self.provenance.len(),
                self.provenance.len() <= u32::MAX,
                p == |i: u32| self.provenance[i as int].len() > 0,
                count == below(i as nat, p).len(),
                count <= i,
            decreases self.provenance.len() - i,
        {
            proof {
                lemma_below_step(i as nat, p);
            }
            if self.provenance[i].len() > 0 {
                count += 1;
            }
            i += 1;
        }
        proof {
            lemma_below_finite(i as nat, p);
            assert(self@.provenance.dom() =~= below(i as nat, p));
        }
        count
    }

    /// The architecture-space adjacency of `node`: the live architecture
    /// and propagated edges that leave it, oldest first.
    pub fn arch_out(&self, node: NodeId) -> (r: Option<&Vec<EdgeId>>)
        requires
            self.wf(),
        ensures
            r is Some <==> self@.node_kind(node) is Some,
            r matches Some(v) ==> {
                &&& strictly_increasing(v@)
                &&& forall|id: EdgeId|
                    v@.contains(id) <==> self@.edges.contains_key(id) && self@.edges[id].from == node
                        && self@.edges[id].subgraph != SubgraphKind::Implementation
            },
    {
        if (node as usize) < self.arch_out.len() {
            let v = &self.arch_out[node as usize];
            proof {
                assert forall|id: EdgeId| v@.contains(id) implies self@.edges.contains_key(id)
                    && self@.edges[id].from == node && self@.edges[id].subgraph
                    != SubgraphKind::Implementation by {
                    let j = choose|j: int| 0 <= j < v@.len() && v@[j] == id;
                    assert(self.arch_out@[node as int]@[j] == id);
                }
                assert forall|id: EdgeId|
                    self@.edges.contains_key(id) && self@.edges[id].from == node
                        && self@.edges[id].subgraph != SubgraphKind::Implementation implies v@.contains(
                    id,
                ) by {
                    assert(self.edges[id as int] is Some);
                }
            }
            Some(v)
        } else {
            None
        }
    }

    /// The implementation adjacency of `node`: the live implementation
    /// edges that leave it, oldest first.
    pub fn impl_out(&self, node: NodeId) -> (r: Option<&Vec<EdgeId>>)
        requires
            self.wf(),
        ensures
            r is Some <==> self@.node_kind(node) is Some,
            r matches Some(v) ==> {
                &&& strictly_increasing(v@)
                &&& forall|id: EdgeId|
                    v@.contains(id) <==> self@.has_edge_in(id, SubgraphKind::Implementation)
                        && self@.edges[id].from == node
            },
    {
        if (node as usize) < self.impl_out.len() {
            let v = &self.impl_out[node as usize];
            proof {
                assert forall|id: EdgeId| v@.contains(id) implies self@.has_edge_in(
                    id,
                    SubgraphKind::Implementation,
                ) && self@.edges[id].from == node by {
                    let j = choose|j: int| 0 <= j < v@.len() && v@[j] == id;
                    assert(self.impl_out@[node as int]@[j] == id);
                }
                assert forall|id: EdgeId|
                    self@.has_edge_in(id, SubgraphKind::Implementation) && self@.edges[id].from
                        == node implies v@.contains(id) by {
                    assert(self.edges[id as int] is Some);
                }
            }
            Some(v)
        } else {
            None
        }
    }

    /// The subgraph that a node belongs to.
    pub fn node_subgraph(&self, node: NodeId) -> (r: Result<SubgraphKind, GraphError>)
        ensures
            r == match self@.node_kind(node) {
                Some(k) => Ok::<SubgraphKind, GraphError>(k),
                None => Err(GraphError::NodeNotFound(node)),
            },
    {
        if (node as usize) < self.nodes.len() {
            Ok(self.nodes[node as usize].subgraph)
        } else {
            Err(GraphError::NodeNotFound(node))
        }
    }
}

} // verus!
