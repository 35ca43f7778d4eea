//! Handles and tags shared by every part of the engine.

use vstd::prelude::*;

verus! {

/// Handle of a node; the position of the node in the graph's node arena.
pub type NodeId = u32;

/// Handle of an edge; the position of the edge in the graph's edge arena.
pub type EdgeId = u32;

/// The subgraph an item lives in. `Propagated` is synthetic: only the
/// propagation engine creates edges of that kind.
#[derive(Clone, Copy, Debug, PartialEq, Eq, Hash, Structural)]
pub enum SubgraphKind {
    Architecture,
    Implementation,
    Propagated,
}

/// Relation tag of an edge. Kinds are compared by their tag only; two
/// well-known tags have constructors, any other tag is caller-defined.
#[derive(Clone, Copy, Debug, PartialEq, Eq, Hash, Structural)]
pub struct EdgeKind {
    pub tag: u32,
}

impl EdgeKind {
    /// The tag of the "calls" relation.
    pub open spec fn spec_calls() -> EdgeKind {
        EdgeKind { tag: 0 }
    }

    /// The tag of the "depends-on" relation.
    pub open spec fn spec_depends_on() -> EdgeKind {
        EdgeKind { tag: 1 }
    }

    /// A caller-defined relation with the given tag.
    pub fn new(tag: u32) -> (k: EdgeKind)
        ensures
            k.tag == tag,
    {
        EdgeKind { tag }
    }

    #[verifier::when_used_as_spec(spec_calls)]
    pub fn calls() -> (k: EdgeKind)
        ensures
            k == Self::spec_calls(),
    {
        EdgeKind { tag: 0 }
    }

    #[verifier::when_used_as_spec(spec_depends_on)]
    pub fn depends_on() -> (k: EdgeKind)
        ensures
            k == Self::spec_depends_on(),
    {
        EdgeKind { tag: 1 }
    }
}

} // verus!
