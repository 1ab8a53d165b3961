use crate::vertex_id::VertexId;
use vstd::prelude::*;

verus! {

/// A directed edge, identified by its ordered pair of endpoints.
///
/// `outbound` is the vertex the edge leaves, `inbound` the vertex it enters.
#[derive(Clone, Copy, Debug, PartialEq, Eq, Hash, Structural)]
pub struct Edge {
    pub inbound: VertexId,
    pub outbound: VertexId,
}

impl Edge {
    /// Builds the edge going from `outbound` to `inbound`.
    pub fn new(outbound: VertexId, inbound: VertexId) -> (r: Edge)
        ensures
            r.outbound == outbound,
            r.inbound == inbound,
    {
        Edge { inbound, outbound }
    }

    /// True if `a` and `b` are exactly the outbound and inbound
    /// vertices of this edge.
    pub fn matches(&self, a: &VertexId, b: &VertexId) -> (r: bool)
        ensures
            r == (a == self.outbound && b == self.inbound),
    {
        *a == self.outbound && *b == self.inbound
    }

    /// True if either endpoint of this edge is `id`.
    pub fn matches_any(&self, id: &VertexId) -> (r: bool)
        ensures
            r == (id == self.inbound || id == self.outbound),
    {
        *id == self.inbound || *id == self.outbound
    }

    /// The vertex this edge enters.
    pub fn inbound(&self) -> (r: &VertexId)
        ensures
            r == self.inbound,
    {
        &self.inbound
    }

    /// The vertex this edge leaves.
    pub fn outbound(&self) -> (r: &VertexId)
        ensures
            r == self.outbound,
    {
        &self.outbound
    }
}

} // verus!
