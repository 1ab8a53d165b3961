use vstd::prelude::*;

verus! {

/// Opaque handle naming a vertex of a graph.
///
/// Equality is the only operation the rest of the library relies on; the
/// numeric order of handles is used solely as a deterministic tie-break.
#[derive(Clone, Copy, Debug, PartialEq, Eq, Hash, PartialOrd, Ord, Structural)]
pub struct VertexId(pub u32);

impl VertexId {
    /// Builds a handle from a raw value. Intended mostly for tests; inside a
    /// graph, fresh handles come from `Graph::add_vertex`.
    pub fn new(val: u32) -> (r: Self)
        ensures
            r.0 == val,
    {
        VertexId(val)
    }

    /// The raw value of the handle.
    pub fn val(&self) -> (r: u32)
        ensures
            r == self.0,
    {
        self.0
    }
}

} // verus!
