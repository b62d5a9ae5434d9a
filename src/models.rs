//! The graph's values as the transaction API hands them out.
use vstd::prelude::*;

verus! {

/// Why an operation failed.
pub enum Error {
    AccountNotFound,
    VertexNotFound,
    EdgeNotFound,
    MetadataNotFound,
    /// A precondition the caller could have avoided, or a store failure.
    Unexpected(String),
}

/// A vertex: its identifier and its type.
pub struct Vertex {
    pub id: Vec<u8>,
    pub t: String,
}

/// A directed, typed, weighted edge. The weight is carried as the bit
/// pattern of a 32-bit float.
pub struct Edge {
    pub outbound_id: Vec<u8>,
    pub t: String,
    pub inbound_id: Vec<u8>,
    pub weight: u32,
}

/// An edge as plain values: outbound identifier, type, inbound identifier,
/// weight bits.
pub type EdgeView = (Seq<u8>, Seq<char>, Seq<u8>, u32);

impl Edge {
    pub open spec fn view(&self) -> EdgeView {
        (self.outbound_id@, self.t@, self.inbound_id@, self.weight)
    }

    /// An edge from its parts.
    pub fn new(outbound_id: Vec<u8>, t: String, inbound_id: Vec<u8>, weight: u32) -> (r: Edge)
        ensures
            r@ == (outbound_id@, t@, inbound_id@, weight),
    {
        Edge { outbound_id, t, inbound_id, weight }
    }
}

impl Vertex {
    /// A vertex from its parts.
    pub fn new(id: Vec<u8>, t: String) -> (r: Vertex)
        ensures
            r.id@ == id@,
            r.t@ == t@,
    {
        Vertex { id, t }
    }
}

/// Views of a list of edges.
pub open spec fn edges_view(v: Seq<Edge>) -> Seq<EdgeView> {
    v.map_values(|e: Edge| e@)
}

} // verus!
