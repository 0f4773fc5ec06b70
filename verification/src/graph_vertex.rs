//! A vertex: an identifier and a value.
use vstd::prelude::*;

verus! {

/// A vertex of a graph: an identifier and the value stored under it.
#[derive(Debug)]
pub struct GraphVertex<T> {
    pub id: usize,
    pub value: T,
}

impl<T> GraphVertex<T> {
    /// Creates a vertex with the given identifier and value.
    pub fn new(id: usize, value: T) -> (vertex: Self)
        ensures
            vertex.id == id,
            vertex.value == value,
    {
        Self { id, value }
    }
}

} // verus!
