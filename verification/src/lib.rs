//! Directed graphs with values at their vertices: a container, walks over it
//! in breadth-first, depth-first and topological order, and a text form to
//! write a graph out and read it back. Each function states what it does in
//! its contract, and the contracts are proved.
mod collections;
pub mod decimal;
pub mod graph;
pub mod graph_vertex;
pub mod reach;
pub mod reader;
pub mod round_trip;
mod strings;
pub mod text;
pub mod visitors;
pub mod writer;

pub use graph::{Graph, GraphView, VertexNotExistsError};
pub use decimal::IdError;
pub use graph_vertex::GraphVertex;
pub use reader::{GraphReader, Section};
pub use text::{GraphParseError, VertexValueParseError};
pub use visitors::{BfsVisitor, DfsVisitor, GraphVisitor, TopologicalSort, VisitOrder};
