//! Walks over a graph that remember which vertices they have passed.
pub mod bfs_visitor;
pub mod chain;
mod depth;
pub mod dfs_visitor;
mod finish;
pub mod graph_visitor;
mod layers;
pub mod topological_sort;
pub mod visit_order;

pub use bfs_visitor::BfsVisitor;
pub use dfs_visitor::DfsVisitor;
pub use graph_visitor::GraphVisitor;
pub use topological_sort::TopologicalSort;
pub use visit_order::VisitOrder;
