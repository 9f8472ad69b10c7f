//! A directed graph whose nodes are keyed by ordered integers.

pub mod graph_impl;

pub use graph_impl::Edge;
pub use graph_impl::EdgeView;
pub use graph_impl::Graph;
pub use graph_impl::GraphView;
pub use graph_impl::Inputs;
pub use graph_impl::Node;
pub use graph_impl::Outputs;
pub mod visit;

pub use visit::DfsPostOrder;
pub mod algo;
