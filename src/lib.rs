pub mod scalar;
pub mod graph;
pub mod eval;
pub mod grad;

pub use scalar::{Scalar, Term};
pub use graph::{Graph, NodeData, NodeRef, NodeType};
pub use graph::{add, constant, cos, div, mul, neg, pow, sin, sub, var};
pub use eval::{forward, lookup_value};
pub use grad::GraphError;
