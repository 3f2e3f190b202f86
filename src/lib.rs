//! Slicing floorplans: normalized Polish expressions, their neighbourhood
//! moves, shape-curve evaluation and the decisions of a simulated annealer.
pub mod anneal;
pub mod expression;
pub mod module;
mod random;
pub mod tree;

pub use expression::PolishExpression;
pub use module::{Cut, Element, FloorplanError, Module};
pub use tree::{CostModel, SlicingTree};
