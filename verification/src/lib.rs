//! A red-black tree over `i32` keys, kept in an arena of nodes that are
//! addressed by stable indices.
//!
//! The tree supports insertion with rebalancing and an in-order traversal.
//! Every node records its parent, so the rebalancing walk climbs from the
//! new leaf towards the root in constant time per step.

pub mod color;
pub mod dir;
pub mod fixup;
pub mod insert;
pub mod laws;
pub mod model;
pub mod node;
pub mod order;
pub mod rotate;
pub mod shape;
pub mod traverse;
pub mod tree;

pub use color::Color;
pub use dir::Dir;
pub use node::Node;
pub use tree::Tree;
