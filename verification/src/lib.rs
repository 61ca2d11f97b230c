//! An ordered map from `u64` keys to values, kept as a scapegoat tree:
//! a binary search tree that is rebuilt into a balanced shape whenever an
//! insertion lands too deep or removals have shrunk it by a third.
pub mod bound;
pub mod entries;
pub mod node;
pub mod path;
pub mod vine;
pub mod display;
pub mod map;
pub mod layout;
pub mod laws;
pub mod shape;

pub use map::{ScapeGoatTreeMap, Global};
pub use layout::node_layout;
