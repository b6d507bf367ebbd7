//! A spaced list stores nodes along a one-dimensional axis and finds them by
//! position rather than by index.
//!
//! Nodes are appended behind the last node or inserted between two nodes.
//! Inserting never moves or renumbers a node: the new node goes into a list
//! nested below the node before it. Lookups by position walk a tree of link
//! lengths and take a number of steps logarithmic in the size of each list
//! they pass through.
//!
//! Every list has a root at position 0, which is a node like the others as
//! far as lookups go. Positions and distances are not negative; the
//! operations that put nodes in rule negative arguments out. Several nodes
//! may share a position: a node that is put where another one is comes
//! behind it, and a lookup at that position finds the last of them.
//!
//! The operations are verified: each states in its contract what it returns
//! and how it changes the list, and [`laws`] relates the operations to one
//! another.

pub mod binary;
mod crate_spaced_list;
pub mod hollow;
pub mod laws;
pub mod lookup;
pub mod navigation;
pub mod skeleton;
pub mod spaced_list;
pub mod spacing;
pub mod traversal;

pub use hollow::HollowSpacedList;
pub use skeleton::SpacedListSkeleton;
pub use spaced_list::SpacedList;
pub use spacing::Spacing;
pub use traversal::Traversal;
