//! An in-memory R-tree over axis-aligned boxes with integer coordinates.
//!
//! A tree stores entries, each a rectangle with a payload. It offers
//! insertion, removal of the entry that equals a payload at a place, search
//! for the entries that intersect a rectangle, a scan of all entries, and a
//! nearest-first traversal by a distance of the caller's choice.
//!
//! Every executable function carries a contract over the mathematical model
//! of its arguments: a rectangle is viewed as a [`rect::Span`], a tree as the
//! sequence of the entries it stores, in the order of a depth-first scan.
//! Coordinates are `i64`. A tree has at least one axis, and the functions
//! that weigh rectangles against each other ask that the products of their
//! extents fit a coordinate ([`rect::Span::measurable`]).
//!
//! The modules: [`rect`] holds the geometry; [`node`], [`split`], [`insert`],
//! [`remove`] and [`search`] the nodes and what is done below one; [`tree`]
//! the tree itself; [`iter`] and [`nearby`] the traversals; [`model`] and
//! [`seqs`] the facts the proofs rest on; [`laws`] what holds of a tree in
//! every state.

pub mod insert;
pub mod iter;
pub mod laws;
pub mod model;
pub mod nearby;
pub mod node;
pub mod order;
pub mod rect;
pub mod remove;
pub mod search;
pub mod seqs;
pub mod split;
pub mod tree;

pub use iter::{IterItem, ScanIterator, SearchIterator};
pub use nearby::NearbyIterator;
pub use node::{Data, Node, MAX_ITEMS, MIN_ITEMS};
pub use rect::Rect;
pub use tree::RTree;
