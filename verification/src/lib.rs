//! An in-memory graph store: named nodes that carry one scalar value each and
//! point at one another, with lookup by name and by value and a compact byte
//! format for whole snapshots.
//!
//! - [`value`] and [`node`]: the data and their byte records.
//! - [`model`] and [`history`]: the graph as mathematics, what each
//!   operation makes of it, and what holds whatever is done.
//! - [`graph`] and [`query`]: the engine itself, with [`lookup`] for its
//!   indices and [`order`] for bounded selections.
//! - [`snapshot`]: whole graphs as bytes.
//! - [`algebra`]: set operations on result lists.
//! - [`render`]: text for a reader and for a layout tool.
//! - [`wire`]: the requests of a client and what the server owes for them.

pub mod algebra;
pub mod bytes;
pub mod error;
pub mod graph;
pub mod history;
pub mod idlist;
pub mod index;
pub mod lookup;
pub mod model;
pub mod node;
pub mod order;
pub mod query;
pub mod render;
pub mod snapshot;
pub mod text;
pub mod value;
pub mod wire;
