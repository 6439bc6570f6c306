//! Targeting nodes of a syntax tree by the chain of position markers from the
//! root down to them, and recording such chains.
//!
//! `record` offers the chain of every traversal-significant node, in
//! pre-order, to a decision function and keeps the accepted ones; `apply`
//! follows registered chains down the tree and names the nodes, and the
//! registrations, at which transforms are to run. `laws` states what the two
//! passes guarantee.
pub mod marker;
pub mod apply;
pub mod record;
pub mod laws;

pub use marker::{Marker, MarkerTree};
pub use apply::{ApplyVisitors, Pending, Hit};
pub use record::{VisitWithPath, CreateVisitorFn, FnCreator};
