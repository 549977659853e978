//! Keyed, incremental tree reconciliation with an animated node lifecycle.
//!
//! A declarative description of a node tree is re-declared every pass and
//! synchronized against the previously materialized backend tree.  The store
//! keeps the tree as a preorder-flattened array of records; a pass walks it
//! with a cursor per tree level, emitting deferred backend commands for nodes
//! that appear, change, move or disappear.  Removal is logical first: the
//! transition state machine animates the exit and issues the physical destroy
//! once the animation completes.

pub mod commands;
pub mod laws;
pub mod reorder;
pub mod store;
pub mod svec;
pub mod transition;
