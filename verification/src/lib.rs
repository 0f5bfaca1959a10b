//! A verified engine for merging page-based structured documents.
//!
//! The library models a document as an addressable object graph (the
//! `objects` module), normalizes each input document (duplicate-page
//! removal and geometry backfill), reconciles object identities across
//! documents into one collision-free space, rebuilds the page tree,
//! catalog and navigation outline, and compacts the final graph by a
//! reachability sweep.

use vstd::prelude::*;

pub mod assoc;
pub mod compact;
pub mod errors;
pub mod graph;
pub mod merge;
pub mod normalize;
pub mod pipeline;
pub mod objects;
pub mod reconcile;
pub mod remap;

verus! {

} // verus!
