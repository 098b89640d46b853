//! An incremental tri-color mark-and-sweep heap for interpreter values.
//!
//! The heap manager ([`heap::AllocBox`]) owns every heap slot, keyed by an
//! opaque [`binding::UniqueBinding`]. Reachability is re-proven each cycle by
//! root marking, bounded incremental marking steps, and a final sweep.

pub mod heap;
pub mod laws;
pub mod binding;
pub mod gc_error;
pub mod js_types;
