//! Liveness tracking for objects that are allocated and freed by an external
//! host runtime. The tracker records which handles are registered, which of
//! them are roots, and a directed reference graph between handles; on demand
//! it runs one mark-and-sweep pass that removes every registered handle that
//! is unreachable from the root set and reports how many were removed.
//!
//! Handles are opaque, address-sized tokens; the value `0` stands for the
//! null handle, which every mutating operation silently ignores.

pub mod reach;
pub mod tracker;
pub mod view;

pub use tracker::GarbageCollector;
pub use view::GcView;
