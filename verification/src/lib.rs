//! Hazard pointers: readers publish the address they are about to use in a
//! slot of a domain, writers hand retired objects to the domain, and a sweep
//! frees exactly those retired objects that no active slot publishes.
//!
//! Addresses are plain `usize` values (`0` is the null address); the domain is
//! a sequential state machine whose operations are proved against a model.

pub mod ptr;
pub mod domain;
pub mod holder;
pub mod object;

pub use ptr::HazardPtr;
pub use domain::{HazardPtrDomain, Retired, Sweep, SweepOutcome};

pub use holder::{HazardPtrHolder, LoadStep};
pub use object::{HazardPtrObject, HazardPtrObjectWrapper};
