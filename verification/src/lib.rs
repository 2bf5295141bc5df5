//! A word-addressed heap with a first-fit free-list allocator and a
//! stop-the-world mark-and-sweep collector.
//!
//! - [`model`] is the mathematical model of the heap, over which every
//!   contract is stated: blocks, payloads, roots, reachability, and what
//!   allocation and collection make of them.
//! - [`gc`] is the heap itself, [`gc::Memory`], with allocation, payload
//!   access, the root set, collection and the walks over the heap.
//! - [`bitmap`] is the mark bitmap.
//! - [`laws`] proves what holds of every valid heap and of every collection.
//! - [`lemmas`] and [`reach`] hold the facts on tilings, the free list and
//!   reachability that the proofs share.
//! - [`clock`] declares the part of the system clock that times a cycle.

pub mod bitmap;
pub mod clock;
pub mod gc;
pub mod laws;
pub mod lemmas;
pub mod model;
pub mod reach;
