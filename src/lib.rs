//! Heap allocated, fixed capacity containers.
//!
//! A [`LazyArray`] is a fixed number of slots, each of which may hold a live
//! value or nothing. The array keeps no record of which slots are live beyond
//! the slots themselves: its accessors state, as preconditions, which slots the
//! caller expects to be live.
//!
//! A [`RingArray`] is a ring buffer stored in one [`LazyArray`]. Appending past
//! its capacity evicts the oldest elements.
pub mod lazy;
pub mod ring;

pub use lazy::LazyArray;
pub use ring::RingArray;
