//! `OrderedStream` caches numbered messages `(sequence number, elements)` that arrive on a
//! `crossbeam_channel` receiver in any order, and hands their elements out in sequence
//! order: message by message, or in chunks of a requested length regardless of where the
//! messages begin and end. Elements handed out are consumed.
//!
//! The cache and every decision about it are verified here; the loops that wait on the
//! channel drive these functions one received message at a time.

pub mod offset_vec;
pub mod lookup;
pub mod channel;
pub mod ordered_stream;
pub mod laws;

pub use crate::offset_vec::OffsetVec;
pub use crate::ordered_stream::OrderedStream;
