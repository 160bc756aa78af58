//! An append-only, offset-addressed commit log.
//!
//! The log is a totally ordered sequence of opaque byte records, addressed by
//! monotonically increasing 64-bit offsets. It is built from four layers:
//! a [`store::Store`] (an append-only byte file of length-prefixed frames),
//! an [`index::Index`] (a fixed-width map from relative offsets to store
//! positions, modelling a memory-mapped index file), a [`segment::Segment`]
//! (one store plus one index at a common base offset), and a [`log::Log`]
//! (an ordered collection of segments that rolls new ones over as they fill).
//!
//! Every structure here works on in-memory images of the on-disk files; a
//! host that persists them opens the files, hands their bytes in, and writes
//! the bytes back out.

pub mod config;
pub mod log;
pub mod mem_log;
pub mod models;
pub mod index;
pub mod record;
pub mod segment;
pub mod store;
pub mod wire;
