//! Byte-level building blocks: fixed-width little-endian integers, an
//! in-memory byte source, a counting sink and the Snappy framing.

pub mod counter;
pub mod endian;
pub mod reader;
pub mod snappy;
