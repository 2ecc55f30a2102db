//! Durable storage core of a message-broker node: an append-only, segmented
//! commit log. Messages are opaque byte payloads, framed on disk as a 4-byte
//! big-endian length prefix followed by the payload. A `Log` owns one active
//! `Segment` at a time and rolls over to a fresh segment when the next frame
//! would push the active one past the size bound.
//!
//! All file handling stays with the caller: the library decides what bytes a
//! frame is made of, where it lands, and when a new segment must be started,
//! and it decodes the bytes a segment file holds.

pub mod codec;
pub mod config;
pub mod storage;
