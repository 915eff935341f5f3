//! Verified core of an on-disk cache for compressed audio streams.
//!
//! Artifacts are stored in a self-describing container: a four byte magic
//! tag, a little-endian signed 32-bit length, a structured text header of
//! exactly that many bytes, then the raw compressed payload.  The crate
//! provides the container codec, the index that maps source URLs to
//! artifact paths, and the decision logic of the write and read paths.
//! File and network I/O stay outside; callers hand in bytes and get bytes
//! and decisions back.

pub mod jsontext;
pub mod meta;
pub mod codec;
pub mod index;
pub mod writer;
pub mod util;
