//! A minimal columnar file format: a flat schema of required 32-bit integer
//! columns, row groups of plain-encoded column chunks, and a trailing footer
//! that locates every chunk.
//!
//! The writer is a state machine that builds the bytes of a file in memory;
//! the reader accepts exactly the byte strings that the writer can produce and
//! gives the values back. Both are stated over one mathematical model,
//! [`layout::FileModel`], and its encoding, [`layout::file_bytes`].

pub mod codec;
pub mod decode;
pub mod error;
pub mod footer;
pub mod ints;
pub mod laws;
pub mod layout;
pub mod message;
pub mod metadata;
pub mod reader;
pub mod schema;
pub mod writer;
