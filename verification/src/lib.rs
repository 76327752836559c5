//! A verified codec for the bencode wire format: a strict streaming
//! parser and value model, a canonical value encoder, and a typed
//! encode/decode adapter, all over one byte grammar.
//!
//! The grammar itself lives in `digits`, `encoding` and `parse` (and,
//! for the typed side, `tspec`) as spec functions; `reader`, `encoder`,
//! `de` and `ser` are the executable halves proved against it; `laws`
//! holds the round-trip theorems that tie them together.

pub mod de;
pub mod digits;
pub mod encoder;
pub mod encoding;
pub mod error;
pub mod laws;
pub mod parse;
pub mod reader;
pub mod ser;
pub mod tspec;
pub mod value;
