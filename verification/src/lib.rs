//! A minimal persistent key-value store engine.
//!
//! The store keeps an in-memory index of string records, strictly sorted by
//! key, and persists it through a line-oriented log text: one record per
//! line, the key and the value separated by a single comma. Loading parses
//! every well-formed line in file order, later occurrences of a key winning,
//! and skips malformed lines silently. A CRLF line break is tolerated on
//! load (one trailing carriage return per line is dropped); writing always
//! uses bare line breaks. Reading the file and writing it back are left to
//! the caller; the engine turns log text into an index and an index into
//! log text, and proves that the two directions agree.
//!
//! Persisting always rewrites the whole log from the index, for both puts
//! and removals; there is deliberately no append-only path and no secondary
//! mirror file, so the log after every mutation is exactly the encoded
//! index, one comma-delimited line per record in ascending key order.

pub mod codec;
pub mod laws;
pub mod order;
pub mod store;
