//! Chunked line indexing and search for large append-only logs.
//!
//! The library discovers line boundaries incrementally as byte chunks arrive,
//! answers byte-range queries for line intervals, finds which lines contain a
//! byte sequence, and decodes byte ranges into text without corrupting
//! multi-byte characters cut at a boundary.

pub mod decoder;
pub mod engine;
pub mod matcher;
pub mod scanner;
