//! A minimal fixed-record flat-file storage engine with in-memory secondary
//! indexes for equality lookups on selected fields.
//!
//! The engine is split into four parts: a record codec ([`codec`]) that lays a
//! record's fields out as contiguous bytes, an equality index ([`index`]) from
//! field value to the set of row positions holding it, the store itself
//! ([`store`]) which keeps an in-memory mirror of every decoded record in sync
//! with the file image and the indexes, and the schema descriptor ([`schema`])
//! that fixes the byte layout. File reads and writes themselves happen outside
//! the library: every mutating store operation returns the exact byte write it
//! requires, and opening a store takes the file's bytes as input.

pub mod codec;
pub mod error;
pub mod index;
pub mod schema;
pub mod store;
