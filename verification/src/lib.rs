//! An ordered key-value store over byte strings: leaves of bounded size that
//! split as they fill, an index that routes keys to leaves, a dirty set and a
//! rolling flush epoch that say which leaves each flush has to persist, and a
//! cache advisor that says which leaves to drop from memory.
//!
//! The store has one owner and does no input or output. Where an operation
//! needs the bytes of a leaf that is not in memory, or a fresh node id, it
//! tells its caller so, and the caller reads the bytes from the object store
//! or mints the id and calls again; a flush hands the caller the batch to
//! write.
//!
//! The modules, from the bottom up:
//!
//! - `bytes`, `range`: the order of keys, split keys, bounds and prefixes;
//! - `entries`: a sorted sequence of pairs as a map;
//! - `stack`, `maps`, `codec`, `advisor`: what is taken on trust from the
//!   crates that hold the entries, the index, the bytes and the cache policy;
//! - `leaf`, `epoch`, `batch`, `error`: the parts of the store;
//! - `model`, `invariants`: the store as a mathematical value, and what is
//!   proved of it;
//! - `db`, `iter`, `scan`: the store and its operations.

pub mod advisor;
pub mod batch;
pub mod bytes;
pub mod codec;
pub mod db;
pub mod entries;
pub mod epoch;
pub mod error;
pub mod invariants;
pub mod iter;
pub mod leaf;
pub mod maps;
pub mod model;
pub mod range;
pub mod scan;
pub mod stack;
