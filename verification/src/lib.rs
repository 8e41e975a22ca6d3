//! An embeddable, single-node, persistent key-value store built on the
//! Bitcask model: writes are appended to immutable log segments and an
//! in-memory ordered index maps each key to the byte location of its most
//! recent record.
//!
//! The library models every segment as an in-memory append-only byte log;
//! a thin unverified front-end mirrors those bytes to real files and hands
//! their contents back at open.

pub mod errors;
pub mod options;
pub mod data;
pub mod index;
pub mod engine;
pub mod iterator;
pub mod batch;
