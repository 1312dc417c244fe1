//! An embedded vector store: named collections of records over one row space, an append-only
//! operation log as the source of truth, and ranked, filtered, paginated reads over them.
//!
//! Floating-point scores and vectors are held as their IEEE-754 bit patterns. Everything that
//! decides (ordering, gating, capping, paging, replaying, opening) is integer logic over those
//! patterns and is verified here; the arithmetic itself is supplied by the caller.

pub mod aggregate;
pub mod barrier;
pub mod bits;
pub mod claim;
pub mod coarse;
pub mod compact;
pub mod config;
pub mod dict;
pub mod disk;
pub mod diversity;
pub mod durable;
pub mod expand;
pub mod fanout;
pub mod follow;
pub mod host;
pub mod hybrid;
pub mod index;
pub mod kernel;
pub mod latch;
pub mod laws;
pub mod lexicon;
pub mod message;
pub mod model;
pub mod open;
pub mod order;
pub mod plan;
pub mod quant;
pub mod rank;
pub mod read;
pub mod recall;
pub mod recover;
pub mod rerank;
pub mod roundtrip;
pub mod rows;
pub mod scan;
pub mod scope;
pub mod scoring;
pub mod search;
pub mod similar;
pub mod status;
pub mod store;
pub mod suggest;
pub mod text;
pub mod token;
pub mod undo;
pub mod value;
pub mod walk;
pub mod wire;
pub mod write;
