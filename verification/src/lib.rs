//! A single-node key-value store: a framed wire protocol, a command layer
//! and a log-structured storage engine with an in-memory index.

use vstd::prelude::*;

pub mod buffer;
pub mod cli;
pub mod client;
pub mod clock;
pub mod cmd;
pub mod coherence;
pub mod connection;
pub mod db;
pub mod decimal;
pub mod frame;
pub mod index;
pub mod json;
pub mod record;
pub mod roundtrip;
pub mod text;

verus! {

/// The TCP port that the server listens on unless told otherwise.
pub const DEFAULT_PORT: u16 = 6379;

} // verus!
