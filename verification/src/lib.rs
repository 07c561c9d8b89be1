//! ZFS remote backup: naming, retention, wire protocol, session rules and
//! progress state of a tool that ships `zfs send` streams to a remote pool.
//!
//! The library holds every decision the tool takes. Processes, sockets, the
//! terminal and the clock stay with the caller, who hands in what they said and
//! carries out what the library answers.

pub mod cli;
pub mod config;
pub mod double;
pub mod laws;
pub mod number;
pub mod numeral;
pub mod ops;
pub mod progress;
pub mod protocol;
pub mod retention;
pub mod snapshot;
pub mod ssh;
pub mod text;
pub mod time;
pub mod tui;
pub mod zfs;

use vstd::prelude::*;

verus! {

/// The version both sides of a connection declare.
pub const VERSION: &'static str = "0.3.0";

} // verus!
