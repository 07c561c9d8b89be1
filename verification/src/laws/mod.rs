//! What the operations are for, in plain terms: over what goes in and what comes out.

pub mod cli;
pub mod codec;
pub mod config;
pub mod display;
pub mod naming;
pub mod numbers;
pub mod policy;
pub mod prune;
pub mod send;
pub mod server;
pub mod ssh;
pub mod text;
pub mod zfs;
