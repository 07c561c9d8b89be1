pub mod list;
pub mod prune;
pub mod send;
pub mod server;
pub mod snapshot;
