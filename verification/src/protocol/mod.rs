pub mod codec;
pub mod handshake;
