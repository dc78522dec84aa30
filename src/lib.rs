//! A minimal DNS stub resolver with a verified wire codec, and a few small
//! companion models (a satellite mailbox and a simulated file).
pub mod error;
pub mod file;
pub mod name;
pub mod resolver;
pub mod sats;
pub mod wire;
