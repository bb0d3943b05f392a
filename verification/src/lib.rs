//! Core logic of a rendezvous-and-relay service: two peers connect outbound
//! to the relay, present a shared session identifier in a length-prefixed
//! handshake, are paired by that identifier, and then have raw bytes
//! forwarded between them until either side closes.
//!
//! This crate holds the verified logic: the handshake message codec, the
//! frame reassembler, the pairing registry, and the decision logic of the
//! connection handler and relay engine. The surrounding process (sockets,
//! timers, tasks) drives these functions and performs the I/O they decide.

pub mod codec;
pub mod framer;
pub mod handler;
pub mod registry;
pub mod relay;
