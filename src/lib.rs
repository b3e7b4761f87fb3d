//! A small remote-procedure-call core: framed transports over byte streams,
//! the gathering of fanned-out calls, the server's request/reply discipline and
//! the compiler that derives a wire schema, a client stub and a dispatch table
//! from a declared service interface.
//!
//! Everything here works on values: reading from and writing to streams, threads
//! and serialization of user types stay with the caller.

pub mod dispatcher;
pub mod error;
pub mod procedure;
pub mod server;
pub mod service;
pub mod transport;
pub mod wire;
