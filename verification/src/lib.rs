//! An in-memory key/value server core speaking a line-oriented,
//! length-prefixed wire protocol: a frame codec, a command interpreter,
//! and a store with per-key time-to-live semantics.
//!
//! Time is represented throughout as a monotonic timestamp in
//! milliseconds, handed in by the caller; nothing here reads a clock,
//! so expiration is a pure function of elapsed time.

pub mod command;
pub mod frame;
pub mod server;
pub mod store;
pub mod text;
