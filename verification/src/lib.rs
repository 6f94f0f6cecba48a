//! Verified core of a radio-detection streaming server.
//!
//! The library holds the logic of the system: the length-prefixed wire
//! protocol and its payload codec, the per-connection read/write state
//! machines, the broadcast server core, the automatic gain controller,
//! and the acquisition/supervisor state machines.  All I/O (sockets,
//! the radio device, files) lives outside, in the application layer,
//! which feeds this library plain values.

pub mod acquisition;
pub mod codec;
pub mod config;
pub mod frame_reader;
pub mod gain_control;
pub mod payload;
pub mod pulse;
pub mod pulse_store;
pub mod server;
pub mod task;
pub mod util;
pub mod wire;
