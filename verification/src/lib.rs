//! Core of a log-collection subsystem: discovery of remote log streams,
//! reconciliation of the set of active per-stream monitors, cooperative
//! cancellation, a bounded output queue, and the binary envelope codec.

pub mod codec;
pub mod config;
pub mod monitor;
pub mod queue;
pub mod supervisor;
