//! A minimal IPC bus protocol engine: a wire codec for method-call,
//! method-return, error and signal frames; a connection that allocates
//! serial numbers, queues outgoing frames and correlates replies with
//! pending calls; an object tree that routes incoming method calls to
//! registered handlers; a client-side proxy that composes calls and
//! interprets replies; and a bus-side name table.
//!
//! The engine is transport-free: frames enter and leave as byte vectors,
//! and the host process moves them over whatever channel it owns.

pub mod bytes;
pub mod arg;
pub mod msg;
pub mod codec;
pub mod path;
pub mod dispatch;
pub mod conn;
pub mod proxy;
pub mod names;
