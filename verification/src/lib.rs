//! Client-side core of a proxy tunnel that multiplexes TCP and UDP traffic
//! over one secure transport connection.
//!
//! The crate covers the wire-level address and header codec, the UDP packet
//! fragmentation engine and its receive-side reassembly counterpart, the
//! type-state protocol objects that tie messages to transport streams, and
//! the task-registration handles that keep the connection alive while work
//! is outstanding.

pub mod address;
pub mod config;
pub mod connect;
pub mod error;
pub mod header;
pub mod packet;
pub mod reassembly;
pub mod side;
pub mod stream;
pub mod task;
