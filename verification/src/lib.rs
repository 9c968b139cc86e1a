//! Verified core of a line-oriented, multi-room chat relay.
//!
//! The library holds the pure logic of the relay: the frame decoder that
//! cuts a raw byte stream into newline-terminated messages, the command
//! parser, the per-connection protocol state machine, and the room
//! registry that owns all membership and computes broadcast fan-out.
//! Socket I/O, task spawning and mailboxes live outside the library and
//! exchange plain byte vectors with it.

pub mod bytes;
pub mod command;
pub mod conn;
pub mod frame;
pub mod registry;

pub use command::Command;
pub use conn::State;
pub use frame::Frame;
pub use registry::{Member, Registry};
