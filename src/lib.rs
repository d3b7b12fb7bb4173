//! A two-party terminal chat: the frame codec, the line editor that shares a
//! terminal between typed input and incoming lines, address and argument
//! parsing, and the daemon's connection pool with its handoff wire format.
pub mod address;
pub mod args;
pub mod framing;
pub mod handoff;
pub mod pool;
pub mod screen;
pub mod session;
pub mod terminal;
