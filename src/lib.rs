//! A real-time text chat relay core: command parsing, room membership, the
//! session registry and the per-connection session state machine.
pub mod text;
pub mod command;
pub mod table;
pub mod room;
pub mod server;
pub mod session;
