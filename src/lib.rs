//! A codec for STOMP-style frames: a command line, ordered `key:value`
//! header lines, a blank line, an optional body and a NUL terminator.
pub mod client;
pub mod command;
pub mod escape;
pub mod frame;
pub mod round_trip;
pub mod server;
pub mod text;

pub use client::{ClientCommand, StompFrame};
pub use command::{Command, ParseError};
pub use escape::{escape, unescape};
pub use frame::{deserialize, serialize, DecodeError, Frame};
pub use server::ServerCommand;
