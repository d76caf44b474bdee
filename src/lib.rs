//! Parsing and serialisation of tagged, prefixed command lines terminated by
//! CR LF, with a framer that turns a growing byte buffer into messages.
pub mod command;
pub mod data;
pub mod laws;
pub mod stream;
pub mod wire;

pub use command::Command;
pub use data::{Message, Prefix, RawCommandAndArgs, Tag};
pub use stream::{IrcCodec, StreamMessage};
