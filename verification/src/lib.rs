//! Decoder for a framed, message-oriented wire protocol in the style of ZMTP.
//!
//! A peer opens with a fixed 64-octet greeting and then sends frames: a short
//! header (flags and a body length) followed by the body, which is either a
//! command or an opaque message payload. This crate turns bytes into those
//! values, and says exactly which bytes give which value.
//!
//! * [`reader`] is the primitive reader that all consumption goes through.
//! * [`greeting`], [`frame`], [`command`], [`metadata`] and [`message`] hold
//!   the parsers, each beside the mathematical function that it computes.
//! * [`octets`] and [`shared`] hold the byte-bearing values: borrowed from the
//!   parse input, or owned as shares of frozen storage.
//! * [`decoder`] is the streaming decoder, for input that comes in chunks.
//! * [`wire`] writes the format down from values to bytes and proves that the
//!   parsers read back what it writes.

pub mod command;
pub mod decoder;
pub mod frame;
pub mod greeting;
pub mod message;
pub mod metadata;
pub mod octets;
pub mod prelude;
pub mod reader;
pub mod shared;
pub mod wire;

pub use command::{command, Command, MetaData, Ping, Pong};
pub use decoder::{Parser, ParserError};
pub use frame::{frame, Frame, FrameHeader};
pub use greeting::{greeting, Greeting};
pub use message::{message, Message};
pub use octets::{Borrowed, ByteSlice};
pub use reader::ParseError;
