//! The parsers and the values they produce, in one place.

pub use crate::command::{command, Command, CommandView, MetaData, Ping, PingView, Pong};
pub use crate::frame::{
    frame, frame_body, frame_header, Frame, FrameFlags, FrameHeader, FrameView,
};
pub use crate::greeting::{greeting, Greeting, SecurityMechanism, Version};
pub use crate::message::{message, Message};
