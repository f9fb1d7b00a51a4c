//! Length-prefixed message framing over non-blocking byte streams.
//!
//! A wire message is a fixed-size header followed by a payload; bytes
//! `[4, 8)` of the header hold the total message length, little-endian.
//! The connection types here hold the decisions of the read and write loops;
//! the caller performs the socket reads and writes and hands over the results.
pub mod message;
pub mod reader;
pub mod incoming;
pub mod outgoing;

pub use message::{FrameError, MessageBuffer, HEADER_SIZE, MAX_MESSAGE_LEN};
pub use reader::MessageReader;
pub use incoming::{IncomingConnection, ReadOutcome};
pub use outgoing::OutgoingConnection;
