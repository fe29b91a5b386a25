use crate::bytes::{push_all, text};
use vstd::prelude::*;
use vstd::string::StringSliceAdditionalSpecFns;

verus! {

/// Why a frame could not be decoded or manipulated.
#[derive(Debug, Clone, Copy, PartialEq, Eq, Structural)]
pub enum FrameError {
    /// The peer closed the stream at a frame boundary.
    EOF,
    /// The bytes violate the RESP grammar.
    InvalidFrame,
    /// An unknown tag byte, or an operation applied to the wrong frame variant.
    InvalidType,
    /// The buffer ends before the frame does; more bytes are needed.
    Incomplete,
    /// An integer payload is not a signed 64-bit decimal number.
    IntFromUTF8,
    /// The peer closed the stream in the middle of a frame.
    UnexpectedEOF,
    /// The connection was reset while reading.
    ConnectionReset,
}

impl FrameError {
    pub open spec fn spec_message(&self) -> Seq<u8> {
        match *self {
            FrameError::EOF => "file reached EOF".spec_bytes(),
            FrameError::InvalidFrame => "RESP frame is malformed".spec_bytes(),
            FrameError::InvalidType => "wrong RESP frame type, needed another type here".spec_bytes(),
            FrameError::Incomplete => "frame is incomplete".spec_bytes(),
            FrameError::IntFromUTF8 => "cannot convert bytes to int".spec_bytes(),
            FrameError::UnexpectedEOF => "connection abruptly closed".spec_bytes(),
            FrameError::ConnectionReset => "connection reset by peer".spec_bytes(),
        }
    }

    /// The human-readable text of the error.
    pub fn message(&self) -> (r: Vec<u8>)
        ensures
            r@ == self.spec_message(),
    {
        match self {
            FrameError::EOF => text("file reached EOF"),
            FrameError::InvalidFrame => text("RESP frame is malformed"),
            FrameError::InvalidType => text("wrong RESP frame type, needed another type here"),
            FrameError::Incomplete => text("frame is incomplete"),
            FrameError::IntFromUTF8 => text("cannot convert bytes to int"),
            FrameError::UnexpectedEOF => text("connection abruptly closed"),
            FrameError::ConnectionReset => text("connection reset by peer"),
        }
    }
}

/// Why a frame is not a command that can be run.
#[derive(Debug)]
pub enum CommandError {
    /// The frame is not an array.
    NotCmdFrame,
    /// The command name is not one the server knows.
    Unknown(Vec<u8>),
    /// The arguments do not fit the command: its name, and the reason.
    Malformed(Vec<u8>, Vec<u8>),
    /// An array that is empty or whose first element is not a bulk string:
    /// not a command either.
    InvalidCmdFrame,
    /// The reply could not be written.
    Connection,
    /// The request could not be decoded.
    FrameDecode(FrameError),
}

/// The text of the error for a command `name` whose arguments do not fit it.
pub open spec fn malformed_text(name: Seq<u8>, reason: Seq<u8>) -> Seq<u8> {
    "'".spec_bytes() + name + "' command is invalid: ".spec_bytes() + reason
}

impl CommandError {
    pub open spec fn spec_message(&self) -> Seq<u8> {
        match *self {
            CommandError::NotCmdFrame => "not a command".spec_bytes(),
            CommandError::Unknown(name) => "unknown command: ".spec_bytes() + name@,
            CommandError::Malformed(name, reason) => malformed_text(name@, reason@),
            CommandError::InvalidCmdFrame => "not a command".spec_bytes(),
            CommandError::Connection => "network error: error while writing to network".spec_bytes(),
            CommandError::FrameDecode(e) => e.spec_message(),
        }
    }

    /// The text sent back to the client in an error frame.
    pub fn message(&self) -> (r: Vec<u8>)
        ensures
            r@ == self.spec_message(),
    {
        match self {
            CommandError::NotCmdFrame => text("not a command"),
            CommandError::Unknown(name) => {
                let mut out = text("unknown command: ");
                push_all(&mut out, name.as_slice());
                out
            },
            CommandError::Malformed(name, reason) => {
                let mut out = text("'");
                push_all(&mut out, name.as_slice());
                let middle = text("' command is invalid: ");
                push_all(&mut out, middle.as_slice());
                push_all(&mut out, reason.as_slice());
                out
            },
            CommandError::InvalidCmdFrame => text("not a command"),
            CommandError::Connection => text("network error: error while writing to network"),
            CommandError::FrameDecode(e) => e.message(),
        }
    }
}

/// An error met while serving a request: in decoding it, or in running it.
#[derive(Debug)]
pub enum HandleCommandError {
    Frame(FrameError),
    Command(CommandError),
}

impl HandleCommandError {
    pub open spec fn spec_message(&self) -> Seq<u8> {
        match *self {
            HandleCommandError::Frame(e) => e.spec_message(),
            HandleCommandError::Command(e) => e.spec_message(),
        }
    }

    pub fn message(&self) -> (r: Vec<u8>)
        ensures
            r@ == self.spec_message(),
    {
        match self {
            HandleCommandError::Frame(e) => e.message(),
            HandleCommandError::Command(e) => e.message(),
        }
    }
}

/// Why a store or cache could not be built.
#[derive(Debug, Clone, Copy, PartialEq, Eq, Structural)]
pub enum DatabaseError {
    /// No capacity was allocated to the database.
    NoAllocation,
    /// The shard count is not a power of two.
    InvalidShardCount,
    /// The eviction threshold is not a percentage below 100.
    InvalidThreshold,
}

} // verus!
