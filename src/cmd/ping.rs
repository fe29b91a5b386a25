use crate::bytes::text;
use crate::cmd::{copy_bytes, malformed};
use crate::error::CommandError;
use crate::frame::{lemma_models, models, Frame, FrameModel};
use vstd::prelude::*;
use vstd::string::StringSliceAdditionalSpecFns;

verus! {

/// `PING [message]`.
pub struct Ping {
    pub message: Option<Vec<u8>>,
}

/// A PING without a message.
pub fn new() -> (r: Ping)
    ensures
        r.message is None,
{
    Ping { message: None }
}

/// The message of a well-shaped PING request, itself optional: no argument,
/// or one bulk argument.
pub open spec fn ping_message(items: Seq<FrameModel>) -> Option<Option<Seq<u8>>> {
    if items.len() == 1 {
        Some(None)
    } else if items.len() == 2 && items[1] is Bulk {
        Some(Some(items[1]->Bulk_0))
    } else {
        None
    }
}

/// The reply to a PING.
pub open spec fn ping_reply(message: Option<Seq<u8>>) -> FrameModel {
    match message {
        None => FrameModel::Simple("PONG".spec_bytes()),
        Some(m) => FrameModel::Bulk(m),
    }
}

impl Ping {
    /// Reads the command from its frames, name included: at most one bulk
    /// argument.
    pub fn from(frames: &Vec<Frame>) -> (r: Result<Ping, CommandError>)
        requires
            frames@.len() >= 1,
        ensures
            match ping_message(models(frames@)) {
                Some(m) => r matches Ok(p) && (match p.message {
                    None => m is None,
                    Some(v) => m == Some(v@),
                }),
                None => r matches Err(e) && (e matches CommandError::Malformed(n, _) && n@
                    == "PING".spec_bytes()),
            },
    {
        proof {
            lemma_models(frames@);
        }
        let len = frames.len();
        if len > 2 {
            return Err(malformed("PING", "requires at most 1 argument"));
        }
        let mut cmd = new();
        if len == 1 {
            return Ok(cmd);
        }
        match &frames[1] {
            Frame::Bulk(value) => {
                cmd.message = Some(copy_bytes(value));
                Ok(cmd)
            },
            _ => Err(malformed("PING", "requires at most 1 argument")),
        }
    }

    /// PONG, or the message itself as a bulk string.
    pub fn apply(&self) -> (r: Frame)
        ensures
            r@ == ping_reply(
                match self.message {
                    None => None,
                    Some(m) => Some(m@),
                },
            ),
    {
        match &self.message {
            None => Frame::Simple(text("PONG")),
            Some(m) => Frame::Bulk(copy_bytes(m)),
        }
    }
}

} // verus!
