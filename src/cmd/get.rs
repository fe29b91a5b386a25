use crate::cmd::{copy_bytes, malformed};
use crate::db::cache::State;
use crate::error::CommandError;
use crate::frame::{lemma_models, models, Frame, FrameModel};
use vstd::prelude::*;
use vstd::string::StringSliceAdditionalSpecFns;

verus! {

/// `GET key`: reads one key.
pub struct Get {
    pub key: Vec<u8>,
}

/// A GET of the empty key.
pub fn new() -> (r: Get)
    ensures
        r.key@.len() == 0,
{
    Get { key: Vec::new() }
}

/// The key of a well-shaped GET request: exactly one bulk argument.
pub open spec fn get_key(items: Seq<FrameModel>) -> Option<Seq<u8>> {
    if items.len() == 2 && items[1] is Bulk {
        Some(items[1]->Bulk_0)
    } else {
        None
    }
}

/// The reply to a GET of `key` on a store holding `store`.
pub open spec fn get_reply(store: Map<Seq<u8>, Seq<u8>>, key: Seq<u8>) -> FrameModel {
    if store.contains_key(key) {
        FrameModel::Bulk(store[key])
    } else {
        FrameModel::Null
    }
}

impl Get {
    /// Reads the command from its frames, name included: exactly one bulk
    /// argument.
    pub fn from(frames: &Vec<Frame>) -> (r: Result<Get, CommandError>)
        ensures
            match get_key(models(frames@)) {
                Some(k) => r matches Ok(g) && g.key@ == k,
                None => r matches Err(e) && (e matches CommandError::Malformed(n, _) && n@
                    == "GET".spec_bytes()),
            },
    {
        proof {
            lemma_models(frames@);
        }
        if frames.len() != 2 {
            return Err(malformed("GET", "requires 1 argument"));
        }
        match &frames[1] {
            Frame::Bulk(value) => {
                let mut cmd = new();
                cmd.key = copy_bytes(value);
                Ok(cmd)
            },
            _ => Err(malformed("GET", "requires 1 argument")),
        }
    }

    /// The value as a bulk string, or null when the key is absent.
    pub fn apply(&self, state: &State) -> (r: Frame)
        requires
            state.wf(),
        ensures
            r@ == get_reply(state@, self.key@),
    {
        match state.get_value_by_key(self.key.as_slice()) {
            Some(value) => Frame::Bulk(value),
            None => Frame::Null,
        }
    }
}

} // verus!
