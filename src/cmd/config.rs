use crate::bytes::{bytes_eq, text};
use crate::cmd::{copy_bytes, malformed};
use crate::error::CommandError;
use crate::frame::{dict_insert, lemma_models, models, Frame, FrameModel};
use vstd::prelude::*;
use vstd::string::StringSliceAdditionalSpecFns;

verus! {

/// `CONFIG GET parameter`, answered with fixed values so that benchmark
/// tools can start.
pub struct Config {
    pub options: Vec<u8>,
}

/// A CONFIG with no parameter.
pub fn new() -> (r: Config)
    ensures
        r.options@.len() == 0,
{
    Config { options: Vec::new() }
}

/// The parameter of a well-shaped CONFIG request: its third element, a bulk
/// string.
pub open spec fn config_option(items: Seq<FrameModel>) -> Option<Seq<u8>> {
    if items.len() >= 3 && items[2] is Bulk {
        Some(items[2]->Bulk_0)
    } else {
        None
    }
}

/// The reply to `CONFIG GET options`.
pub open spec fn config_reply(options: Seq<u8>) -> FrameModel {
    if options == "save".spec_bytes() {
        FrameModel::Dict(
            seq![
                (
                    FrameModel::Bulk("save".spec_bytes()),
                    FrameModel::Bulk("3600 1 300 100 60 10000".spec_bytes()),
                ),
            ],
        )
    } else {
        FrameModel::Dict(
            seq![(FrameModel::Bulk("appendonly".spec_bytes()), FrameModel::Bulk("no".spec_bytes()))],
        )
    }
}

impl Config {
    /// Reads the command from its frames, name included: the parameter is the
    /// third element, a bulk string.
    pub fn from(frames: &Vec<Frame>) -> (r: Result<Config, CommandError>)
        ensures
            match config_option(models(frames@)) {
                Some(o) => r matches Ok(c) && c.options@ == o,
                None => r matches Err(e) && (e matches CommandError::Malformed(n, _) && n@
                    == "CONFIG".spec_bytes()),
            },
    {
        proof {
            lemma_models(frames@);
        }
        if frames.len() < 3 {
            return Err(malformed("CONFIG", "requires a subcommand and a parameter"));
        }
        match &frames[2] {
            Frame::Bulk(value) => {
                let mut cmd = new();
                cmd.options = copy_bytes(value);
                Ok(cmd)
            },
            _ => Err(malformed("CONFIG", "the parameter must be a bulk string")),
        }
    }

    /// A map of one entry: the `save` schedule when that is the parameter,
    /// `appendonly` off otherwise.
    pub fn apply(&self) -> (r: Frame)
        ensures
            r@ == config_reply(self.options@),
    {
        let mut response = Frame::map();
        let save = text("save");
        let result = if bytes_eq(self.options.as_slice(), save.as_slice()) {
            response.add_map_frame(Frame::Bulk(save), Frame::Bulk(text("3600 1 300 100 60 10000")))
        } else {
            response.add_map_frame(Frame::Bulk(text("appendonly")), Frame::Bulk(text("no")))
        };
        proof {
            assert(result is Ok);
            assert forall|k: FrameModel, v: FrameModel|
                #[trigger] dict_insert(Seq::<(FrameModel, FrameModel)>::empty(), k, v) == seq![(k, v)] by {
                assert(dict_insert(Seq::<(FrameModel, FrameModel)>::empty(), k, v) =~= seq![(k, v)]);
            }
        }
        response
    }
}

} // verus!
