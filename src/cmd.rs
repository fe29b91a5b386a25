//! The commands the server understands: how each is read from a request
//! frame, and what running it does to the cache and replies.
pub mod config;
pub mod del;
pub mod get;
pub mod ping;
pub mod set;

pub use config::Config;
pub use del::Del;
pub use get::Get;
pub use ping::Ping;
pub use set::SetCommand;

use crate::bytes::{ascii_upper, bytes_eq, text, to_ascii_upper};
use crate::cmd::config::{config_option, config_reply};
use crate::cmd::del::{count_reply, del_keys, is_del_request};
use crate::cmd::get::{get_key, get_reply};
use crate::cmd::ping::{ping_message, ping_reply};
use crate::cmd::set::{expiry_of, set_request};
use crate::db::cache::{expiries_after_set, State};
use crate::db::cmap::key_set;
use crate::error::{malformed_text, CommandError};
use crate::frame::{models, lemma_models, Frame, FrameModel};
use vstd::prelude::*;
use vstd::string::StringSliceAdditionalSpecFns;

verus! {

/// A copy of a byte string.
pub fn copy_bytes(v: &Vec<u8>) -> (r: Vec<u8>)
    ensures
        r@ == v@,
{
    vstd::slice::slice_to_vec(v.as_slice())
}

/// The error for a command whose arguments do not fit it.
pub fn malformed(name: &str, reason: &str) -> (r: CommandError)
    ensures
        r matches CommandError::Malformed(n, m) && n@ == name.spec_bytes() && m@ == reason.spec_bytes(),
{
    CommandError::Malformed(text(name), text(reason))
}

/// Checks that a frame is a command, an array whose first element is a bulk
/// string, and returns the name in upper case with all the elements.
pub fn parse_frame(frame: Frame) -> (r: Result<(Vec<u8>, Vec<Frame>), CommandError>)
    ensures
        match frame@ {
            FrameModel::Array(items) => if items.len() > 0 && items[0] is Bulk {
                r matches Ok((name, frames)) && name@ == ascii_upper(items[0]->Bulk_0) && models(
                    frames@,
                ) == items
            } else {
                r matches Err(CommandError::InvalidCmdFrame)
            },
            _ => r matches Err(CommandError::NotCmdFrame),
        },
{
    match frame {
        Frame::Array(frames) => {
            proof {
                lemma_models(frames@);
            }
            if frames.len() == 0 {
                return Err(CommandError::InvalidCmdFrame);
            }
            let name = match &frames[0] {
                Frame::Bulk(name) => to_ascii_upper(name.as_slice()),
                _ => {
                    return Err(CommandError::InvalidCmdFrame);
                },
            };
            Ok((name, frames))
        },
        _ => Err(CommandError::NotCmdFrame),
    }
}

/// A command ready to run.
pub enum Command {
    Get(Get),
    SetKey(SetCommand),
    Del(Del),
    Ping(Ping),
    Config(Config),
}

/// The upper-cased name of the command that a request frame holds, if it
/// holds one.
pub open spec fn command_name(m: FrameModel) -> Option<Seq<u8>> {
    match m {
        FrameModel::Array(items) => if items.len() > 0 && items[0] is Bulk {
            Some(ascii_upper(items[0]->Bulk_0))
        } else {
            None
        },
        _ => None,
    }
}

/// Reads the command that a request frame holds.
pub fn parse_command(frame: Frame) -> (r: Result<Command, CommandError>)
    ensures
        match command_name(frame@) {
            None => r matches Err(e) && (if frame@ is Array {
                e is InvalidCmdFrame
            } else {
                e is NotCmdFrame
            }),
            Some(name) => {
                let items = frame@->Array_0;
                if name == "GET".spec_bytes() {
                    match get_key(items) {
                        Some(k) => r matches Ok(Command::Get(g)) && g.key@ == k,
                        None => r matches Err(CommandError::Malformed(n, _)) && n@ == name,
                    }
                } else if name == "SET".spec_bytes() {
                    match set_request(items) {
                        Some((k, v, t)) => r matches Ok(Command::SetKey(c)) && c.key@ == k
                            && c.value@ == v && c.ttl == t,
                        None => r matches Err(CommandError::Malformed(n, _)) && n@ == name,
                    }
                } else if name == "DEL".spec_bytes() {
                    if is_del_request(items) {
                        r matches Ok(Command::Del(d)) && key_set(d.keys@) == del_keys(items)
                    } else {
                        r matches Err(CommandError::Malformed(n, _)) && n@ == name
                    }
                } else if name == "PING".spec_bytes() {
                    match ping_message(items) {
                        Some(m) => r matches Ok(Command::Ping(p)) && m == match p.message {
                            None => None,
                            Some(v) => Some(v@),
                        },
                        None => r matches Err(CommandError::Malformed(n, _)) && n@ == name,
                    }
                } else if name == "CONFIG".spec_bytes() {
                    match config_option(items) {
                        Some(o) => r matches Ok(Command::Config(c)) && c.options@ == o,
                        None => r matches Err(CommandError::Malformed(n, _)) && n@ == name,
                    }
                } else {
                    r matches Err(CommandError::Unknown(n)) && n@ == name
                }
            },
        },
{
    let (name, frames) = match parse_frame(frame) {
        Ok(x) => x,
        Err(e) => {
            return Err(e);
        },
    };
    let n = name.as_slice();
    if bytes_eq(n, text("GET").as_slice()) {
        match Get::from(&frames) {
            Ok(c) => Ok(Command::Get(c)),
            Err(e) => Err(e),
        }
    } else if bytes_eq(n, text("SET").as_slice()) {
        match SetCommand::from(&frames) {
            Ok(c) => Ok(Command::SetKey(c)),
            Err(e) => Err(e),
        }
    } else if bytes_eq(n, text("DEL").as_slice()) {
        match Del::from(&frames) {
            Ok(c) => Ok(Command::Del(c)),
            Err(e) => Err(e),
        }
    } else if bytes_eq(n, text("PING").as_slice()) {
        match Ping::from(&frames) {
            Ok(c) => Ok(Command::Ping(c)),
            Err(e) => Err(e),
        }
    } else if bytes_eq(n, text("CONFIG").as_slice()) {
        match Config::from(&frames) {
            Ok(c) => Ok(Command::Config(c)),
            Err(e) => Err(e),
        }
    } else {
        Err(CommandError::Unknown(name))
    }
}

impl Command {
    /// Runs the command against the cache, `now` being the present on the
    /// cache's clock, and returns the reply with whether the eviction worker
    /// must be woken.
    pub fn apply(&self, state: &mut State, now: u64) -> (r: (Frame, bool))
        requires
            old(state).wf(),
        ensures
            final(state).wf(),
            final(state).spec_capacity() == old(state).spec_capacity(),
            final(state).spec_threshold() == old(state).spec_threshold(),
            match self {
                Command::Get(g) => *final(state) == *old(state) && r.0@ == (if old(state)@.contains_key(
                    g.key@,
                ) {
                    FrameModel::Bulk(old(state)@[g.key@])
                } else {
                    FrameModel::Null
                }) && !r.1,
                Command::Ping(p) => *final(state) == *old(state) && r.0@ == (match p.message {
                    None => FrameModel::Simple("PONG".spec_bytes()),
                    Some(m) => FrameModel::Bulk(m@),
                }) && !r.1,
                Command::Config(c) => *final(state) == *old(state) && r.0@ == config_reply(c.options@)
                    && !r.1,
                Command::Del(d) => final(state)@ == old(state)@.remove_keys(key_set(d.keys@))
                    && final(state).expiries() == old(state).expiries() && r.0@ == count_reply(
                    old(state)@.dom().intersect(key_set(d.keys@)).len() as int,
                ) && !r.1,
                Command::SetKey(s) => if old(state)@.len() < usize::MAX {
                    &&& final(state)@ == old(state)@.insert(s.key@, s.value@)
                    &&& final(state).expiry_set() == expiries_after_set(
                        old(state).expiry_set(),
                        s.key@,
                        expiry_of(s.ttl, now),
                    )
                    &&& r.0@ == FrameModel::Simple("OK".spec_bytes())
                    &&& r.1 == (final(state)@.len() >= final(state).eviction_mark())
                } else {
                    &&& *final(state) == *old(state)
                    &&& r.0@ == FrameModel::Error("store is full".spec_bytes())
                    &&& !r.1
                },
            },
    {
        match self {
            Command::Get(g) => (g.apply(state), false),
            Command::Ping(p) => (p.apply(), false),
            Command::Config(c) => (c.apply(), false),
            Command::Del(d) => (d.apply(state), false),
            Command::SetKey(s) => s.apply(state, now),
        }
    }
}

/// An error reply saying that the arguments do not fit command `name`.
pub open spec fn malformed_reply(name: Seq<u8>, reply: FrameModel) -> bool {
    exists|reason: Seq<u8>| reply == FrameModel::Error(#[trigger] malformed_text(name, reason))
}

/// What serving the request `req` does: `before` and `after` are the cache
/// around it, `reply` the frame sent back, `wake` whether the eviction worker
/// must be woken, `now` the present on the cache's clock.
pub open spec fn serves(
    req: FrameModel,
    before: State,
    after: State,
    reply: FrameModel,
    wake: bool,
    now: u64,
) -> bool {
    &&& after.wf()
    &&& after.spec_capacity() == before.spec_capacity()
    &&& after.spec_threshold() == before.spec_threshold()
    &&& match command_name(req) {
        None => after == before && !wake && reply == FrameModel::Error("not a command".spec_bytes()),
        Some(name) => {
            let items = req->Array_0;
            if name == "GET".spec_bytes() {
                after == before && !wake && match get_key(items) {
                    Some(k) => reply == get_reply(before@, k),
                    None => malformed_reply(name, reply),
                }
            } else if name == "SET".spec_bytes() {
                match set_request(items) {
                    Some((k, v, t)) => if before@.len() < usize::MAX {
                        &&& after@ == before@.insert(k, v)
                        &&& after.expiry_set() == expiries_after_set(
                            before.expiry_set(),
                            k,
                            expiry_of(t, now),
                        )
                        &&& reply == FrameModel::Simple("OK".spec_bytes())
                        &&& wake == (after@.len() >= after.eviction_mark())
                    } else {
                        &&& after == before
                        &&& reply == FrameModel::Error("store is full".spec_bytes())
                        &&& !wake
                    },
                    None => after == before && malformed_reply(name, reply) && !wake,
                }
            } else if name == "DEL".spec_bytes() {
                if is_del_request(items) {
                    &&& after@ == before@.remove_keys(del_keys(items))
                    &&& after.expiries() == before.expiries()
                    &&& reply == count_reply(
                        before@.dom().intersect(del_keys(items)).len() as int,
                    )
                    &&& !wake
                } else {
                    after == before && malformed_reply(name, reply) && !wake
                }
            } else if name == "PING".spec_bytes() {
                after == before && !wake && match ping_message(items) {
                    Some(m) => reply == ping_reply(m),
                    None => malformed_reply(name, reply),
                }
            } else if name == "CONFIG".spec_bytes() {
                after == before && !wake && match config_option(items) {
                    Some(o) => reply == config_reply(o),
                    None => malformed_reply(name, reply),
                }
            } else {
                after == before && !wake && reply == FrameModel::Error(
                    "unknown command: ".spec_bytes() + name,
                )
            }
        },
    }
}

/// Serves one request frame: runs the command it holds, or replies with an
/// error frame that says why it cannot be run. The second result says whether
/// the eviction worker must be woken.
pub fn handle_frame(frame: Frame, state: &mut State, now: u64) -> (r: (Frame, bool))
    requires
        old(state).wf(),
    ensures
        serves(frame@, *old(state), *final(state), r.0@, r.1, now),
{
    let ghost req = frame@;
    match parse_command(frame) {
        Ok(cmd) => {
            cmd.apply(state, now)
        },
        Err(e) => {
            let text = e.message();
            proof {
                if command_name(req) is None {
                    assert(text@ == "not a command".spec_bytes());
                }
                if e is Malformed {
                    let reason = e->Malformed_1@;
                    assert(text@ == malformed_text(e->Malformed_0@, reason));
                    assert(malformed_reply(e->Malformed_0@, FrameModel::Error(text@)));
                }
            }
            (Frame::Error(text), false)
        },
    }
}

} // verus!
