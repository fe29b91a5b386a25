use crate::bytes::{ascii_upper, bytes_eq, text, to_ascii_upper};
use crate::cmd::{copy_bytes, malformed};
use crate::codec::{digits_value, is_digits, parse_digits};
use crate::db::cache::{expiries_after_set, State};
use crate::error::CommandError;
use crate::frame::{lemma_models, models, Frame, FrameModel};
use vstd::prelude::*;
use vstd::string::StringSliceAdditionalSpecFns;

verus! {

/// `SET key value [EX seconds | PX milliseconds]`.
pub struct SetCommand {
    pub key: Vec<u8>,
    pub value: Vec<u8>,
    /// Time to live in milliseconds.
    pub ttl: Option<u64>,
}

/// A SET of the empty key to the empty value, without expiration.
pub fn new() -> (r: SetCommand)
    ensures
        r.key@.len() == 0,
        r.value@.len() == 0,
        r.ttl is None,
{
    SetCommand { key: Vec::new(), value: Vec::new(), ttl: None }
}

/// The time to live that an `EX` or `PX` option with digits `d` gives, in
/// milliseconds.
pub open spec fn option_ttl(option: Seq<u8>, d: Seq<u8>) -> Option<int> {
    if !is_digits(d) {
        None
    } else if ascii_upper(option) == "EX".spec_bytes() {
        Some(digits_value(d) * 1000int)
    } else if ascii_upper(option) == "PX".spec_bytes() {
        Some(digits_value(d) as int)
    } else {
        None
    }
}

/// A well-shaped SET request: its key, its value, and its time to live if it
/// has one.
pub open spec fn set_request(items: Seq<FrameModel>) -> Option<(Seq<u8>, Seq<u8>, Option<u64>)> {
    if items.len() == 3 && items[1] is Bulk && items[2] is Bulk {
        Some((items[1]->Bulk_0, items[2]->Bulk_0, None))
    } else if items.len() == 5 && items[1] is Bulk && items[2] is Bulk && items[3] is Bulk
        && items[4] is Bulk {
        match option_ttl(items[3]->Bulk_0, items[4]->Bulk_0) {
            Some(t) => if t <= u64::MAX {
                Some((items[1]->Bulk_0, items[2]->Bulk_0, Some(t as u64)))
            } else {
                None
            },
            None => None,
        }
    } else {
        None
    }
}

/// The instant a time to live ends at, `now` being the present; the clock
/// saturates at its largest value.
pub open spec fn expiry_of(ttl: Option<u64>, now: u64) -> Option<u64> {
    match ttl {
        Some(t) => Some(
            if now + t > u64::MAX {
                u64::MAX
            } else {
                (now + t) as u64
            },
        ),
        None => None,
    }
}

impl SetCommand {
    /// Reads the command from its frames, name included: a bulk key and a
    /// bulk value, optionally followed by `EX seconds` or `PX milliseconds`.
    pub fn from(frames: &Vec<Frame>) -> (r: Result<SetCommand, CommandError>)
        ensures
            match set_request(models(frames@)) {
                Some((k, v, t)) => r matches Ok(s) && s.key@ == k && s.value@ == v && s.ttl == t,
                None => r matches Err(e) && (e matches CommandError::Malformed(n, _) && n@
                    == "SET".spec_bytes()),
            },
    {
        proof {
            lemma_models(frames@);
        }
        let len = frames.len();
        if len != 3 && len != 5 {
            return Err(malformed("SET", "requires a key, a value and an optional EX or PX"));
        }
        let mut cmd = new();
        match &frames[1] {
            Frame::Bulk(value) => {
                cmd.key = copy_bytes(value);
            },
            _ => {
                return Err(malformed("SET", "the key must be a bulk string"));
            },
        }
        match &frames[2] {
            Frame::Bulk(value) => {
                cmd.value = copy_bytes(value);
            },
            _ => {
                return Err(malformed("SET", "the value must be a bulk string"));
            },
        }
        if len == 3 {
            return Ok(cmd);
        }
        let option = match &frames[3] {
            Frame::Bulk(o) => to_ascii_upper(o.as_slice()),
            _ => {
                return Err(malformed("SET", "the option must be EX or PX"));
            },
        };
        let amount = match &frames[4] {
            Frame::Bulk(d) => match parse_digits(d.as_slice(), 0, d.len()) {
                Some(n) => {
                    proof {
                        assert(d@.subrange(0, d@.len() as int) =~= d@);
                    }
                    n
                },
                None => {
                    proof {
                        assert(d@.subrange(0, d@.len() as int) =~= d@);
                        assert(digits_value(d@) * 1000int >= digits_value(d@));
                    }
                    return Err(malformed("SET", "the expiration must be a number"));
                },
            },
            _ => {
                return Err(malformed("SET", "the expiration must be a number"));
            },
        };
        let ex = text("EX");
        let px = text("PX");
        if bytes_eq(option.as_slice(), ex.as_slice()) {
            if amount > u64::MAX / 1000 {
                proof {
                    assert(amount * 1000int > u64::MAX) by (nonlinear_arith)
                        requires
                            amount > u64::MAX / 1000,
                    ;
                }
                return Err(malformed("SET", "the expiration is too large"));
            }
            cmd.ttl = Some(amount * 1000);
        } else if bytes_eq(option.as_slice(), px.as_slice()) {
            cmd.ttl = Some(amount);
        } else {
            return Err(malformed("SET", "the option must be EX or PX"));
        }
        Ok(cmd)
    }

    /// Stores the pair, with its expiration time counted from `now`, and
    /// replies OK; the second result says whether the eviction worker must be
    /// woken. A store that already holds `usize::MAX` keys refuses the set.
    pub fn apply(&self, state: &mut State, now: u64) -> (r: (Frame, bool))
        requires
            old(state).wf(),
        ensures
            final(state).wf(),
            final(state).spec_capacity() == old(state).spec_capacity(),
            final(state).spec_threshold() == old(state).spec_threshold(),
            if old(state)@.len() < usize::MAX {
                &&& final(state)@ == old(state)@.insert(self.key@, self.value@)
                &&& final(state).expiry_set() == expiries_after_set(
                    old(state).expiry_set(),
                    self.key@,
                    expiry_of(self.ttl, now),
                )
                &&& r.0@ == FrameModel::Simple("OK".spec_bytes())
                &&& r.1 == (final(state)@.len() >= final(state).eviction_mark())
            } else {
                &&& *final(state) == *old(state)
                &&& r.0@ == FrameModel::Error("store is full".spec_bytes())
                &&& !r.1
            },
    {
        if state.size() == usize::MAX {
            return (Frame::Error(text("store is full")), false);
        }
        let expires_at = match self.ttl {
            Some(t) => Some(now.saturating_add(t)),
            None => None,
        };
        let signal = state.set_kv(self.key.as_slice(), self.value.as_slice(), expires_at);
        (Frame::Simple(text("OK")), signal)
    }
}

} // verus!
