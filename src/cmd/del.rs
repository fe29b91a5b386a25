use crate::cmd::{copy_bytes, malformed};
use crate::db::cache::State;
use crate::db::cmap::key_set;
use crate::error::CommandError;
use crate::frame::{lemma_models, models, Frame, FrameModel};
use vstd::prelude::*;
use vstd::string::StringSliceAdditionalSpecFns;

verus! {

/// `DEL key [key ...]`.
pub struct Del {
    pub keys: Vec<Vec<u8>>,
}

/// A DEL of no keys.
pub fn new() -> (r: Del)
    ensures
        r.keys@.len() == 0,
{
    Del { keys: Vec::new() }
}

/// A well-shaped DEL request: one argument or more, all bulk strings.
pub open spec fn is_del_request(items: Seq<FrameModel>) -> bool {
    items.len() >= 2 && forall|i: int| 1 <= i < items.len() ==> (#[trigger] items[i]) is Bulk
}

/// The keys that a DEL request names.
pub open spec fn del_keys(items: Seq<FrameModel>) -> Set<Seq<u8>> {
    Set::new(|k: Seq<u8>| exists|i: int| 1 <= i < items.len() && #[trigger] items[i] == FrameModel::Bulk(k))
}

/// The reply to a DEL that found `n` of its keys: that count, capped at the
/// largest integer a frame holds.
pub open spec fn count_reply(n: int) -> FrameModel {
    FrameModel::Integer(
        if n <= i64::MAX {
            n
        } else {
            i64::MAX as int
        },
    )
}

impl Del {
    /// Reads the command from its frames, name included: one bulk key or
    /// more.
    pub fn from(frames: &Vec<Frame>) -> (r: Result<Del, CommandError>)
        ensures
            if is_del_request(models(frames@)) {
                r matches Ok(d) && key_set(d.keys@) == del_keys(models(frames@)) && d.keys@.len()
                    == frames@.len() - 1 && forall|i: int|
                    0 <= i < d.keys@.len() ==> models(frames@)[i + 1] == FrameModel::Bulk(
                        (#[trigger] d.keys@[i])@,
                    )
            } else {
                r matches Err(e) && (e matches CommandError::Malformed(n, _) && n@
                    == "DEL".spec_bytes())
            },
    {
        proof {
            lemma_models(frames@);
        }
        if frames.len() < 2 {
            return Err(malformed("DEL", "requires at least one key"));
        }
        let mut cmd = new();
        let mut i: usize = 1;
        while i < frames.len()
            invariant
                1 <= i <= frames@.len(),
                models(frames@).len() == frames@.len(),
                forall|j: int| 0 <= j < frames@.len() ==> #[trigger] models(frames@)[j] == frames@[j]@,
                cmd.keys@.len() == i - 1,
                forall|j: int|
                    0 <= j < cmd.keys@.len() ==> frames@[j + 1]@ == FrameModel::Bulk(
                        (#[trigger] cmd.keys@[j])@,
                    ),
            decreases frames@.len() - i,
        {
            match &frames[i] {
                Frame::Bulk(value) => {
                    cmd.keys.push(copy_bytes(value));
                },
                _ => {
                    proof {
                        assert(!(models(frames@)[i as int] is Bulk));
                    }
                    return Err(malformed("DEL", "keys must be bulk strings"));
                },
            }
            i = i + 1;
        }
        proof {
            let items = models(frames@);
            assert forall|k: Seq<u8>| #[trigger] key_set(cmd.keys@).contains(k) <==> del_keys(items).contains(k) by {
                if key_set(cmd.keys@).contains(k) {
                    let j = choose|j: int| 0 <= j < cmd.keys@.len() && cmd.keys@[j]@ == k;
                    assert(items[j + 1] == FrameModel::Bulk(k));
                }
                if del_keys(items).contains(k) {
                    let j = choose|j: int| 1 <= j < items.len() && #[trigger] items[j] == FrameModel::Bulk(k);
                    assert(cmd.keys@[j - 1]@ == k);
                }
            }
            assert(key_set(cmd.keys@) =~= del_keys(items));
            assert forall|j: int| 1 <= j < items.len() implies (#[trigger] items[j]) is Bulk by {
                assert(items[j] == FrameModel::Bulk(cmd.keys@[j - 1]@));
            }
        }
        Ok(cmd)
    }

    /// Deletes the keys and replies with how many of them were present.
    pub fn apply(&self, state: &mut State) -> (r: Frame)
        requires
            old(state).wf(),
        ensures
            final(state).wf(),
            final(state)@ == old(state)@.remove_keys(key_set(self.keys@)),
            final(state).expiries() == old(state).expiries(),
            final(state).spec_capacity() == old(state).spec_capacity(),
            final(state).spec_threshold() == old(state).spec_threshold(),
            r@ == count_reply(old(state)@.dom().intersect(key_set(self.keys@)).len() as int),
    {
        let deleted = state.delete_entries(&self.keys);
        if deleted as u64 > i64::MAX as u64 {
            Frame::Integer(i64::MAX)
        } else {
            Frame::Integer(deleted as i64)
        }
    }
}

} // verus!
