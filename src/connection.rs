//! What a connection decides: the bytes read so far, the requests they
//! complete, and the replies those requests get. Reading from and writing to
//! the socket is left to the caller, which hands the bytes in and sends the
//! replies out.
use crate::cmd::{handle_frame, serves};
use crate::codec::{agrees, decode, decodes, lemma_encoding_nonempty, lemma_encoding_seq_extend, rest};
use crate::db::cache::State;
use crate::error::{FrameError, HandleCommandError};
use crate::frame::{encoding, encoding_seq, model_wf, Frame, FrameModel};
use vstd::prelude::*;

verus! {

/// Where the `i`-th of a run of requests starts: where the one before it
/// ended, or at 0.
pub open spec fn start_of(ends: Seq<int>, i: int) -> int {
    if i == 0 {
        0
    } else {
        ends[i - 1]
    }
}

/// The bytes of `buf` from `start` decode to a frame of value `req` that ends
/// at `end`.
pub open spec fn decodes_at(buf: Seq<u8>, start: int, req: FrameModel, end: int) -> bool {
    exists|f: Frame|
        f@ == req && #[trigger] decodes(
            buf.subrange(start, buf.len() as int),
            0,
            Ok::<(Frame, usize), FrameError>((f, (end - start) as usize)),
        )
}

/// A run of requests read one after another from the front of `buf`, each
/// served in turn: `states` are the cache before, between and after them,
/// `replies` and `wakes` what serving each gave back.
pub open spec fn session_run(
    buf: Seq<u8>,
    reqs: Seq<FrameModel>,
    ends: Seq<int>,
    replies: Seq<FrameModel>,
    states: Seq<State>,
    wakes: Seq<bool>,
    before: State,
    after: State,
    now: u64,
) -> bool {
    &&& ends.len() == reqs.len()
    &&& replies.len() == reqs.len()
    &&& wakes.len() == reqs.len()
    &&& states.len() == reqs.len() + 1
    &&& states[0] == before
    &&& states[reqs.len() as int] == after
    &&& forall|i: int|
        0 <= i < reqs.len() ==> #[trigger] run_step(buf, reqs, ends, replies, states, wakes, now, i)
}

/// The `i`-th request of a run: read from the bytes where the one before it
/// ended, and served.
pub open spec fn run_step(
    buf: Seq<u8>,
    reqs: Seq<FrameModel>,
    ends: Seq<int>,
    replies: Seq<FrameModel>,
    states: Seq<State>,
    wakes: Seq<bool>,
    now: u64,
    i: int,
) -> bool {
    &&& start_of(ends, i) < ends[i] <= buf.len()
    &&& decodes_at(buf, start_of(ends, i), reqs[i], ends[i])
    &&& serves(reqs[i], states[i], states[i + 1], replies[i], wakes[i], now)
}

/// The read buffer of one client connection.
pub struct Session {
    buffer: Vec<u8>,
}

impl Session {
    /// The bytes received and not yet consumed by a request.
    pub closed spec fn pending(&self) -> Seq<u8> {
        self.buffer@
    }

    pub fn new() -> (r: Session)
        ensures
            r.pending().len() == 0,
    {
        Session { buffer: Vec::with_capacity(4096) }
    }

    /// Appends bytes read from the socket.
    pub fn receive(&mut self, data: &[u8])
        ensures
            final(self).pending() == old(self).pending() + data@,
    {
        crate::bytes::push_all(&mut self.buffer, data);
    }

    /// Whether bytes of an unfinished request are waiting.
    pub fn has_pending(&self) -> (r: bool)
        ensures
            r == (self.pending().len() > 0),
    {
        self.buffer.len() > 0
    }

    /// The error that ends the connection when the socket reports end of
    /// input: a clean close between requests, a reset in the middle of one.
    pub fn end_of_input(&self) -> (r: FrameError)
        ensures
            r == if self.pending().len() == 0 {
                FrameError::EOF
            } else {
                FrameError::ConnectionReset
            },
    {
        if self.buffer.len() == 0 {
            FrameError::EOF
        } else {
            FrameError::ConnectionReset
        }
    }

    /// Takes the next complete request off the front of the buffer. `None`
    /// when the buffer holds only part of one: the buffer is left as it is
    /// until more bytes arrive. On malformed bytes the buffer is dropped.
    pub fn next_frame(&mut self) -> (r: Result<Option<Frame>, FrameError>)
        ensures
            match r {
                Ok(Some(f)) => exists|end: usize|
                    decodes(old(self).pending(), 0, Ok((f, end)))
                        && final(self).pending() == old(self).pending().subrange(
                        end as int,
                        old(self).pending().len() as int,
                    ),
                Ok(None) => decodes(old(self).pending(), 0, Err(FrameError::Incomplete))
                    && final(self).pending() == old(self).pending(),
                Err(e) => e != FrameError::Incomplete && decodes(old(self).pending(), 0, Err(e))
                    && final(self).pending().len() == 0,
            },
    {
        let result = decode(self.buffer.as_slice(), 0);
        let ghost decoded = result;
        match result {
            Ok((frame, end)) => {
                let rest = self.buffer.split_off(end);
                self.buffer = rest;
                proof {
                    assert(decoded == Ok::<(Frame, usize), FrameError>((frame, end)));
                    assert(decodes(old(self).pending(), 0, Ok((frame, end))));
                }
                Ok(Some(frame))
            },
            Err(FrameError::Incomplete) => Ok(None),
            Err(e) => {
                self.buffer.clear();
                Err(e)
            },
        }
    }

    /// Serves, in order, every complete request in the buffer, and returns
    /// the bytes of their replies with whether the eviction worker must be
    /// woken. Malformed bytes get an error reply and are dropped. What stays
    /// in the buffer is at most part of a request.
    pub fn process(&mut self, state: &mut State, now: u64) -> (r: (Vec<u8>, bool))
        requires
            old(state).wf(),
        ensures
            final(state).wf(),
            final(state).spec_capacity() == old(state).spec_capacity(),
            final(state).spec_threshold() == old(state).spec_threshold(),
            decodes(final(self).pending(), 0, Err(FrameError::Incomplete)),
            exists|k: int|
                0 <= k <= old(self).pending().len() && final(self).pending() == old(
                    self,
                ).pending().subrange(k, old(self).pending().len() as int),
            (exists|m: FrameModel|
                model_wf(m) && #[trigger] agrees(rest(old(self).pending(), 0), encoding(m))
                    && encoding(m).len() <= old(self).pending().len()) ==> r.0@.len() > 0,
            exists|
                reqs: Seq<FrameModel>,
                ends: Seq<int>,
                replies: Seq<FrameModel>,
                states: Seq<State>,
                wakes: Seq<bool>,
            |
                #![trigger session_run(old(self).pending(), reqs, ends, replies, states, wakes, *old(state), *final(state), now)]
                session_run(
                    old(self).pending(),
                    reqs,
                    ends,
                    replies,
                    states,
                    wakes,
                    *old(state),
                    *final(state),
                    now,
                ) && r.1 == wakes.contains(true) && ((final(self).pending()
                    == old(self).pending().subrange(
                    start_of(ends, reqs.len() as int),
                    old(self).pending().len() as int,
                ) && r.0@ == encoding_seq(replies)) || (final(self).pending().len() == 0
                    && exists|e: FrameError|
                    e != FrameError::Incomplete && #[trigger] decodes(
                        old(self).pending().subrange(
                            start_of(ends, reqs.len() as int),
                            old(self).pending().len() as int,
                        ),
                        0,
                        Err(e),
                    ) && r.0@ == encoding_seq(replies) + encoding(
                        FrameModel::Error(e.spec_message()),
                    ))),
    {
        let mut out: Vec<u8> = Vec::new();
        let mut signal = false;
        let ghost start = self.pending();
        let ghost mut reqs: Seq<FrameModel> = seq![];
        let ghost mut ends: Seq<int> = seq![];
        let ghost mut replies: Seq<FrameModel> = seq![];
        let ghost mut states: Seq<State> = seq![*state];
        let ghost mut wakes: Seq<bool> = seq![];
        proof {
            assert(start.subrange(0, start.len() as int) =~= start);
            assert(encoding_seq(replies) =~= Seq::<u8>::empty());
        }
        loop
            invariant
                state.wf(),
                state.spec_capacity() == old(state).spec_capacity(),
                state.spec_threshold() == old(state).spec_threshold(),
                start == old(self).pending(),
                session_run(start, reqs, ends, replies, states, wakes, *old(state), *state, now),
                signal == wakes.contains(true),
                out@ == encoding_seq(replies),
                0 <= start_of(ends, reqs.len() as int) <= start.len(),
                self.pending() == start.subrange(start_of(ends, reqs.len() as int), start.len() as int),
                exists|k: int|
                    0 <= k <= start.len() && self.pending() == start.subrange(k, start.len() as int),
                (out@.len() == 0 && self.pending() == start) || out@.len() > 0,
            decreases self.pending().len(),
        {
            let ghost before = self.pending();
            match self.next_frame() {
                Ok(Some(frame)) => {
                    let ghost req = frame@;
                    let ghost state_before = *state;
                    let ghost k = start_of(ends, reqs.len() as int);
                    let ghost end = choose|end: usize|
                        decodes(before, 0, Ok((frame, end))) && self.pending() == before.subrange(
                            end as int,
                            before.len() as int,
                        );
                    proof {
                        assert(self.pending() =~= start.subrange(k + end, start.len() as int));
                        assert(decodes(before, 0, Ok((frame, end))));
                        assert(end > 0);
                        assert(start.subrange(k, start.len() as int) == before);
                        assert(((k + end) - k) as usize == end);
                        assert(decodes_at(start, k, req, k + end));
                    }
                    let (reply, wake) = handle_frame(frame, state, now);
                    let ghost old_replies = replies;
                    reply.encode_into(&mut out);
                    proof {
                        lemma_encoding_nonempty(reply@);
                        let n = reqs.len() as int;
                        let old_reqs = reqs;
                        let old_ends = ends;
                        let old_states = states;
                        let old_wakes = wakes;
                        reqs = reqs.push(req);
                        ends = ends.push(k + end);
                        replies = replies.push(reply@);
                        states = states.push(*state);
                        wakes = wakes.push(wake);
                        lemma_encoding_seq_extend(replies, n);
                        assert(replies.subrange(0, n) =~= old_replies);
                        assert(replies.subrange(0, n + 1) =~= replies);
                        assert forall|i: int|
                            0 <= i < reqs.len() implies #[trigger] run_step(
                                start,
                                reqs,
                                ends,
                                replies,
                                states,
                                wakes,
                                now,
                                i,
                            ) by {
                            if i < n {
                                assert(run_step(start, old_reqs, old_ends, old_replies, old_states, old_wakes, now, i));
                                assert(reqs[i] == old_reqs[i]);
                                assert(start_of(ends, i) == start_of(old_ends, i));
                                assert(states[i + 1] == old_states[i + 1]);
                            } else {
                                assert(start_of(ends, i) == k);
                                assert(states[i] == state_before);
                            }
                        }
                        assert(states[0] == old_states[0]);
                        assert(states[reqs.len() as int] == *state);
                        assert(wakes.contains(true) == (old_wakes.contains(true) || wake)) by {
                            if wake {
                                assert(wakes[n] == true);
                            }
                            if old_wakes.contains(true) {
                                let j = choose|j: int| 0 <= j < old_wakes.len() && old_wakes[j] == true;
                                assert(wakes[j] == true);
                            }
                            if wakes.contains(true) {
                                let j = choose|j: int| 0 <= j < wakes.len() && wakes[j] == true;
                                if j < n {
                                    assert(old_wakes[j] == true);
                                }
                            }
                        }
                    }
                    signal = signal || wake;
                },
                Ok(None) => {
                    proof {
                        if out@.len() == 0 {
                            assert forall|m: FrameModel|
                                model_wf(m) && #[trigger] agrees(rest(start, 0), encoding(m)) implies encoding(m).len()
                                    > start.len() by {
                                assert(rest(before, 0) =~= rest(start, 0));
                            }
                        }
                    }
                    return (out, signal);
                },
                Err(e) => {
                    let reply = Frame::Error(HandleCommandError::Frame(e).message());
                    reply.encode_into(&mut out);
                    proof {
                        assert(out@ == encoding_seq(replies) + encoding(FrameModel::Error(e.spec_message())));
                        assert(decodes(before, 0, Err(e)));
                        lemma_encoding_nonempty(reply@);
                        assert(self.pending() =~= start.subrange(
                            start.len() as int,
                            start.len() as int,
                        ));
                        assert(decodes(self.pending(), 0, Err(FrameError::Incomplete))) by {
                            assert forall|m: FrameModel|
                                model_wf(m) && #[trigger] agrees(rest(self.pending(), 0), encoding(m))
                                    implies 0 + encoding(m).len() > self.pending().len() by {
                                lemma_encoding_nonempty(m);
                            }
                        }
                    }
                    return (out, signal);
                },
            }
        }
    }
}

} // verus!
