//! The receive-stream state machine: validates incoming STREAM frames,
//! enforces flow control and the final-size rules, drives the state
//! transitions and surfaces events to the application.

use crate::control::{
    msd_cleared, msd_enqueued, ConnectionEvents, ControlFrame, FlowController, StreamEvent,
};
use crate::orderer::{orderer_step, read_bytes_out, read_post, RangeOrderer};
use vstd::prelude::*;

verus! {

/// Why an operation on a receive stream failed.
#[derive(Clone, Copy, PartialEq, Eq, Structural, Debug)]
pub enum StreamError {
    /// A frame was inconsistent with a known or implied final size.
    /// The connection treats this as fatal.
    FinalSizeError,
    /// A frame extended past the credit advertised to the peer.
    /// The connection treats this as fatal.
    FlowControlError,
    /// `read` was called on a stream that will never yield more data.
    NoMoreData,
}

/// The five states of a receive stream.  The byte buffer (the range
/// orderer) lives inside the three data-bearing states and moves along
/// with the transitions; the terminal states carry nothing.
pub enum StreamState {
    /// The peer may still send.  `credit_offset` is the largest absolute
    /// offset the peer may send to; `max_buffered` is the window size
    /// used for credit calculations.
    Recv { orderer: RangeOrderer, max_buffered: u64, credit_offset: u64 },
    /// A FIN fixed the stream's length at `final_size`, but gaps remain.
    SizeKnown { orderer: RangeOrderer, final_size: u64 },
    /// Every byte up to the final size is buffered or already read.
    DataReceived { orderer: RangeOrderer },
    /// The application has consumed all data and the FIN.  Terminal.
    DataRead,
    /// The peer reset the stream, or the application stopped it.
    /// Terminal.
    ResetReceived,
}

/// The orderer carried by a data-bearing state.
pub open spec fn orderer_of(s: StreamState) -> RangeOrderer {
    match s {
        StreamState::Recv { orderer, .. } => orderer,
        StreamState::SizeKnown { orderer, .. } => orderer,
        StreamState::DataReceived { orderer } => orderer,
        _ => vstd::pervasive::arbitrary(),
    }
}

/// The window size while receiving.
pub open spec fn max_buffered_of(s: StreamState) -> u64 {
    match s {
        StreamState::Recv { max_buffered, .. } => max_buffered,
        _ => vstd::pervasive::arbitrary(),
    }
}

/// The advertised credit while receiving.
pub open spec fn credit_of(s: StreamState) -> u64 {
    match s {
        StreamState::Recv { credit_offset, .. } => credit_offset,
        _ => vstd::pervasive::arbitrary(),
    }
}

/// One past the last contiguous byte counted from the start of the
/// stream: `retired + bytes_ready`.
pub open spec fn contiguous_end_of(s: StreamState) -> int {
    orderer_of(s).next_uncovered(orderer_of(s).retired as int)
}

/// The credit-update policy asks for more credit once the application
/// has consumed more than half the window past the last advertisement.
pub open spec fn credit_due(retired: int, max_buffered: int, credit_offset: int) -> bool {
    retired + max_buffered > max_buffered / 2 + credit_offset
}

/// The credit to advertise: one full window past what was consumed,
/// saturating at the largest offset.
pub open spec fn credit_candidate(retired: int, max_buffered: int) -> int {
    vstd::math::min(retired + max_buffered, u64::MAX as int)
}

/// What `maybe_send_credit_update` does to the credit and to the
/// flow controller's queue while receiving.
pub open spec fn credit_step(
    retired: int,
    max_buffered: int,
    co_pre: int,
    co_post: int,
    fc_pre: FlowController,
    fc_post: FlowController,
    stream_id: u64,
) -> bool {
    if credit_due(retired, max_buffered, co_pre) {
        &&& co_post == credit_candidate(retired, max_buffered)
        &&& msd_enqueued(fc_pre, fc_post, stream_id, co_post as u64)
    } else {
        &&& co_post == co_pre
        &&& fc_post == fc_pre
    }
}

/// Credit sanity: under the update policy the advertised credit never
/// decreases.
pub proof fn lemma_credit_monotonic(
    retired: int,
    max_buffered: int,
    co_pre: int,
    co_post: int,
    fc_pre: FlowController,
    fc_post: FlowController,
    stream_id: u64,
)
    requires
        0 <= max_buffered <= co_pre <= u64::MAX,
        0 <= retired,
        credit_step(retired, max_buffered, co_pre, co_post, fc_pre, fc_post, stream_id),
    ensures
        co_post >= co_pre,
{
}

/// How the state evolves under a successfully accepted frame
/// `(fin, offset, bytes)`:
/// - while receiving, a FIN-less frame keeps the state and the credit and
///   merges the bytes; a FIN fixes the final size at the frame's end and
///   moves on to `DataReceived` when the buffer is contiguous up to it,
///   else to `SizeKnown`;
/// - with the size known, a frame that fills the last gap moves on to
///   `DataReceived`;
/// - everywhere else the frame is silently ignored.
pub open spec fn inbound_state_rel(
    pre: StreamState,
    post: StreamState,
    fin: bool,
    offset: int,
    bytes: Seq<u8>,
) -> bool {
    let end = offset + bytes.len();
    match pre {
        StreamState::Recv { orderer, max_buffered, credit_offset } => {
            if !fin {
                match post {
                    StreamState::Recv { orderer: o2, max_buffered: mb2, credit_offset: co2 } => {
                        &&& orderer_step(orderer, o2, offset, bytes)
                        &&& mb2 == max_buffered
                        &&& co2 == credit_offset
                    },
                    _ => false,
                }
            } else {
                match post {
                    StreamState::SizeKnown { orderer: o2, final_size } => {
                        &&& orderer_step(orderer, o2, offset, bytes)
                        &&& final_size == end
                        &&& o2.next_uncovered(o2.retired as int) != end
                    },
                    StreamState::DataReceived { orderer: o2 } => {
                        &&& orderer_step(orderer, o2, offset, bytes)
                        &&& o2.next_uncovered(o2.retired as int) == end
                    },
                    _ => false,
                }
            }
        },
        StreamState::SizeKnown { orderer, final_size } => {
            match post {
                StreamState::SizeKnown { orderer: o2, final_size: fs2 } => {
                    &&& orderer_step(orderer, o2, offset, bytes)
                    &&& fs2 == final_size
                    &&& o2.next_uncovered(o2.retired as int) != final_size
                },
                StreamState::DataReceived { orderer: o2 } => {
                    &&& orderer_step(orderer, o2, offset, bytes)
                    &&& o2.next_uncovered(o2.retired as int) == final_size
                },
                _ => false,
            }
        },
        _ => post == pre,
    }
}

/// How the state evolves under a successful `read` into a buffer: the
/// orderer hands out its contiguous bytes as `read_post` says; reading
/// the last byte in `DataReceived` ends the stream (the buffer is
/// dropped and the flag is set), everywhere else the state is kept.
pub open spec fn read_state_rel(
    pre: StreamState,
    post: StreamState,
    buf_pre: Seq<u8>,
    buf_post: Seq<u8>,
    n: int,
    fin_flag: bool,
) -> bool {
    match pre {
        StreamState::Recv { orderer, max_buffered, credit_offset } => {
            &&& !fin_flag
            &&& match post {
                StreamState::Recv { orderer: o2, max_buffered: mb2, credit_offset: co2 } => {
                    &&& read_post(orderer, o2, buf_pre, buf_post, n)
                    &&& mb2 == max_buffered
                },
                _ => false,
            }
        },
        StreamState::SizeKnown { orderer, final_size } => {
            &&& !fin_flag
            &&& match post {
                StreamState::SizeKnown { orderer: o2, final_size: fs2 } => {
                    &&& read_post(orderer, o2, buf_pre, buf_post, n)
                    &&& fs2 == final_size
                },
                _ => false,
            }
        },
        StreamState::DataReceived { orderer } => {
            &&& fin_flag == (n == orderer.bytes_ready_spec())
            &&& read_bytes_out(orderer, buf_pre, buf_post, n)
            &&& if fin_flag {
                post is DataRead
            } else {
                match post {
                    StreamState::DataReceived { orderer: o2 } => read_post(
                        orderer,
                        o2,
                        buf_pre,
                        buf_post,
                        n,
                    ),
                    _ => false,
                }
            }
        },
        _ => false,
    }
}

/// An accepted frame posts one readable event exactly when it makes the
/// next byte available (the stream was not readable and now is) or when
/// it completes the stream (entry into `DataReceived`, FIN observable
/// even with nothing left to read).
pub open spec fn posts_readable(pre: StreamState, post: StreamState) -> bool {
    let o1 = orderer_of(pre);
    let o2 = orderer_of(post);
    ||| (!o1.covered(o1.retired as int) && o2.covered(o2.retired as int))
    ||| (post is DataReceived && !(pre is DataReceived))
}

/// A receive stream: one state variant plus the stream identifier used
/// when talking to the collaborators.
pub struct ReceiveStream {
    pub stream_id: u64,
    pub state: StreamState,
}

impl ReceiveStream {
    /// Well-formedness of the state machine:
    /// - while receiving, the credit covers everything accepted and at
    ///   least one window;
    /// - once the final size is known, nothing beyond it is buffered and
    ///   some gap below it remains;
    /// - once all data is received, the buffer is contiguous to its end.
    pub open spec fn wf(self) -> bool {
        match self.state {
            StreamState::Recv { orderer, max_buffered, credit_offset } => {
                &&& orderer.wf()
                &&& max_buffered <= credit_offset
                &&& orderer.hso() <= credit_offset
            },
            StreamState::SizeKnown { orderer, final_size } => {
                &&& orderer.wf()
                &&& orderer.hso() <= final_size
                &&& contiguous_end_of(self.state) < final_size
            },
            StreamState::DataReceived { orderer } => {
                &&& orderer.wf()
                &&& contiguous_end_of(self.state) == orderer.hso()
            },
            _ => true,
        }
    }

    /// A fresh stream: nothing received, one window `window` of credit
    /// advertised.
    pub fn new(stream_id: u64, window: u64) -> (r: ReceiveStream)
        ensures
            r.wf(),
            r.stream_id == stream_id,
            r.state is Recv,
            orderer_of(r.state).chunks@.len() == 0,
            orderer_of(r.state).retired == 0,
            max_buffered_of(r.state) == window,
            credit_of(r.state) == window,
    {
        ReceiveStream {
            stream_id,
            state: StreamState::Recv {
                orderer: RangeOrderer::new(),
                max_buffered: window,
                credit_offset: window,
            },
        }
    }

    /// A frame `(fin, offset, len)` is inconsistent with the stream's
    /// known or implied final size:
    /// - while receiving, a FIN below data already seen;
    /// - with the size known (announced, or implied by complete data),
    ///   any byte beyond it, or a FIN at a different offset.
    /// Terminal states track no size and ignore frames instead.
    pub open spec fn final_size_violation(self, fin: bool, offset: int, len: int) -> bool {
        let end = offset + len;
        match self.state {
            StreamState::Recv { orderer, .. } => fin && end < orderer.hso(),
            StreamState::SizeKnown { final_size, .. } => end > final_size || (fin && end
                != final_size),
            StreamState::DataReceived { orderer } => end > orderer.hso() || (fin && end
                != orderer.hso()),
            _ => false,
        }
    }

    /// A frame extends past the advertised credit.  Only the receiving
    /// state enforces credit, and the final-size check comes first.
    pub open spec fn flow_control_violation(self, fin: bool, offset: int, len: int) -> bool {
        match self.state {
            StreamState::Recv { credit_offset, .. } => !self.final_size_violation(
                fin,
                offset,
                len,
            ) && offset + len > credit_offset,
            _ => false,
        }
    }

    /// Accept one STREAM frame `(fin, offset, bytes)`.
    ///
    /// The final-size rules are checked first, then flow control; a
    /// violation leaves everything unchanged and is fatal to the caller.
    /// An accepted frame is merged into the buffer and drives the
    /// transitions that `inbound_state_rel` describes; leaving the
    /// receiving state drops any pending credit update, and one readable
    /// event is posted exactly when `posts_readable` says so.  Terminal
    /// states and `DataReceived` ignore frames that pass the checks.
    pub fn inbound_frame(
        &mut self,
        fin: bool,
        offset: u64,
        bytes: Vec<u8>,
        fc: &mut FlowController,
        events: &mut ConnectionEvents,
    ) -> (r: Result<(), StreamError>)
        requires
            old(self).wf(),
            old(fc).wf(),
        ensures
            final(self).wf(),
            final(fc).wf(),
            final(self).stream_id == old(self).stream_id,
            r == Err::<(), StreamError>(StreamError::FinalSizeError) <==> old(self).final_size_violation(fin, offset as int, bytes@.len() as int),
            r == Err::<(), StreamError>(StreamError::FlowControlError) <==> old(self).flow_control_violation(fin, offset as int, bytes@.len() as int),
            r is Err <==> (old(self).final_size_violation(fin, offset as int, bytes@.len() as int)
                || old(self).flow_control_violation(fin, offset as int, bytes@.len() as int)),
            r is Err ==> *final(self) == *old(self) && *final(fc) == *old(fc) && *final(events)
                == *old(events),
            r is Ok ==> inbound_state_rel(
                old(self).state,
                final(self).state,
                fin,
                offset as int,
                bytes@,
            ),
            r is Ok ==> (if old(self).state is Recv && !(final(self).state is Recv) {
                msd_cleared(*old(fc), *final(fc), old(self).stream_id)
            } else {
                *final(fc) == *old(fc)
            }),
            r is Ok ==> final(events).events@ == (if (old(self).state is Recv || old(self).state is SizeKnown) && posts_readable(old(self).state, final(self).state) {
                old(events).events@.push(StreamEvent::Readable { stream_id: old(self).stream_id })
            } else {
                old(events).events@
            }),
    {
        let len64 = bytes.len() as u64;
        let overflow = offset > u64::MAX - len64;
        let mut st = StreamState::DataRead;
        core::mem::swap(&mut self.state, &mut st);
        match st {
            StreamState::Recv { mut orderer, max_buffered, credit_offset } => {
                let ghost o1 = orderer;
                let hso = orderer.highest_seen_offset();
                if fin && !overflow && offset + len64 < hso {
                    self.state = StreamState::Recv { orderer, max_buffered, credit_offset };
                    return Err(StreamError::FinalSizeError);
                }
                if overflow || offset + len64 > credit_offset {
                    proof {
                        assert(!old(self).final_size_violation(
                            fin,
                            offset as int,
                            bytes@.len() as int,
                        ));
                    }
                    self.state = StreamState::Recv { orderer, max_buffered, credit_offset };
                    return Err(StreamError::FlowControlError);
                }
                let end = offset + len64;
                let was_ready = orderer.data_ready();
                orderer.inbound(offset, bytes);
                let now_ready = orderer.data_ready();
                proof {
                    orderer.lemma_contiguous_le_hso();
                    assert(orderer.retired == o1.retired);
                }
                if fin {
                    let cont = orderer.contiguous_end();
                    let ghost o2 = orderer;
                    if cont == end {
                        self.state = StreamState::DataReceived { orderer };
                        fc.clear_max_stream_data(self.stream_id);
                        events.recv_stream_readable(self.stream_id);
                        proof {
                            assert(o2.hso() == end);
                            assert(self.wf());
                        }
                    } else {
                        self.state = StreamState::SizeKnown { orderer, final_size: end };
                        fc.clear_max_stream_data(self.stream_id);
                        if !was_ready && now_ready {
                            events.recv_stream_readable(self.stream_id);
                        }
                        proof {
                            assert(o2.hso() <= end);
                            assert(self.wf());
                        }
                    }
                } else {
                    self.state = StreamState::Recv { orderer, max_buffered, credit_offset };
                    if !was_ready && now_ready {
                        events.recv_stream_readable(self.stream_id);
                    }
                }
                Ok(())
            },
            StreamState::SizeKnown { mut orderer, final_size } => {
                let ghost o1 = orderer;
                if overflow || offset + len64 > final_size || (fin && offset + len64
                    != final_size) {
                    self.state = StreamState::SizeKnown { orderer, final_size };
                    return Err(StreamError::FinalSizeError);
                }
                let was_ready = orderer.data_ready();
                orderer.inbound(offset, bytes);
                let now_ready = orderer.data_ready();
                let cont = orderer.contiguous_end();
                proof {
                    orderer.lemma_contiguous_le_hso();
                    assert(orderer.retired == o1.retired);
                    assert(orderer.hso() <= final_size);
                }
                let ghost o2 = orderer;
                if cont == final_size {
                    self.state = StreamState::DataReceived { orderer };
                    events.recv_stream_readable(self.stream_id);
                    proof {
                        assert(o2.hso() == final_size);
                        assert(self.wf());
                    }
                } else {
                    self.state = StreamState::SizeKnown { orderer, final_size };
                    if !was_ready && now_ready {
                        events.recv_stream_readable(self.stream_id);
                    }
                }
                Ok(())
            },
            StreamState::DataReceived { orderer } => {
                let hso = orderer.highest_seen_offset();
                let viol = overflow || offset + len64 > hso || (fin && offset + len64 != hso);
                self.state = StreamState::DataReceived { orderer };
                if viol {
                    Err(StreamError::FinalSizeError)
                } else {
                    Ok(())
                }
            },
            StreamState::DataRead => {
                self.state = StreamState::DataRead;
                Ok(())
            },
            StreamState::ResetReceived => {
                self.state = StreamState::ResetReceived;
                Ok(())
            },
        }
    }

    /// Copy contiguous bytes into `buf`.
    ///
    /// Delegates to the orderer, returning how many bytes were copied
    /// and whether the stream's end was reached with them.  Reading the
    /// last byte in `DataReceived` transitions to `DataRead` and posts a
    /// completion event.  After any successful read the credit policy
    /// runs (`maybe_send_credit_update`).  In a terminal state nothing
    /// more will ever be readable and the call fails.
    pub fn read(
        &mut self,
        buf: &mut Vec<u8>,
        fc: &mut FlowController,
        events: &mut ConnectionEvents,
    ) -> (r: Result<(usize, bool), StreamError>)
        requires
            old(self).wf(),
            old(fc).wf(),
        ensures
            final(self).wf(),
            final(fc).wf(),
            final(self).stream_id == old(self).stream_id,
            r == Err::<(usize, bool), StreamError>(StreamError::NoMoreData) <==> (old(self).state is DataRead || old(self).state is ResetReceived),
            r is Err <==> (old(self).state is DataRead || old(self).state is ResetReceived),
            r is Err ==> *final(self) == *old(self) && *final(fc) == *old(fc) && *final(events)
                == *old(events) && *final(buf) == *old(buf),
            forall|n: usize, fin_flag: bool|
                r == Ok::<(usize, bool), StreamError>((n, fin_flag)) ==> #[trigger] read_state_rel(
                    old(self).state,
                    final(self).state,
                    old(buf)@,
                    final(buf)@,
                    n as int,
                    fin_flag,
                ),
            r is Ok && old(self).state is Recv ==> credit_step(
                orderer_of(final(self).state).retired as int,
                max_buffered_of(old(self).state) as int,
                credit_of(old(self).state) as int,
                credit_of(final(self).state) as int,
                *old(fc),
                *final(fc),
                old(self).stream_id,
            ),
            r is Ok && !(old(self).state is Recv) ==> *final(fc) == *old(fc),
            r is Ok ==> final(events).events@ == (if final(self).state is DataRead {
                old(events).events@.push(StreamEvent::Complete { stream_id: old(self).stream_id })
            } else {
                old(events).events@
            }),
    {
        let mut st = StreamState::DataRead;
        core::mem::swap(&mut self.state, &mut st);
        match st {
            StreamState::Recv { mut orderer, max_buffered, credit_offset } => {
                let n = orderer.read(buf);
                self.state = StreamState::Recv { orderer, max_buffered, credit_offset };
                self.maybe_send_credit_update(fc);
                Ok((n, false))
            },
            StreamState::SizeKnown { mut orderer, final_size } => {
                let ghost o1 = orderer;
                let n = orderer.read(buf);
                proof {
                    assert(orderer.next_uncovered(orderer.retired as int) == o1.next_uncovered(
                        o1.retired as int,
                    ));
                }
                self.state = StreamState::SizeKnown { orderer, final_size };
                Ok((n, false))
            },
            StreamState::DataReceived { mut orderer } => {
                let ghost o1 = orderer;
                let n = orderer.read(buf);
                proof {
                    orderer.lemma_empty_iff_drained();
                }
                if orderer.is_empty() {
                    self.state = StreamState::DataRead;
                    events.recv_stream_complete(self.stream_id);
                    Ok((n, true))
                } else {
                    proof {
                        assert(orderer.next_uncovered(orderer.retired as int) == o1.next_uncovered(
                            o1.retired as int,
                        ));
                    }
                    self.state = StreamState::DataReceived { orderer };
                    Ok((n, false))
                }
            },
            StreamState::DataRead => {
                self.state = StreamState::DataRead;
                Err(StreamError::NoMoreData)
            },
            StreamState::ResetReceived => {
                self.state = StreamState::ResetReceived;
                Err(StreamError::NoMoreData)
            },
        }
    }

    /// The peer reset the stream.  Valid while data could still arrive
    /// (`Recv`, `SizeKnown`): the application is notified, any pending
    /// credit update is dropped, and the stream becomes terminal.
    /// Ignored elsewhere.
    pub fn reset(&mut self, error_code: u64, fc: &mut FlowController, events: &mut ConnectionEvents)
        requires
            old(self).wf(),
            old(fc).wf(),
        ensures
            final(self).wf(),
            final(fc).wf(),
            final(self).stream_id == old(self).stream_id,
            (old(self).state is Recv || old(self).state is SizeKnown) ==> final(self).state is ResetReceived && final(events).events@ == old(events).events@.push(
                StreamEvent::Reset { stream_id: old(self).stream_id, error_code },
            ) && msd_cleared(*old(fc), *final(fc), old(self).stream_id),
            !(old(self).state is Recv || old(self).state is SizeKnown) ==> *final(self) == *old(self) && *final(fc) == *old(fc) && *final(events) == *old(events),
    {
        let mut st = StreamState::DataRead;
        core::mem::swap(&mut self.state, &mut st);
        match st {
            StreamState::Recv { .. } => {
                events.recv_stream_reset(self.stream_id, error_code);
                fc.clear_max_stream_data(self.stream_id);
                self.state = StreamState::ResetReceived;
            },
            StreamState::SizeKnown { .. } => {
                events.recv_stream_reset(self.stream_id, error_code);
                fc.clear_max_stream_data(self.stream_id);
                self.state = StreamState::ResetReceived;
            },
            s => {
                self.state = s;
            },
        }
    }

    /// The application no longer wants the stream.
    ///
    /// While data could still arrive, the stream becomes terminal and
    /// the peer is asked to stop (any pending credit update leaves
    /// first).  With all data already received, the remaining bytes are
    /// discarded and the stream counts as read.  Terminal states are
    /// unchanged.
    pub fn stop_sending(&mut self, error_code: u64, fc: &mut FlowController)
        requires
            old(self).wf(),
            old(fc).wf(),
        ensures
            final(self).wf(),
            final(fc).wf(),
            final(self).stream_id == old(self).stream_id,
            old(self).state is Recv ==> final(self).state is ResetReceived && final(fc).queue@
                == (if old(fc).has_msd(old(self).stream_id) {
                old(fc).queue@.remove(old(fc).msd_pos(old(self).stream_id))
            } else {
                old(fc).queue@
            }).push(ControlFrame::StopSending { stream_id: old(self).stream_id, error_code }),
            old(self).state is SizeKnown ==> final(self).state is ResetReceived && final(fc).queue@ == old(fc).queue@.push(
                ControlFrame::StopSending { stream_id: old(self).stream_id, error_code },
            ),
            old(self).state is DataReceived ==> final(self).state is DataRead && *final(fc)
                == *old(fc),
            (old(self).state is DataRead || old(self).state is ResetReceived) ==> *final(self)
                == *old(self) && *final(fc) == *old(fc),
    {
        let mut st = StreamState::DataRead;
        core::mem::swap(&mut self.state, &mut st);
        match st {
            StreamState::Recv { .. } => {
                fc.clear_max_stream_data(self.stream_id);
                fc.stop_sending(self.stream_id, error_code);
                self.state = StreamState::ResetReceived;
            },
            StreamState::SizeKnown { .. } => {
                fc.stop_sending(self.stream_id, error_code);
                self.state = StreamState::ResetReceived;
            },
            StreamState::DataReceived { .. } => {
                self.state = StreamState::DataRead;
            },
            s => {
                self.state = s;
            },
        }
    }

    /// How many bytes the application has consumed (zero once terminal).
    pub fn retired(&self) -> (r: u64)
        requires
            self.wf(),
        ensures
            (self.state is Recv || self.state is SizeKnown || self.state is DataReceived) ==> r
                == orderer_of(self.state).retired,
            (self.state is DataRead || self.state is ResetReceived) ==> r == 0,
    {
        match &self.state {
            StreamState::Recv { orderer, .. } => orderer.retired,
            StreamState::SizeKnown { orderer, .. } => orderer.retired,
            StreamState::DataReceived { orderer } => orderer.retired,
            _ => 0,
        }
    }

    /// How many contiguous bytes a `read` would deliver right now.
    pub fn bytes_ready(&self) -> (r: u64)
        requires
            self.wf(),
        ensures
            (self.state is Recv || self.state is SizeKnown || self.state is DataReceived) ==> r
                == orderer_of(self.state).bytes_ready_spec(),
            (self.state is DataRead || self.state is ResetReceived) ==> r == 0,
    {
        match &self.state {
            StreamState::Recv { orderer, .. } => orderer.bytes_ready(),
            StreamState::SizeKnown { orderer, .. } => orderer.bytes_ready(),
            StreamState::DataReceived { orderer } => orderer.bytes_ready(),
            _ => 0,
        }
    }

    /// How many bytes are buffered beyond `retired`, gaps not counted.
    pub fn buffered(&self) -> (r: u64)
        requires
            self.wf(),
        ensures
            (self.state is Recv || self.state is SizeKnown || self.state is DataReceived) ==> r
                == orderer_of(self.state).buffered_spec(),
            (self.state is DataRead || self.state is ResetReceived) ==> r == 0,
    {
        match &self.state {
            StreamState::Recv { orderer, .. } => orderer.buffered(),
            StreamState::SizeKnown { orderer, .. } => orderer.buffered(),
            StreamState::DataReceived { orderer } => orderer.buffered(),
            _ => 0,
        }
    }

    /// The stream has reached a terminal state and can be swept.
    pub fn is_terminal(&self) -> (r: bool)
        ensures
            r == (self.state is DataRead || self.state is ResetReceived),
    {
        match &self.state {
            StreamState::DataRead => true,
            StreamState::ResetReceived => true,
            _ => false,
        }
    }

    /// Advertise more credit if the application has consumed more than
    /// half the window since the last advertisement; otherwise do
    /// nothing.  Only the receiving state grants credit.
    pub fn maybe_send_credit_update(&mut self, fc: &mut FlowController)
        requires
            old(self).wf(),
            old(fc).wf(),
        ensures
            final(self).wf(),
            final(fc).wf(),
            final(self).stream_id == old(self).stream_id,
            old(self).state is Recv ==> final(self).state is Recv && orderer_of(
                final(self).state,
            ) == orderer_of(old(self).state) && max_buffered_of(final(self).state)
                == max_buffered_of(old(self).state) && credit_step(
                orderer_of(old(self).state).retired as int,
                max_buffered_of(old(self).state) as int,
                credit_of(old(self).state) as int,
                credit_of(final(self).state) as int,
                *old(fc),
                *final(fc),
                old(self).stream_id,
            ),
            !(old(self).state is Recv) ==> *final(self) == *old(self) && *final(fc) == *old(fc),
            // Credit never decreases.
            old(self).state is Recv ==> credit_of(final(self).state) >= credit_of(
                old(self).state,
            ),
    {
        let mut st = StreamState::DataRead;
        core::mem::swap(&mut self.state, &mut st);
        match st {
            StreamState::Recv { orderer, max_buffered, credit_offset } => {
                let half_up = max_buffered - max_buffered / 2;
                let threshold = credit_offset - half_up;
                if orderer.retired > threshold {
                    let candidate = if orderer.retired > u64::MAX - max_buffered {
                        u64::MAX
                    } else {
                        orderer.retired + max_buffered
                    };
                    fc.max_stream_data(self.stream_id, candidate);
                    self.state = StreamState::Recv {
                        orderer,
                        max_buffered,
                        credit_offset: candidate,
                    };
                } else {
                    self.state = StreamState::Recv { orderer, max_buffered, credit_offset };
                }
            },
            s => {
                self.state = s;
            },
        }
    }

    /// Re-advertise the current credit, for when the flow controller
    /// reports the previous `MaxStreamData` frame lost.  Outside the
    /// receiving state there is no credit to repeat.
    pub fn resend_credit_update(&self, fc: &mut FlowController)
        requires
            self.wf(),
            old(fc).wf(),
        ensures
            final(fc).wf(),
            self.state is Recv ==> msd_enqueued(
                *old(fc),
                *final(fc),
                self.stream_id,
                credit_of(self.state),
            ),
            !(self.state is Recv) ==> *final(fc) == *old(fc),
    {
        match &self.state {
            StreamState::Recv { credit_offset, .. } => {
                fc.max_stream_data(self.stream_id, *credit_offset);
            },
            _ => {},
        }
    }
}

} // verus!
