//! The connection-side collaborators of a receive stream: the outbound
//! control-frame queue and the application event queue.

use vstd::prelude::*;

verus! {

/// An outbound control frame queued for the peer.
#[derive(Clone, Copy, PartialEq, Eq, Structural, Debug)]
pub enum ControlFrame {
    /// Grant the peer credit to send up to `offset` on `stream_id`.
    MaxStreamData { stream_id: u64, offset: u64 },
    /// Ask the peer to stop sending on `stream_id`.
    StopSending { stream_id: u64, error_code: u64 },
}

/// `f` is a pending credit update for stream `id`.
pub open spec fn is_msd_for(f: ControlFrame, id: u64) -> bool {
    match f {
        ControlFrame::MaxStreamData { stream_id, .. } => stream_id == id,
        _ => false,
    }
}

/// What enqueueing a credit update `MaxStreamData(stream_id, offset)`
/// does to the queue: a pending update for the stream is superseded in
/// place, otherwise the frame joins the back of the queue.
pub open spec fn msd_enqueued(
    pre: FlowController,
    post: FlowController,
    stream_id: u64,
    offset: u64,
) -> bool {
    if pre.has_msd(stream_id) {
        post.queue@ == pre.queue@.update(
            pre.msd_pos(stream_id),
            ControlFrame::MaxStreamData { stream_id, offset },
        )
    } else {
        post.queue@ == pre.queue@.push(ControlFrame::MaxStreamData { stream_id, offset })
    }
}

/// What dropping the pending credit update for `stream_id` does to the
/// queue: the update leaves if present, else nothing changes.
pub open spec fn msd_cleared(pre: FlowController, post: FlowController, stream_id: u64) -> bool {
    if pre.has_msd(stream_id) {
        post.queue@ == pre.queue@.remove(pre.msd_pos(stream_id))
    } else {
        post == pre
    }
}

/// The outbound control-frame queue.  A newer credit update for a stream
/// supersedes an older pending one; everything else is first-in
/// first-out.
pub struct FlowController {
    pub queue: Vec<ControlFrame>,
}

impl FlowController {
    /// At most one pending credit update per stream.
    pub open spec fn wf(self) -> bool {
        forall|i: int, j: int, id: u64|
            0 <= i < self.queue@.len() && 0 <= j < self.queue@.len() && #[trigger] is_msd_for(
                self.queue@[i],
                id,
            ) && #[trigger] is_msd_for(self.queue@[j], id) ==> i == j
    }

    /// A credit update for stream `id` is pending.
    pub open spec fn has_msd(self, id: u64) -> bool {
        exists|i: int| 0 <= i < self.queue@.len() && is_msd_for(#[trigger] self.queue@[i], id)
    }

    /// The queue position of the pending credit update for stream `id`.
    pub open spec fn msd_pos(self, id: u64) -> int {
        choose|i: int| 0 <= i < self.queue@.len() && is_msd_for(#[trigger] self.queue@[i], id)
    }

    /// An empty queue.
    pub fn new() -> (r: FlowController)
        ensures
            r.wf(),
            r.queue@.len() == 0,
    {
        FlowController { queue: Vec::new() }
    }

    /// Enqueue a credit update: the peer may send up to `offset` on
    /// `stream_id`.  A pending update for the same stream is superseded
    /// in place; otherwise the frame joins the back of the queue.
    pub fn max_stream_data(&mut self, stream_id: u64, offset: u64)
        requires
            old(self).wf(),
        ensures
            final(self).wf(),
            msd_enqueued(*old(self), *final(self), stream_id, offset),
    {
        let mut i: usize = 0;
        while i < self.queue.len()
            invariant
                old(self).wf(),
                *self == *old(self),
                i <= self.queue@.len(),
                forall|j: int| 0 <= j < i ==> !is_msd_for(#[trigger] self.queue@[j], stream_id),
            decreases self.queue@.len() - i,
        {
            let hit = match self.queue[i] {
                ControlFrame::MaxStreamData { stream_id: sid, .. } => sid == stream_id,
                _ => false,
            };
            if hit {
                proof {
                    assert(is_msd_for(old(self).queue@[i as int], stream_id));
                    assert(old(self).has_msd(stream_id));
                    let p = old(self).msd_pos(stream_id);
                    assert(is_msd_for(old(self).queue@[p], stream_id));
                    assert(p == i as int);
                }
                let f = ControlFrame::MaxStreamData { stream_id, offset };
                self.queue[i] = f;
                proof {
                    assert(self.queue@ == old(self).queue@.update(i as int, f));
                    assert forall|a: int, b: int, id: u64|
                        0 <= a < self.queue@.len() && 0 <= b < self.queue@.len()
                            && #[trigger] is_msd_for(self.queue@[a], id) && #[trigger] is_msd_for(
                            self.queue@[b],
                            id,
                        ) implies a == b by {
                        if a == i as int && b != i as int {
                            assert(self.queue@[a] == f);
                            assert(is_msd_for(f, id));
                            assert(id == stream_id);
                            assert(is_msd_for(old(self).queue@[b], id));
                            assert(is_msd_for(old(self).queue@[i as int], id));
                        } else if b == i as int && a != i as int {
                            assert(self.queue@[b] == f);
                            assert(is_msd_for(f, id));
                            assert(id == stream_id);
                            assert(is_msd_for(old(self).queue@[a], id));
                            assert(is_msd_for(old(self).queue@[i as int], id));
                        } else if a != i as int && b != i as int {
                            assert(is_msd_for(old(self).queue@[a], id));
                            assert(is_msd_for(old(self).queue@[b], id));
                        }
                    }
                }
                return;
            }
            i = i + 1;
        }
        let f = ControlFrame::MaxStreamData { stream_id, offset };
        self.queue.push(f);
        proof {
            assert(!old(self).has_msd(stream_id));
            let last = self.queue@.len() - 1;
            assert forall|a: int, b: int, id: u64|
                0 <= a < self.queue@.len() && 0 <= b < self.queue@.len() && #[trigger] is_msd_for(
                    self.queue@[a],
                    id,
                ) && #[trigger] is_msd_for(self.queue@[b], id) implies a == b by {
                if a == last && b != last {
                    assert(self.queue@[a] == f);
                    assert(is_msd_for(f, id));
                    assert(id == stream_id);
                    assert(is_msd_for(old(self).queue@[b], id));
                } else if b == last && a != last {
                    assert(self.queue@[b] == f);
                    assert(is_msd_for(f, id));
                    assert(id == stream_id);
                    assert(is_msd_for(old(self).queue@[a], id));
                } else if a != last && b != last {
                    assert(is_msd_for(old(self).queue@[a], id));
                    assert(is_msd_for(old(self).queue@[b], id));
                }
            }
        }
    }

    /// Drop the pending credit update for `stream_id`, if any.  Called on
    /// leaving the receiving state, when no more credit will be granted.
    pub fn clear_max_stream_data(&mut self, stream_id: u64)
        requires
            old(self).wf(),
        ensures
            final(self).wf(),
            msd_cleared(*old(self), *final(self), stream_id),
    {
        let mut i: usize = 0;
        while i < self.queue.len()
            invariant
                old(self).wf(),
                *self == *old(self),
                i <= self.queue@.len(),
                forall|j: int| 0 <= j < i ==> !is_msd_for(#[trigger] self.queue@[j], stream_id),
            decreases self.queue@.len() - i,
        {
            let hit = match self.queue[i] {
                ControlFrame::MaxStreamData { stream_id: sid, .. } => sid == stream_id,
                _ => false,
            };
            if hit {
                proof {
                    assert(is_msd_for(old(self).queue@[i as int], stream_id));
                    assert(old(self).has_msd(stream_id));
                    let p = old(self).msd_pos(stream_id);
                    assert(is_msd_for(old(self).queue@[p], stream_id));
                    assert(p == i as int);
                }
                let _ = self.queue.remove(i);
                proof {
                    assert(self.queue@ == old(self).queue@.remove(i as int));
                    assert forall|a: int, b: int, id: u64|
                        0 <= a < self.queue@.len() && 0 <= b < self.queue@.len()
                            && #[trigger] is_msd_for(self.queue@[a], id) && #[trigger] is_msd_for(
                            self.queue@[b],
                            id,
                        ) implies a == b by {
                        let a0 = if a < i as int {
                            a
                        } else {
                            a + 1
                        };
                        let b0 = if b < i as int {
                            b
                        } else {
                            b + 1
                        };
                        assert(self.queue@[a] == old(self).queue@[a0]);
                        assert(self.queue@[b] == old(self).queue@[b0]);
                        assert(is_msd_for(old(self).queue@[a0], id));
                        assert(is_msd_for(old(self).queue@[b0], id));
                    }
                }
                return;
            }
            i = i + 1;
        }
        proof {
            assert(!old(self).has_msd(stream_id));
        }
    }

    /// Enqueue a request that the peer stop sending on `stream_id`.
    pub fn stop_sending(&mut self, stream_id: u64, error_code: u64)
        requires
            old(self).wf(),
        ensures
            final(self).wf(),
            final(self).queue@ == old(self).queue@.push(
                ControlFrame::StopSending { stream_id, error_code },
            ),
    {
        self.queue.push(ControlFrame::StopSending { stream_id, error_code });
        proof {
            let last = self.queue@.len() - 1;
            assert forall|a: int, b: int, id: u64|
                0 <= a < self.queue@.len() && 0 <= b < self.queue@.len() && #[trigger] is_msd_for(
                    self.queue@[a],
                    id,
                ) && #[trigger] is_msd_for(self.queue@[b], id) implies a == b by {
                assert(a != last && b != last);
                assert(is_msd_for(old(self).queue@[a], id));
                assert(is_msd_for(old(self).queue@[b], id));
            }
        }
    }

    /// The frame at the front of the queue, if any, without removing it.
    pub fn peek(&self) -> (r: Option<ControlFrame>)
        ensures
            self.queue@.len() > 0 ==> r == Some(self.queue@[0]),
            self.queue@.len() == 0 ==> r is None,
    {
        if self.queue.len() > 0 {
            Some(self.queue[0])
        } else {
            None
        }
    }

    /// Dequeue the frame at the front of the queue, if any.
    pub fn next(&mut self) -> (r: Option<ControlFrame>)
        requires
            old(self).wf(),
        ensures
            final(self).wf(),
            old(self).queue@.len() > 0 ==> r == Some(old(self).queue@[0]) && final(self).queue@
                == old(self).queue@.remove(0),
            old(self).queue@.len() == 0 ==> r is None && *final(self) == *old(self),
    {
        if self.queue.len() > 0 {
            let f = self.queue.remove(0);
            proof {
                assert forall|a: int, b: int, id: u64|
                    0 <= a < self.queue@.len() && 0 <= b < self.queue@.len()
                        && #[trigger] is_msd_for(self.queue@[a], id) && #[trigger] is_msd_for(
                        self.queue@[b],
                        id,
                    ) implies a == b by {
                    assert(self.queue@[a] == old(self).queue@[a + 1]);
                    assert(self.queue@[b] == old(self).queue@[b + 1]);
                    assert(is_msd_for(old(self).queue@[a + 1], id));
                    assert(is_msd_for(old(self).queue@[b + 1], id));
                }
            }
            Some(f)
        } else {
            None
        }
    }

    /// How many frames are pending.
    pub fn len(&self) -> (r: usize)
        ensures
            r == self.queue@.len(),
    {
        self.queue.len()
    }
}

/// A notification delivered to the application.
#[derive(Clone, Copy, PartialEq, Eq, Structural, Debug)]
pub enum StreamEvent {
    /// Bytes (or the end of the stream) can be read on `stream_id`.
    Readable { stream_id: u64 },
    /// The peer reset `stream_id`.
    Reset { stream_id: u64, error_code: u64 },
    /// `stream_id` reached its end through the data path.
    Complete { stream_id: u64 },
}

/// The queue of notifications for the application, owned by the
/// connection.  Events posted during one call are observed in call order.
pub struct ConnectionEvents {
    pub events: Vec<StreamEvent>,
}

impl ConnectionEvents {
    /// An empty queue.
    pub fn new() -> (r: ConnectionEvents)
        ensures
            r.events@.len() == 0,
    {
        ConnectionEvents { events: Vec::new() }
    }

    /// Post: the stream became readable.
    pub fn recv_stream_readable(&mut self, stream_id: u64)
        ensures
            final(self).events@ == old(self).events@.push(StreamEvent::Readable { stream_id }),
    {
        self.events.push(StreamEvent::Readable { stream_id });
    }

    /// Post: the peer reset the stream.
    pub fn recv_stream_reset(&mut self, stream_id: u64, error_code: u64)
        ensures
            final(self).events@ == old(self).events@.push(
                StreamEvent::Reset { stream_id, error_code },
            ),
    {
        self.events.push(StreamEvent::Reset { stream_id, error_code });
    }

    /// Post: the stream was read to its end.
    pub fn recv_stream_complete(&mut self, stream_id: u64)
        ensures
            final(self).events@ == old(self).events@.push(StreamEvent::Complete { stream_id }),
    {
        self.events.push(StreamEvent::Complete { stream_id });
    }

    /// Dequeue the oldest pending event, if any.
    pub fn next(&mut self) -> (r: Option<StreamEvent>)
        ensures
            old(self).events@.len() > 0 ==> r == Some(old(self).events@[0]) && final(self).events@
                == old(self).events@.remove(0),
            old(self).events@.len() == 0 ==> r is None && *final(self) == *old(self),
    {
        if self.events.len() > 0 {
            Some(self.events.remove(0))
        } else {
            None
        }
    }

    /// How many events are pending.
    pub fn len(&self) -> (r: usize)
        ensures
            r == self.events@.len(),
    {
        self.events.len()
    }
}

} // verus!
