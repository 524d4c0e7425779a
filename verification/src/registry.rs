//! The connection's registry of receive streams, keyed by stream
//! identifier.
//!
//! The connection takes a stream out to work on it and puts it back
//! afterwards; a frame from the peer may create the stream on first
//! mention.  Sweeping terminal streams is the connection's job, so the
//! registry only answers whether a stream is terminal and removes what
//! it is asked to remove.

use crate::stream::{credit_of, max_buffered_of, orderer_of, ReceiveStream};
use vstd::prelude::*;

verus! {

/// A mapping from stream identifier to receive stream: each identifier
/// occurs at most once, and every held stream is well formed.
pub struct StreamRegistry {
    pub streams: Vec<ReceiveStream>,
}

impl StreamRegistry {
    /// Identifiers are unique and every held stream is well formed.
    pub open spec fn wf(self) -> bool {
        &&& forall|i: int, j: int|
            0 <= i < self.streams@.len() && 0 <= j < self.streams@.len() && (
            #[trigger] self.streams@[i]).stream_id == (#[trigger] self.streams@[j]).stream_id
                ==> i == j
        &&& forall|i: int| 0 <= i < self.streams@.len() ==> (#[trigger] self.streams@[i]).wf()
    }

    /// A stream with this identifier is registered.
    pub open spec fn contains_spec(self, id: u64) -> bool {
        exists|i: int|
            0 <= i < self.streams@.len() && (#[trigger] self.streams@[i]).stream_id == id
    }

    /// The position of the stream with this identifier.
    pub open spec fn pos_of(self, id: u64) -> int {
        choose|i: int|
            0 <= i < self.streams@.len() && (#[trigger] self.streams@[i]).stream_id == id
    }

    /// An empty registry.
    pub fn new() -> (r: StreamRegistry)
        ensures
            r.wf(),
            r.streams@.len() == 0,
    {
        StreamRegistry { streams: Vec::new() }
    }

    /// Whether a stream with this identifier is registered.
    pub fn contains(&self, stream_id: u64) -> (r: bool)
        ensures
            r == self.contains_spec(stream_id),
    {
        let mut i: usize = 0;
        while i < self.streams.len()
            invariant
                i <= self.streams@.len(),
                forall|j: int| 0 <= j < i ==> (#[trigger] self.streams@[j]).stream_id != stream_id,
            decreases self.streams@.len() - i,
        {
            if self.streams[i].stream_id == stream_id {
                return true;
            }
            i = i + 1;
        }
        false
    }

    /// Remove and hand out the stream with this identifier, if present.
    /// The caller works on it and puts it back with `put`.
    pub fn take(&mut self, stream_id: u64) -> (r: Option<ReceiveStream>)
        requires
            old(self).wf(),
        ensures
            final(self).wf(),
            old(self).contains_spec(stream_id) ==> r == Some(
                old(self).streams@[old(self).pos_of(stream_id)],
            ) && final(self).streams@ == old(self).streams@.remove(old(self).pos_of(stream_id)),
            !old(self).contains_spec(stream_id) ==> r is None && *final(self) == *old(self),
            !final(self).contains_spec(stream_id),
    {
        let mut i: usize = 0;
        while i < self.streams.len()
            invariant
                old(self).wf(),
                *self == *old(self),
                i <= self.streams@.len(),
                forall|j: int| 0 <= j < i ==> (#[trigger] self.streams@[j]).stream_id != stream_id,
            decreases self.streams@.len() - i,
        {
            if self.streams[i].stream_id == stream_id {
                proof {
                    assert(old(self).contains_spec(stream_id));
                    let p = old(self).pos_of(stream_id);
                    assert(old(self).streams@[p].stream_id == stream_id);
                    assert(p == i as int);
                }
                let s = self.streams.remove(i);
                proof {
                    assert forall|a: int, b: int|
                        0 <= a < self.streams@.len() && 0 <= b < self.streams@.len() && (
                        #[trigger] self.streams@[a]).stream_id == (
                        #[trigger] self.streams@[b]).stream_id implies a == b by {
                        let a0 = if a < i as int {
                            a
                        } else {
                            a + 1
                        };
                        let b0 = if b < i as int {
                            b
                        } else {
                            b + 1
                        };
                        assert(self.streams@[a] == old(self).streams@[a0]);
                        assert(self.streams@[b] == old(self).streams@[b0]);
                    }
                    assert forall|a: int|
                        0 <= a < self.streams@.len() implies (
                        #[trigger] self.streams@[a]).stream_id != stream_id by {
                        let a0 = if a < i as int {
                            a
                        } else {
                            a + 1
                        };
                        assert(self.streams@[a] == old(self).streams@[a0]);
                    }
                    assert forall|a: int|
                        0 <= a < self.streams@.len() implies (#[trigger] self.streams@[a]).wf() by {
                        let a0 = if a < i as int {
                            a
                        } else {
                            a + 1
                        };
                        assert(self.streams@[a] == old(self).streams@[a0]);
                    }
                }
                return Some(s);
            }
            i = i + 1;
        }
        None
    }

    /// Remove and hand out the stream with this identifier, creating a
    /// fresh one with window `window` when the identifier is new (a
    /// peer-initiated frame mentions a stream for the first time).
    pub fn take_or_create(&mut self, stream_id: u64, window: u64) -> (r: ReceiveStream)
        requires
            old(self).wf(),
        ensures
            final(self).wf(),
            r.wf(),
            r.stream_id == stream_id,
            old(self).contains_spec(stream_id) ==> r == old(self).streams@[old(self).pos_of(
                stream_id,
            )] && final(self).streams@ == old(self).streams@.remove(old(self).pos_of(stream_id)),
            !old(self).contains_spec(stream_id) ==> *final(self) == *old(self) && r.state is Recv
                && orderer_of(r.state).chunks@.len() == 0 && orderer_of(r.state).retired == 0
                && max_buffered_of(r.state) == window && credit_of(r.state) == window,
            !final(self).contains_spec(stream_id),
    {
        let taken = self.take(stream_id);
        match taken {
            Some(s) => s,
            None => ReceiveStream::new(stream_id, window),
        }
    }

    /// Register a stream.  The identifier must not be taken; `take` and
    /// `take_or_create` guarantee that for what they hand out.
    pub fn put(&mut self, s: ReceiveStream)
        requires
            old(self).wf(),
            s.wf(),
            !old(self).contains_spec(s.stream_id),
        ensures
            final(self).wf(),
            final(self).streams@ == old(self).streams@.push(s),
            final(self).contains_spec(s.stream_id),
    {
        self.streams.push(s);
        proof {
            let last = self.streams@.len() - 1;
            assert(self.streams@[last].stream_id == s.stream_id);
            assert forall|a: int, b: int|
                0 <= a < self.streams@.len() && 0 <= b < self.streams@.len() && (
                #[trigger] self.streams@[a]).stream_id == (
                #[trigger] self.streams@[b]).stream_id implies a == b by {
                if a != last && b != last {
                    assert(self.streams@[a] == old(self).streams@[a]);
                    assert(self.streams@[b] == old(self).streams@[b]);
                } else if a == last && b != last {
                    assert(self.streams@[b] == old(self).streams@[b]);
                } else if b == last && a != last {
                    assert(self.streams@[a] == old(self).streams@[a]);
                }
            }
            assert forall|a: int|
                0 <= a < self.streams@.len() implies (#[trigger] self.streams@[a]).wf() by {
                if a != last {
                    assert(self.streams@[a] == old(self).streams@[a]);
                }
            }
        }
    }

    /// Drop the stream with this identifier, if present: for a terminal
    /// stream whose end the connection has acknowledged.
    pub fn remove(&mut self, stream_id: u64)
        requires
            old(self).wf(),
        ensures
            final(self).wf(),
            old(self).contains_spec(stream_id) ==> final(self).streams@ == old(
                self,
            ).streams@.remove(old(self).pos_of(stream_id)),
            !old(self).contains_spec(stream_id) ==> *final(self) == *old(self),
            !final(self).contains_spec(stream_id),
    {
        let _ = self.take(stream_id);
    }

    /// Whether the registered stream is terminal; an unknown identifier
    /// is not terminal (there is nothing to sweep).
    pub fn is_terminal(&self, stream_id: u64) -> (r: bool)
        requires
            self.wf(),
        ensures
            r == (self.contains_spec(stream_id) && (self.streams@[self.pos_of(
                stream_id,
            )].state is DataRead || self.streams@[self.pos_of(stream_id)].state
                is ResetReceived)),
    {
        let mut i: usize = 0;
        while i < self.streams.len()
            invariant
                self.wf(),
                i <= self.streams@.len(),
                forall|j: int| 0 <= j < i ==> (#[trigger] self.streams@[j]).stream_id != stream_id,
            decreases self.streams@.len() - i,
        {
            if self.streams[i].stream_id == stream_id {
                proof {
                    assert(self.contains_spec(stream_id));
                    let p = self.pos_of(stream_id);
                    assert(self.streams@[p].stream_id == stream_id);
                    assert(p == i as int);
                }
                return self.streams[i].is_terminal();
            }
            i = i + 1;
        }
        false
    }
}

} // verus!
