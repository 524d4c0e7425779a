//! Tests of the receive-stream state machine: ordered delivery, the
//! final-size rules, terminal transitions and the events they post.

use recv_stream::control::{ConnectionEvents, ControlFrame, FlowController, StreamEvent};
use recv_stream::stream::{ReceiveStream, StreamError};

const W: u64 = 1 << 20;

struct Rig {
    s: ReceiveStream,
    fc: FlowController,
    ev: ConnectionEvents,
}

impl Rig {
    fn new(id: u64, window: u64) -> Rig {
        Rig { s: ReceiveStream::new(id, window), fc: FlowController::new(), ev: ConnectionEvents::new() }
    }

    fn inbound(&mut self, fin: bool, offset: u64, bytes: Vec<u8>) -> Result<(), StreamError> {
        self.s.inbound_frame(fin, offset, bytes, &mut self.fc, &mut self.ev)
    }

    fn read(&mut self, cap: usize) -> Result<(usize, bool, Vec<u8>), StreamError> {
        let mut buf = vec![0u8; cap];
        let (n, fin) = self.s.read(&mut buf, &mut self.fc, &mut self.ev)?;
        buf.truncate(n);
        Ok((n, fin, buf))
    }
}

#[test]
fn contiguous_then_ordered_read() {
    let mut r = Rig::new(1, W);
    r.inbound(false, 0, vec![1u8; 10]).unwrap();
    let (n, fin, bytes) = r.read(100).unwrap();
    assert_eq!(n, 10);
    assert!(!fin);
    assert_eq!(bytes, vec![1u8; 10]);
    assert_eq!(r.s.retired(), 10);
    assert_eq!(r.s.buffered(), 0);
}

#[test]
fn gap_then_fill_fin_and_read_to_completion() {
    let mut r = Rig::new(2, 100);
    r.inbound(false, 0, vec![1u8; 10]).unwrap();
    let (n, fin, _) = r.read(10).unwrap();
    assert_eq!((n, fin), (10, false));
    r.inbound(false, 12, vec![2u8; 12]).unwrap();
    // The gap at [10, 12) blocks reading.
    assert_eq!(r.s.bytes_ready(), 0);
    // A subset of held data changes nothing.
    r.inbound(false, 14, vec![3u8; 8]).unwrap();
    assert_eq!(r.s.buffered(), 12);
    // A FIN below data already seen is a final-size violation.
    assert_eq!(r.inbound(true, 10, vec![4u8; 6]), Err(StreamError::FinalSizeError));
    // Closing the gap makes everything up to 24 readable.
    r.inbound(false, 10, vec![5u8; 10]).unwrap();
    assert_eq!(r.s.buffered(), 14);
    assert_eq!(r.s.bytes_ready(), 14);
    // The FIN at 42 together with the last bytes completes the stream.
    r.inbound(true, 24, vec![6u8; 18]).unwrap();
    let (n, fin, bytes) = r.read(100).unwrap();
    assert_eq!((n, fin), (32, true));
    let expected = [
        vec![5u8; 2],
        vec![2u8; 12],
        vec![6u8; 18],
    ]
    .concat();
    assert_eq!(bytes, expected);
    assert!(r.s.is_terminal());
    assert_eq!(r.read(10), Err(StreamError::NoMoreData));
}

#[test]
fn flow_control_violation() {
    let mut r = Rig::new(3, W);
    assert_eq!(r.inbound(false, W, vec![1u8; 1]), Err(StreamError::FlowControlError));
    // The frame was rejected without a trace.
    assert_eq!(r.s.buffered(), 0);
    assert_eq!(r.ev.len(), 0);
    // Up to the advertised credit everything is fine.
    r.inbound(false, W - 1, vec![1u8; 1]).unwrap();
}

#[test]
fn final_size_violations_once_size_known() {
    let mut r = Rig::new(4, 100);
    r.inbound(true, 10, vec![2u8; 10]).unwrap();
    // Bytes beyond the final size of 20.
    assert_eq!(r.inbound(false, 18, vec![9u8; 4]), Err(StreamError::FinalSizeError));
    // A FIN at a different offset.
    assert_eq!(r.inbound(true, 0, vec![9u8; 10]), Err(StreamError::FinalSizeError));
    // A fitting FIN-less frame is fine and fills the gap.
    r.inbound(false, 0, vec![1u8; 10]).unwrap();
    let (n, fin, bytes) = r.read(100).unwrap();
    assert_eq!((n, fin), (20, true));
    assert_eq!(bytes, [vec![1u8; 10], vec![2u8; 10]].concat());
}

#[test]
fn fin_only_frame_completes_consumed_stream() {
    let mut r = Rig::new(5, 100);
    r.inbound(false, 0, vec![1u8; 8]).unwrap();
    let (n, fin, _) = r.read(8).unwrap();
    assert_eq!((n, fin), (8, false));
    // An empty FIN at the consumed end: final size 8, nothing left.
    r.inbound(true, 8, Vec::new()).unwrap();
    let (n, fin, _) = r.read(8).unwrap();
    assert_eq!((n, fin), (0, true));
    assert!(r.s.is_terminal());
}

#[test]
fn readable_event_posted_once_per_transition() {
    let mut r = Rig::new(6, W);
    r.inbound(false, 0, vec![1u8; 4]).unwrap();
    assert_eq!(r.ev.next(), Some(StreamEvent::Readable { stream_id: 6 }));
    assert_eq!(r.ev.next(), None);
    // More data while already readable: no second event.
    r.inbound(false, 4, vec![2u8; 4]).unwrap();
    assert_eq!(r.ev.next(), None);
    // Drain everything; the next arrival is a fresh transition.
    let (n, _, _) = r.read(100).unwrap();
    assert_eq!(n, 8);
    r.inbound(false, 8, vec![3u8; 4]).unwrap();
    assert_eq!(r.ev.next(), Some(StreamEvent::Readable { stream_id: 6 }));
    assert_eq!(r.ev.next(), None);
}

#[test]
fn out_of_order_data_posts_no_event_until_readable() {
    let mut r = Rig::new(7, W);
    r.inbound(false, 10, vec![2u8; 5]).unwrap();
    assert_eq!(r.ev.next(), None);
    r.inbound(false, 0, vec![1u8; 10]).unwrap();
    assert_eq!(r.ev.next(), Some(StreamEvent::Readable { stream_id: 7 }));
    assert_eq!(r.ev.next(), None);
}

#[test]
fn completing_fin_posts_readable_and_read_posts_complete() {
    let mut r = Rig::new(8, W);
    r.inbound(false, 0, vec![1u8; 4]).unwrap();
    assert_eq!(r.ev.next(), Some(StreamEvent::Readable { stream_id: 8 }));
    let (n, _, _) = r.read(4).unwrap();
    assert_eq!(n, 4);
    // The FIN completes the stream: readable even with no new bytes.
    r.inbound(true, 4, Vec::new()).unwrap();
    assert_eq!(r.ev.next(), Some(StreamEvent::Readable { stream_id: 8 }));
    let (n, fin, _) = r.read(4).unwrap();
    assert_eq!((n, fin), (0, true));
    assert_eq!(r.ev.next(), Some(StreamEvent::Complete { stream_id: 8 }));
    assert_eq!(r.ev.next(), None);
}

#[test]
fn peer_reset_posts_event_and_is_terminal() {
    let mut r = Rig::new(9, W);
    r.inbound(false, 0, vec![1u8; 4]).unwrap();
    let _ = r.ev.next();
    r.s.reset(77, &mut r.fc, &mut r.ev);
    assert_eq!(r.ev.next(), Some(StreamEvent::Reset { stream_id: 9, error_code: 77 }));
    assert!(r.s.is_terminal());
    // Frames and resets after the terminal state are ignored.
    r.inbound(false, 4, vec![2u8; 4]).unwrap();
    r.s.reset(78, &mut r.fc, &mut r.ev);
    assert_eq!(r.ev.next(), None);
    assert_eq!(r.read(4), Err(StreamError::NoMoreData));
}

#[test]
fn stop_sending_while_receiving_asks_peer_to_stop() {
    let mut r = Rig::new(10, W);
    r.inbound(false, 0, vec![1u8; 4]).unwrap();
    r.s.stop_sending(55, &mut r.fc);
    assert!(r.s.is_terminal());
    assert_eq!(
        r.fc.next(),
        Some(ControlFrame::StopSending { stream_id: 10, error_code: 55 })
    );
    assert_eq!(r.fc.next(), None);
}

#[test]
fn stop_sending_after_all_data_discards_quietly() {
    let mut r = Rig::new(11, W);
    r.inbound(true, 0, vec![1u8; 4]).unwrap();
    // All data is in: stopping merely discards it.
    r.s.stop_sending(55, &mut r.fc);
    assert!(r.s.is_terminal());
    assert_eq!(r.fc.next(), None);
    assert_eq!(r.read(4), Err(StreamError::NoMoreData));
}

#[test]
fn frames_ignored_after_data_received() {
    let mut r = Rig::new(12, W);
    r.inbound(true, 0, vec![1u8; 6]).unwrap();
    // A duplicate within the final size is absorbed.
    r.inbound(false, 0, vec![9u8; 6]).unwrap();
    // Anything beyond it is still a violation.
    assert_eq!(r.inbound(false, 5, vec![9u8; 2]), Err(StreamError::FinalSizeError));
    let (n, fin, bytes) = r.read(10).unwrap();
    assert_eq!((n, fin), (6, true));
    assert_eq!(bytes, vec![1u8; 6]);
}

#[test]
fn frame_past_the_offset_space_is_rejected() {
    let mut r = Rig::new(13, W);
    // The end of this frame does not fit in an offset: it necessarily
    // exceeds the credit.
    assert_eq!(r.inbound(false, u64::MAX, vec![1u8; 2]), Err(StreamError::FlowControlError));
    // Once a final size is known, such a frame violates it instead.
    r.inbound(true, 0, vec![2u8; 4]).unwrap();
    let mut r2 = Rig::new(14, 100);
    r2.inbound(true, 10, vec![2u8; 4]).unwrap();
    assert_eq!(r2.inbound(false, u64::MAX, vec![1u8; 2]), Err(StreamError::FinalSizeError));
}
