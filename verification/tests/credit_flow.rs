//! Tests of the credit-update policy and the flow controller's queue.

use recv_stream::control::{ConnectionEvents, ControlFrame, FlowController};
use recv_stream::stream::ReceiveStream;

const W: u64 = 1 << 20;

#[test]
fn credit_update_heuristic() {
    let mut s = ReceiveStream::new(1, W);
    let mut fc = FlowController::new();
    let mut ev = ConnectionEvents::new();
    s.inbound_frame(false, 0, vec![0u8; W as usize], &mut fc, &mut ev).unwrap();
    // Nothing retired yet: no update.
    s.maybe_send_credit_update(&mut fc);
    assert_eq!(fc.len(), 0);
    // Consume the whole window; the read itself runs the policy.
    let mut buf = vec![0u8; W as usize];
    let (n, fin) = s.read(&mut buf, &mut fc, &mut ev).unwrap();
    assert_eq!((n, fin), (W as usize, false));
    s.maybe_send_credit_update(&mut fc);
    assert_eq!(fc.len(), 1);
    assert_eq!(fc.peek(), Some(ControlFrame::MaxStreamData { stream_id: 1, offset: 2 * W }));
    // Consume the pending frame; nothing new until the application
    // passes the next half-window threshold.
    assert_eq!(fc.next(), Some(ControlFrame::MaxStreamData { stream_id: 1, offset: 2 * W }));
    s.maybe_send_credit_update(&mut fc);
    assert_eq!(fc.len(), 0);

    // Lost credit resend: the stream re-emits its current credit.
    s.resend_credit_update(&mut fc);
    assert_eq!(fc.next(), Some(ControlFrame::MaxStreamData { stream_id: 1, offset: 2 * W }));
    assert_eq!(fc.next(), None);
}

#[test]
fn credit_grows_only_past_half_window() {
    let w: u64 = 1000;
    let mut s = ReceiveStream::new(2, w);
    let mut fc = FlowController::new();
    let mut ev = ConnectionEvents::new();
    s.inbound_frame(false, 0, vec![0u8; 1000], &mut fc, &mut ev).unwrap();
    // Reading exactly half the window does not cross the threshold.
    let mut buf = vec![0u8; 500];
    s.read(&mut buf, &mut fc, &mut ev).unwrap();
    assert_eq!(fc.len(), 0);
    // One more byte does.
    let mut one = vec![0u8; 1];
    s.read(&mut one, &mut fc, &mut ev).unwrap();
    assert_eq!(fc.next(), Some(ControlFrame::MaxStreamData { stream_id: 2, offset: 1501 }));
}

#[test]
fn newer_credit_update_supersedes_pending_one() {
    let mut fc = FlowController::new();
    fc.max_stream_data(4, 100);
    fc.stop_sending(5, 9);
    fc.max_stream_data(4, 200);
    // Still two frames, the update in its old position with the new
    // offset.
    assert_eq!(fc.len(), 2);
    assert_eq!(fc.next(), Some(ControlFrame::MaxStreamData { stream_id: 4, offset: 200 }));
    assert_eq!(fc.next(), Some(ControlFrame::StopSending { stream_id: 5, error_code: 9 }));
    assert_eq!(fc.next(), None);
}

#[test]
fn clearing_removes_only_the_streams_update() {
    let mut fc = FlowController::new();
    fc.max_stream_data(1, 100);
    fc.max_stream_data(2, 200);
    fc.clear_max_stream_data(1);
    fc.clear_max_stream_data(3);
    assert_eq!(fc.len(), 1);
    assert_eq!(fc.next(), Some(ControlFrame::MaxStreamData { stream_id: 2, offset: 200 }));
}

#[test]
fn leaving_recv_drops_pending_credit() {
    let w: u64 = 100;
    let mut s = ReceiveStream::new(6, w);
    let mut fc = FlowController::new();
    let mut ev = ConnectionEvents::new();
    s.inbound_frame(false, 0, vec![0u8; 100], &mut fc, &mut ev).unwrap();
    let mut buf = vec![0u8; 100];
    s.read(&mut buf, &mut fc, &mut ev).unwrap();
    assert_eq!(fc.len(), 1);
    // The FIN moves the stream out of the receiving state; the pending
    // update is pointless now and leaves the queue.
    s.inbound_frame(true, 100, vec![1u8; 4], &mut fc, &mut ev).unwrap();
    assert_eq!(fc.len(), 0);
}

#[test]
fn reset_clears_pending_credit() {
    let w: u64 = 100;
    let mut s = ReceiveStream::new(7, w);
    let mut fc = FlowController::new();
    let mut ev = ConnectionEvents::new();
    s.inbound_frame(false, 0, vec![0u8; 100], &mut fc, &mut ev).unwrap();
    let mut buf = vec![0u8; 100];
    s.read(&mut buf, &mut fc, &mut ev).unwrap();
    assert_eq!(fc.len(), 1);
    s.reset(13, &mut fc, &mut ev);
    assert_eq!(fc.len(), 0);
}
