//! Tests of the stream registry: lookup-or-create, lookup, removal and
//! terminal sweeping.

use recv_stream::control::{ConnectionEvents, FlowController};
use recv_stream::registry::StreamRegistry;

const W: u64 = 4096;

#[test]
fn first_mention_creates_the_stream() {
    let mut reg = StreamRegistry::new();
    let mut fc = FlowController::new();
    let mut ev = ConnectionEvents::new();
    assert!(!reg.contains(3));
    let mut s = reg.take_or_create(3, W);
    s.inbound_frame(false, 0, vec![1u8; 4], &mut fc, &mut ev).unwrap();
    reg.put(s);
    assert!(reg.contains(3));
    // The same identifier returns the same stream.
    let s = reg.take_or_create(3, W);
    assert_eq!(s.buffered(), 4);
    reg.put(s);
}

#[test]
fn streams_are_kept_apart_by_identifier() {
    let mut reg = StreamRegistry::new();
    let mut fc = FlowController::new();
    let mut ev = ConnectionEvents::new();
    for id in 0..4u64 {
        let mut s = reg.take_or_create(id, W);
        s.inbound_frame(false, 0, vec![id as u8; id as usize + 1], &mut fc, &mut ev).unwrap();
        reg.put(s);
    }
    for id in 0..4u64 {
        let s = reg.take(id).unwrap();
        assert_eq!(s.buffered(), id + 1);
        reg.put(s);
    }
    assert!(reg.take(9).is_none());
}

#[test]
fn terminal_streams_can_be_swept() {
    let mut reg = StreamRegistry::new();
    let mut fc = FlowController::new();
    let mut ev = ConnectionEvents::new();
    let mut s = reg.take_or_create(5, W);
    s.inbound_frame(true, 0, vec![1u8; 2], &mut fc, &mut ev).unwrap();
    let mut buf = vec![0u8; 2];
    assert_eq!(s.read(&mut buf, &mut fc, &mut ev), Ok((2, true)));
    reg.put(s);
    assert!(reg.is_terminal(5));
    assert!(!reg.is_terminal(6));
    reg.remove(5);
    assert!(!reg.contains(5));
    // Removing an unknown identifier changes nothing.
    reg.remove(5);
    assert!(!reg.contains(5));
}

#[test]
fn non_terminal_streams_are_not_swept() {
    let mut reg = StreamRegistry::new();
    let mut fc = FlowController::new();
    let mut ev = ConnectionEvents::new();
    let mut s = reg.take_or_create(8, W);
    s.inbound_frame(false, 0, vec![1u8; 2], &mut fc, &mut ev).unwrap();
    reg.put(s);
    assert!(!reg.is_terminal(8));
    let mut s = reg.take(8).unwrap();
    s.reset(1, &mut fc, &mut ev);
    reg.put(s);
    assert!(reg.is_terminal(8));
}
