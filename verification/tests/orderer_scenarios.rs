//! Tests of the range orderer on its own: insertion, overlap
//! resolution, deduplication and sequential draining.

use recv_stream::orderer::RangeOrderer;

fn read_all(o: &mut RangeOrderer, cap: usize) -> (usize, Vec<u8>) {
    let mut buf = vec![0u8; cap];
    let n = o.read(&mut buf);
    buf.truncate(n);
    (n, buf)
}

#[test]
fn empty_orderer_reports_nothing() {
    let o = RangeOrderer::new();
    assert_eq!(o.bytes_ready(), 0);
    assert_eq!(o.buffered(), 0);
    assert_eq!(o.highest_seen_offset(), 0);
    assert!(!o.data_ready());
    assert!(o.is_empty());
}

#[test]
fn contiguous_insert_and_read() {
    let mut o = RangeOrderer::new();
    o.inbound(0, vec![1u8; 10]);
    assert!(o.data_ready());
    assert_eq!(o.bytes_ready(), 10);
    assert_eq!(o.buffered(), 10);
    assert_eq!(o.highest_seen_offset(), 10);
    let (n, bytes) = read_all(&mut o, 100);
    assert_eq!(n, 10);
    assert_eq!(bytes, vec![1u8; 10]);
    assert_eq!(o.retired, 10);
    assert_eq!(o.buffered(), 0);
    assert!(o.is_empty());
}

#[test]
fn gap_blocks_reading() {
    let mut o = RangeOrderer::new();
    o.inbound(5, vec![2u8; 5]);
    assert!(!o.data_ready());
    assert_eq!(o.bytes_ready(), 0);
    assert_eq!(o.buffered(), 5);
    assert_eq!(o.highest_seen_offset(), 10);
    let (n, _) = read_all(&mut o, 100);
    assert_eq!(n, 0);
    // Filling the gap makes everything readable.
    o.inbound(0, vec![1u8; 5]);
    assert_eq!(o.bytes_ready(), 10);
    let (n, bytes) = read_all(&mut o, 100);
    assert_eq!(n, 10);
    assert_eq!(bytes, [vec![1u8; 5], vec![2u8; 5]].concat());
}

#[test]
fn deduplication_symmetry() {
    // Overlaps in every direction: earlier bytes win up to the first
    // gap, later chunks are truncated or subsumed.
    let mut o = RangeOrderer::new();
    o.inbound(0, vec![1u8; 6]);
    o.inbound(2, vec![2u8; 6]);
    o.inbound(4, vec![3u8; 4]);
    o.inbound(2, vec![4u8; 8]);
    o.inbound(2, vec![5u8; 2]);
    let starts: Vec<u64> = o.chunks.iter().map(|c| c.start).collect();
    let lens: Vec<usize> = o.chunks.iter().map(|c| c.data.len()).collect();
    assert_eq!(starts, vec![0, 6, 8]);
    assert_eq!(lens, vec![6, 2, 2]);
    let (n, bytes) = read_all(&mut o, 10);
    assert_eq!(n, 10);
    assert_eq!(bytes, vec![1, 1, 1, 1, 1, 1, 2, 2, 4, 4]);
}

#[test]
fn exact_duplicate_is_dropped() {
    let mut o = RangeOrderer::new();
    o.inbound(3, vec![7u8; 4]);
    o.inbound(3, vec![9u8; 4]);
    assert_eq!(o.chunks.len(), 1);
    assert_eq!(o.buffered(), 4);
    o.inbound(0, vec![1u8; 3]);
    let (n, bytes) = read_all(&mut o, 100);
    assert_eq!(n, 7);
    // The first delivery of [3, 7) is kept.
    assert_eq!(bytes, vec![1, 1, 1, 7, 7, 7, 7]);
}

#[test]
fn adjacent_ranges_stay_separate_and_read_in_order() {
    let mut o = RangeOrderer::new();
    o.inbound(0, vec![1u8; 4]);
    o.inbound(4, vec![2u8; 4]);
    assert_eq!(o.chunks.len(), 2);
    assert_eq!(o.bytes_ready(), 8);
    let (n, bytes) = read_all(&mut o, 8);
    assert_eq!(n, 8);
    assert_eq!(bytes, vec![1, 1, 1, 1, 2, 2, 2, 2]);
}

#[test]
fn small_buffer_reads_in_pieces() {
    let mut o = RangeOrderer::new();
    o.inbound(0, vec![1, 2, 3, 4, 5, 6]);
    let mut buf = vec![0u8; 4];
    let n = o.read(&mut buf);
    assert_eq!(n, 4);
    assert_eq!(buf, vec![1, 2, 3, 4]);
    assert_eq!(o.retired, 4);
    let n = o.read(&mut buf);
    assert_eq!(n, 2);
    assert_eq!(&buf[..2], &[5, 6]);
    assert_eq!(o.retired, 6);
}

#[test]
fn stale_data_below_retired_is_ignored() {
    let mut o = RangeOrderer::new();
    o.inbound(0, vec![1u8; 4]);
    let (n, _) = read_all(&mut o, 4);
    assert_eq!(n, 4);
    // Entirely below retired: a no-op.
    o.inbound(0, vec![9u8; 4]);
    assert_eq!(o.buffered(), 0);
    assert!(o.is_empty());
    // Straddling retired: only the part past retired is kept.
    o.inbound(2, vec![8u8; 4]);
    assert_eq!(o.buffered(), 2);
    let (n, bytes) = read_all(&mut o, 10);
    assert_eq!(n, 2);
    assert_eq!(bytes, vec![8, 8]);
    assert_eq!(o.retired, 6);
}

#[test]
fn retired_never_decreases() {
    let mut o = RangeOrderer::new();
    o.inbound(0, vec![1u8; 8]);
    let mut last = o.retired;
    let mut buf = vec![0u8; 3];
    for _ in 0..5 {
        o.inbound(0, vec![1u8; 8]);
        assert!(o.retired >= last);
        last = o.retired;
        let _ = o.read(&mut buf);
        assert!(o.retired >= last);
        last = o.retired;
    }
    assert_eq!(o.retired, 8);
}

#[test]
fn overlap_trims_keep_first_delivery_up_to_gap() {
    // A range overlapping the tail of a held range is trimmed; the new
    // bytes fill only what was missing.
    let mut o = RangeOrderer::new();
    o.inbound(0, vec![1u8; 6]);
    o.inbound(4, vec![2u8; 6]);
    assert_eq!(o.highest_seen_offset(), 10);
    let (n, bytes) = read_all(&mut o, 10);
    assert_eq!(n, 10);
    assert_eq!(bytes, vec![1, 1, 1, 1, 1, 1, 2, 2, 2, 2]);
}

#[test]
fn new_range_fills_hole_without_touching_neighbours() {
    let mut o = RangeOrderer::new();
    o.inbound(0, vec![1u8; 2]);
    o.inbound(8, vec![3u8; 2]);
    // Covers the hole and overlaps both neighbours.
    o.inbound(1, vec![2u8; 8]);
    assert_eq!(o.bytes_ready(), 10);
    let (n, bytes) = read_all(&mut o, 10);
    assert_eq!(n, 10);
    assert_eq!(bytes, vec![1, 1, 2, 2, 2, 2, 2, 2, 3, 3]);
}

#[test]
fn ranges_at_the_top_of_the_offset_space() {
    let mut o = RangeOrderer::new();
    o.inbound(u64::MAX - 4, vec![1u8; 4]);
    assert_eq!(o.highest_seen_offset(), u64::MAX);
    assert_eq!(o.buffered(), 4);
    assert!(!o.data_ready());
}
