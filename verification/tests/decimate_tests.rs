use sparkles_gui::decimate::{
    max_range_y, merge_range_events, place_ranges, process_range_events, RangeEventType,
};
use sparkles_gui::skipper::{EventSkipper, EventSkippingProcessor};
use sparkles_gui::storage::StoredRangeEvent;
use sparkles_gui::MAX_EV_CNT;

fn local(start: u64, end: u64, name_id: u16) -> StoredRangeEvent<()> {
    StoredRangeEvent { start, end, name_id, end_name_id: None, extra: () }
}

fn cross(start: u64, end: u64, name_id: u16, origin: u64) -> StoredRangeEvent<u64> {
    StoredRangeEvent { start, end, name_id, end_name_id: None, extra: origin }
}

#[test]
fn skipper_ratio_when_too_many_events() {
    let sk = EventSkipper::new(100, 50_000, 200_000);
    assert_eq!(sk.keep_cnt, 1);
    assert_eq!(sk.skip_cnt, 4); // ceil(200_000 / 50_000)
    assert_eq!(sk.cycle_len, 5);
}

#[test]
fn skipper_ratio_when_few_events() {
    let sk = EventSkipper::new(100, 50_000, 100);
    assert_eq!(sk.keep_cnt, 500); // 50_000 / 100
    assert_eq!(sk.skip_cnt, 1);
    assert_eq!(sk.cycle_len, 501);
}

#[test]
fn skipper_ratio_when_no_events() {
    let sk = EventSkipper::new(100, 50_000, 0);
    assert_eq!(sk.keep_cnt, 1);
    assert_eq!(sk.skip_cnt, 1);
    assert_eq!(sk.cycle_len, 2);
}

#[test]
fn far_apart_instants_are_always_kept() {
    let mut sk = EventSkipper::new(10, 1, 1_000_000);
    for _ in 0..100 {
        assert!(sk.should_keep_instant(10)); // gap == threshold: kept
        assert!(sk.should_keep_instant(11));
    }
    assert_eq!(sk.skipped_count(), 0);
    assert_eq!(sk.total_count(), 200);
}

#[test]
fn dense_instants_follow_the_cycle() {
    // total 10 > max 2: keep 1, skip ceil(10/2)=5, cycle 6.
    let mut sk = EventSkipper::new(100, 2, 10);
    let decisions: Vec<bool> = (0..12).map(|_| sk.should_keep_instant(1)).collect();
    assert_eq!(
        decisions,
        vec![true, false, false, false, false, false, true, false, false, false, false, false]
    );
    assert_eq!(sk.total_count(), 12);
    assert_eq!(sk.skipped_count(), 10);
}

#[test]
fn range_is_kept_when_long_even_if_close() {
    let mut sk = EventSkipper::new(100, 1, 1_000_000);
    // duration >= threshold: kept regardless of the cycle.
    for _ in 0..50 {
        assert!(sk.should_keep_range(0, 100));
    }
    // both below threshold: the cycle decides (keep 1 of each cycle).
    assert!(sk.should_keep_range(1, 1));
    assert!(!sk.should_keep_range(1, 1));
}

#[test]
fn skipper_reset_clears_state() {
    let mut sk = EventSkipper::new(0, 5, 100);
    sk.should_keep_instant(0);
    sk.reset();
    assert_eq!(sk.skipped_count(), 0);
    assert_eq!(sk.total_count(), 0);
    assert_eq!(sk.counter, 0);
}

#[test]
fn merge_orders_by_start_with_local_first_on_ties() {
    let locals = vec![local(5, 15, 1), local(30, 40, 2)];
    let crosses = vec![cross(5, 20, 3, 42), cross(10, 12, 4, 7)];
    let merged = merge_range_events(&locals, &crosses);
    assert_eq!(merged.len(), 4);
    assert!(matches!(merged[0], RangeEventType::Local(5, 15, 1, None)));
    assert!(matches!(merged[1], RangeEventType::CrossThread(5, 20, 3, None, 42)));
    assert!(matches!(merged[2], RangeEventType::CrossThread(10, 12, 4, None, 7)));
    assert!(matches!(merged[3], RangeEventType::Local(30, 40, 2, None)));
}

#[test]
fn lane_assignment_is_first_fit() {
    // The overlap pattern (0,100),(10,50),(20,30),(150,200) stacks three
    // lanes and then reuses lane 0 after everything expires.
    let locals = vec![local(0, 100, 1), local(10, 50, 1), local(20, 30, 1), local(150, 200, 1)];
    let crosses: Vec<StoredRangeEvent<u64>> = Vec::new();
    let merged = merge_range_events(&locals, &crosses);
    let mut proc = EventSkippingProcessor::new(0, MAX_EV_CNT, 0, 4);
    let placed = place_ranges(&merged, &mut proc, 0);
    let lanes: Vec<u8> = placed.iter().map(|p| p.y).collect();
    assert_eq!(lanes, vec![0, 1, 2, 0]);
    assert_eq!(max_range_y(&placed), 2);
}

#[test]
fn process_range_events_encodes_both_classes() {
    let locals = vec![local(5, 15, 1)];
    let crosses = vec![cross(5, 20, 2, 42)];
    let mut proc = EventSkippingProcessor::new(0, MAX_EV_CNT, 0, 2);
    let (local_buf, cross_buf, max_y) = process_range_events(&locals, &crosses, &mut proc, 0);
    // local record: 8 + 8 + 2 + 1 (absence marker) + 1 = 20 bytes
    assert_eq!(local_buf.len(), 20);
    // cross record adds the 8-byte origin thread id
    assert_eq!(cross_buf.len(), 28);
    // the cross range overlaps the local one, so it takes lane 1
    assert_eq!(max_y, 1);
    // the cross record's last 8 bytes hold the origin thread id 42
    let tid_bytes = &cross_buf[20..28];
    assert_eq!(tid_bytes, 42u64.to_le_bytes().as_slice());
    let (_, _, total_instant, total_range) = proc.get_stats();
    assert_eq!(total_instant, 0);
    assert_eq!(total_range, 2);
}
