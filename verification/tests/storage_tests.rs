use sparkles_gui::storage::{ChannelEventsStorage, RangeEventStorage, StorageStats, StoredInstantEvent};

#[test]
fn instants_stay_sorted_on_monotone_inserts() {
    let mut ch = ChannelEventsStorage::new();
    ch.insert_instant_event(10, 1);
    ch.insert_instant_event(20, 2);
    ch.insert_instant_event(20, 3);
    ch.insert_instant_event(30, 4);
    let all = ch.request_instant_events(0, 100);
    let tms: Vec<u64> = all.iter().map(|e| e.tm).collect();
    assert_eq!(tms, vec![10, 20, 20, 30]);
    // Equal timestamps on the monotone path keep arrival order.
    assert_eq!(all[1].name_id, 2);
    assert_eq!(all[2].name_id, 3);
}

#[test]
fn equal_timestamps_keep_arrival_order_on_the_cold_path() {
    let mut ch = ChannelEventsStorage::new();
    ch.insert_instant_event(5, 1);
    ch.insert_instant_event(7, 2);
    // A later instant with an already-present timestamp goes through the
    // binary-search path and still lands after the stored equal.
    ch.insert_instant_event(5, 3);
    let all = ch.request_instant_events(0, 100);
    let ids: Vec<u16> = all.iter().map(|e| e.name_id).collect();
    assert_eq!(ids, vec![1, 3, 2]);
}

#[test]
fn instants_out_of_order_insert_lands_sorted() {
    let mut ch = ChannelEventsStorage::new();
    ch.insert_instant_event(100, 1);
    ch.insert_instant_event(300, 3);
    ch.insert_instant_event(200, 2);
    ch.insert_instant_event(50, 0);
    let all = ch.request_instant_events(0, 1000);
    let tms: Vec<u64> = all.iter().map(|e| e.tm).collect();
    assert_eq!(tms, vec![50, 100, 200, 300]);
}

#[test]
fn instant_query_window_is_half_open() {
    let mut ch = ChannelEventsStorage::new();
    for tm in [100u64, 200, 300, 400, 500] {
        ch.insert_instant_event(tm, 7);
    }
    let r = ch.request_instant_events(200, 400);
    let tms: Vec<u64> = r.iter().map(|e| e.tm).collect();
    assert_eq!(tms, vec![200, 300]);
    let empty = ch.request_instant_events(501, 1000);
    assert!(empty.is_empty());
    let inverted = ch.request_instant_events(400, 200);
    assert!(inverted.is_empty());
}

#[test]
fn range_query_yields_overlaps_in_start_order() {
    let mut ch = ChannelEventsStorage::new();
    ch.insert_range_event(0, 100, 1, None, None);
    ch.insert_range_event(150, 200, 2, None, None);
    ch.insert_range_event(10, 50, 3, None, None);
    let r = ch.request_range_events(0, 1000);
    let starts: Vec<u64> = r.iter().map(|e| e.start).collect();
    assert_eq!(starts, vec![0, 10, 150]);
    // Window [40, 160): the first two overlap, the third starts at 150 < 160.
    let r = ch.request_range_events(40, 160);
    let ids: Vec<u16> = r.iter().map(|e| e.name_id).collect();
    assert_eq!(ids, vec![1, 3, 2]);
    // Window past everything.
    let r = ch.request_range_events(200, 1000);
    assert!(r.is_empty());
}

#[test]
fn range_query_equal_starts_keep_insertion_order() {
    let mut st: RangeEventStorage<()> = RangeEventStorage::new();
    st.insert_simple(5, 10, 1, None);
    st.insert_simple(5, 20, 2, None);
    st.insert_simple(5, 30, 3, None);
    let r = st.request_events_simple(0, 100);
    let ids: Vec<u16> = r.iter().map(|e| e.name_id).collect();
    assert_eq!(ids, vec![1, 2, 3]);
}

#[test]
fn range_query_edge_policy_on_zero_length() {
    let mut ch = ChannelEventsStorage::new();
    ch.insert_range_event(5, 5, 1, None, None);
    // Inside the window: start 5 < 10 and end 5 > 0.
    assert_eq!(ch.request_range_events(0, 10).len(), 1);
    // At the window start: end 5 is not greater than 5, so excluded.
    assert_eq!(ch.request_range_events(5, 10).len(), 0);
    // At the window end: start 5 is not below 5, so excluded.
    assert_eq!(ch.request_range_events(0, 5).len(), 0);
}

#[test]
fn cross_thread_ranges_are_kept_apart() {
    let mut ch = ChannelEventsStorage::new();
    ch.insert_range_event(1, 2, 1, None, None);
    ch.insert_range_event(3, 4, 2, Some(9), Some(42));
    let local = ch.request_range_events(0, 10);
    let cross = ch.request_cross_thread_range_events(0, 10);
    assert_eq!(local.len(), 1);
    assert_eq!(cross.len(), 1);
    assert_eq!(cross[0].extra, 42);
    assert_eq!(cross[0].end_name_id, Some(9));
}

#[test]
fn storage_stats_add_sums_fields() {
    let a = StorageStats { instant_events: 3, range_events: 4 };
    let b = StorageStats { instant_events: 10, range_events: 20 };
    let c = a.add(b);
    assert_eq!(c.instant_events, 13);
    assert_eq!(c.range_events, 24);
    let d: StorageStats = Default::default();
    assert_eq!(d.instant_events, 0);
    assert_eq!(d.range_events, 0);
}

#[test]
fn stored_instant_event_new_sets_fields() {
    let e = StoredInstantEvent::new(17, 4);
    assert_eq!(e.tm, 17);
    assert_eq!(e.name_id, 4);
}
