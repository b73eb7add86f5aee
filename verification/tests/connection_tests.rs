use sparkles_gui::connection::{ClientStorage, IngestEvent, PendingRequests};
use sparkles_gui::frame::{decode_frame, decode_instant_section, decode_range_section};
use sparkles_gui::ChannelId;
use sparkles_gui::MAX_EV_CNT;

fn instant(tm: u64, name_id: u16) -> IngestEvent {
    IngestEvent::Instant { tm, name_id }
}

fn range(start: u64, end: u64, name_id: u16) -> IngestEvent {
    IngestEvent::Range { start, end, name_id, end_name_id: None, start_thread_ord_id: None }
}

#[test]
fn empty_store_wide_query_gives_no_frames() {
    let storage = ClientStorage::new();
    let frames = storage.produce_range_frames(0, 1_000_000);
    assert!(frames.is_empty());
    assert!(storage.get_connection_timestamps(0).is_none());
}

#[test]
fn single_channel_instants_decimation_inactive() {
    let mut storage = ClientStorage::new();
    let events: Vec<IngestEvent> = [100u64, 200, 300, 400, 500]
        .iter()
        .map(|&tm| instant(tm, 7))
        .collect();
    storage.handle_events(1, &events, 1_000);
    let frames = storage.produce_range_frames(0, 1000);
    assert_eq!(frames.len(), 1);
    let (id, frame, stats) = &frames[0];
    assert_eq!(*id, ChannelId::Thread(1));
    let (instants, local, cross) = decode_frame(frame).unwrap();
    assert!(local.is_empty() && cross.is_empty());
    // All five instants kept, 11 bytes each, on lane max_range_y + 1 == 1.
    assert_eq!(instants.len(), 55);
    let decoded = decode_instant_section(&instants).unwrap();
    assert_eq!(decoded.len(), 5);
    for (k, (ev, y)) in decoded.iter().enumerate() {
        assert_eq!(ev.tm, 100 * (k as u64 + 1));
        assert_eq!(ev.name_id, 7);
        assert_eq!(*y, 1);
    }
    assert_eq!(stats.skipped_instant, 0);
    assert_eq!(stats.total_instant, 5); // every instant in the window
}

#[test]
fn lane_assignment_end_to_end() {
    let mut storage = ClientStorage::new();
    let events = vec![range(0, 100, 1), range(10, 50, 1), range(20, 30, 1), range(150, 200, 1)];
    storage.handle_events(3, &events, 0);
    let frames = storage.produce_range_frames(0, 1000);
    assert_eq!(frames.len(), 1);
    let (_, frame, _) = &frames[0];
    let (instants, local, cross) = decode_frame(frame).unwrap();
    assert!(instants.is_empty() && cross.is_empty());
    let decoded = decode_range_section(&local, false).unwrap();
    let lanes: Vec<u8> = decoded.iter().map(|p| p.y).collect();
    assert_eq!(lanes, vec![0, 1, 2, 0]);
}

#[test]
fn cross_thread_merge_ordering() {
    let mut storage = ClientStorage::new();
    let events = vec![
        range(5, 15, 1),
        IngestEvent::Range {
            start: 5,
            end: 20,
            name_id: 2,
            end_name_id: None,
            start_thread_ord_id: Some(42),
        },
    ];
    storage.handle_events(1, &events, 0);
    let frames = storage.produce_range_frames(0, 1_000);
    let (_, frame, _) = &frames[0];
    let (_, local, cross) = decode_frame(frame).unwrap();
    let locals = decode_range_section(&local, false).unwrap();
    let crosses = decode_range_section(&cross, true).unwrap();
    assert_eq!(locals.len(), 1);
    assert_eq!(crosses.len(), 1);
    // The tie at start 5 places the local range first: it gets lane 0, the
    // cross-thread range lane 1; the cross record carries origin 42.
    assert_eq!(locals[0].y, 0);
    assert_eq!(crosses[0].y, 1);
    assert_eq!(&cross[cross.len() - 8..], 42u64.to_le_bytes().as_slice());
}

#[test]
fn dense_decimation_respects_the_cap() {
    let mut storage = ClientStorage::new();
    let events: Vec<IngestEvent> = (0..200_000u64).map(|tm| instant(tm, 1)).collect();
    storage.handle_events(1, &events, 0);
    let frames = storage.produce_range_frames(0, 200_000);
    let (_, frame, stats) = &frames[0];
    let (instants, _, _) = decode_frame(frame).unwrap();
    let kept = decode_instant_section(&instants).unwrap().len();
    // skip_thr = 100, every gap is 1: the cycle keeps 1 of 5 decisions, and
    // the final instant is always flushed.
    assert_eq!(stats.total_instant, 200_000);
    assert_eq!(stats.skipped_instant, 159_999);
    assert_eq!(kept, 40_001);
    assert!(kept <= MAX_EV_CNT);
}

#[test]
fn timestamps_cover_all_batches() {
    let mut storage = ClientStorage::new();
    storage.handle_events(1, &vec![instant(500, 1)], 10);
    storage.handle_events(1, &vec![instant(100, 1), range(200, 900, 2)], 20);
    storage.handle_events(2, &vec![instant(700, 1)], 30);
    let (min_tm, max_tm, current) = storage.get_connection_timestamps(35).unwrap();
    assert_eq!(min_tm, 100);
    assert_eq!(max_tm, 900);
    // last sync was (30, 700); five nanoseconds later the producer clock
    // extrapolates to 705.
    assert_eq!(current, 705);
}

#[test]
fn empty_batch_leaves_timestamps_alone() {
    let mut storage = ClientStorage::new();
    storage.handle_events(1, &Vec::new(), 10);
    assert!(storage.get_connection_timestamps(10).is_none());
    storage.handle_events(1, &vec![instant(5, 0)], 20);
    storage.handle_events(1, &Vec::new(), 30);
    let (min_tm, max_tm, _) = storage.get_connection_timestamps(20).unwrap();
    assert_eq!((min_tm, max_tm), (5, 5));
}

#[test]
fn external_events_canonicalize_matching_end_names() {
    let mut storage = ClientStorage::new();
    let events = vec![
        IngestEvent::Range {
            start: 1,
            end: 2,
            name_id: 7,
            end_name_id: Some(7),
            start_thread_ord_id: None,
        },
        IngestEvent::Range {
            start: 3,
            end: 4,
            name_id: 7,
            end_name_id: Some(8),
            start_thread_ord_id: None,
        },
    ];
    storage.handle_external_events(2, &events, 0);
    let frames = storage.produce_range_frames(0, 100);
    assert_eq!(frames.len(), 1);
    assert_eq!(frames[0].0, ChannelId::External(2));
    let (_, local, _) = decode_frame(&frames[0].1).unwrap();
    let decoded = decode_range_section(&local, false).unwrap();
    assert_eq!(decoded[0].ev.end_name_id(), None);
    assert_eq!(decoded[1].ev.end_name_id(), Some(8));
}

#[test]
fn storage_stats_count_across_channels() {
    let mut storage = ClientStorage::new();
    storage.handle_events(1, &vec![instant(1, 0), instant(2, 0)], 0);
    storage.handle_events(2, &vec![range(1, 2, 0)], 0);
    storage.handle_external_events(1, &vec![instant(3, 0)], 0);
    let stats = storage.get_storage_stats();
    assert_eq!(stats.instant_events, 3);
    assert_eq!(stats.range_events, 1);
}

#[test]
fn channel_names_upsert_and_snapshot() {
    let mut storage = ClientStorage::new();
    storage.set_channel_name(ChannelId::Thread(1), String::from("worker"));
    storage.set_channel_name(ChannelId::Thread(1), String::from("renamed"));
    storage.set_channel_name(ChannelId::External(2), String::from("gpu"));
    let names = storage.channel_names_snapshot();
    assert_eq!(names.len(), 2);
    assert_eq!(names[0].0, ChannelId::Thread(1));
    assert_eq!(names[0].1, "renamed");
    assert_eq!(names[1].0, ChannelId::External(2));
    assert_eq!(names[1].1, "gpu");
}

#[test]
fn event_names_replace_wholesale() {
    let mut storage = ClientStorage::new();
    storage.update_event_names(ChannelId::Thread(1), vec![(0, String::from("a"))]);
    storage.update_event_names(
        ChannelId::Thread(1),
        vec![(1, String::from("b")), (2, String::from("c"))],
    );
    let names = storage.get_event_names(ChannelId::Thread(1)).unwrap();
    assert_eq!(names.len(), 2);
    assert_eq!(names[0], (1, String::from("b")));
    assert!(storage.get_event_names(ChannelId::Thread(9)).is_none());
}

#[test]
fn pending_requests_last_write_wins_per_session() {
    let mut q = PendingRequests::new();
    q.insert_request(1, 0, 10);
    q.insert_request(2, 5, 15);
    q.insert_request(1, 100, 200);
    let first = q.take_next().unwrap();
    assert_eq!(first, (1, 100, 200));
    let second = q.take_next().unwrap();
    assert_eq!(second, (2, 5, 15));
    assert!(q.take_next().is_none());
    // A request that could not reserve reply permits goes back for retry.
    q.push_back_retry(second.0, second.1, second.2);
    assert_eq!(q.take_next().unwrap(), (2, 5, 15));
}
