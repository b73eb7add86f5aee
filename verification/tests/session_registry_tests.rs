use sparkles_gui::registry::{
    decide_connect, ConnectDecision, RegistryState, SparklesAddress, UdpAddr,
};
use sparkles_gui::session::{
    build_discovered_clients, build_discovered_files, AddressedMessageFromServer, WsSessionState,
};
use sparkles_gui::skipper::EventsSkipStats;
use sparkles_gui::ChannelId;
use sparkles_gui::connection::{ClientStorage, IngestEvent};

fn udp(ip: u32, port: u16) -> UdpAddr {
    UdpAddr { ip, port }
}

fn stats() -> EventsSkipStats {
    EventsSkipStats { skipped_instant: 0, skipped_range: 0, total_instant: 0, total_range: 0 }
}

#[test]
fn session_pairs_header_and_trailer_msg_ids() {
    let mut session = WsSessionState::new();
    assert!(session.begin_range_request(9));
    let (conn, header, bytes) = session.on_frame(ChannelId::Thread(1), vec![1, 2, 3], stats());
    assert_eq!(conn, 9);
    match header {
        AddressedMessageFromServer::NewEventsHeader { channel_id, msg_id, .. } => {
            assert_eq!(channel_id, ChannelId::Thread(1));
            assert_eq!(msg_id, 0);
            // The binary frame ends with the same msg_id, little endian.
            assert_eq!(&bytes[..3], &[1, 2, 3]);
            assert_eq!(&bytes[3..], msg_id.to_le_bytes().as_slice());
        },
        _ => panic!("expected a NewEventsHeader"),
    }
    let (_, header2, bytes2) = session.on_frame(ChannelId::Thread(1), Vec::new(), stats());
    match header2 {
        AddressedMessageFromServer::NewEventsHeader { msg_id, .. } => {
            assert_eq!(msg_id, 1);
            assert_eq!(bytes2, 1u32.to_le_bytes().to_vec());
        },
        _ => panic!("expected a NewEventsHeader"),
    }
}

#[test]
fn session_refuses_a_second_range_request() {
    let mut session = WsSessionState::new();
    assert!(session.begin_range_request(1));
    assert!(!session.begin_range_request(2)); // SessionBusy
    let (conn, msg) = session.on_frames_finished();
    assert_eq!(conn, 1);
    assert!(matches!(msg, AddressedMessageFromServer::EventsFinished));
    assert!(session.begin_range_request(2));
}

#[test]
fn registry_dispenses_monotonic_ids() {
    let mut reg = RegistryState::new();
    let a = reg.new_sparkles_connection(SparklesAddress::Udp(udp(1, 10)));
    let b = reg.new_sparkles_connection(SparklesAddress::File(String::from("trace/a.sprk")));
    assert_eq!((a, b), (0, 1));
    let w = reg.new_ws_connection();
    assert_eq!(w, 0);
    reg.remove_sparkles_connection(a);
    // The id is not reused.
    let c = reg.new_sparkles_connection(SparklesAddress::Udp(udp(2, 20)));
    assert_eq!(c, 2);
}

#[test]
fn disconnect_preserves_data_and_clears_online() {
    let mut storage = ClientStorage::new();
    let events: Vec<IngestEvent> =
        (0..1_000u64).map(|tm| IngestEvent::Instant { tm, name_id: 0 }).collect();
    storage.handle_events(1, &events, 0);
    assert_eq!(storage.get_storage_stats().instant_events, 1_000);

    let mut reg = RegistryState::new();
    let id = reg.new_sparkles_connection(SparklesAddress::Udp(udp(1, 10)));
    assert!(reg.all_sparkles_connections()[0].2); // online
    reg.mark_connection_disconnected(id);
    let conns = reg.all_sparkles_connections();
    assert_eq!(conns.len(), 1);
    assert!(!conns[0].2); // offline, but still listed

    // The preserved store still answers queries with the same counts.
    assert_eq!(storage.get_storage_stats().instant_events, 1_000);
    let frames = storage.produce_range_frames(0, 2_000);
    assert_eq!(frames.len(), 1);
}

#[test]
fn connect_is_refused_for_an_active_address() {
    let active = vec![SparklesAddress::Udp(udp(1, 10))];
    let groups: Vec<Vec<UdpAddr>> = Vec::new();
    let d = decide_connect(&active, &groups, &SparklesAddress::Udp(udp(1, 10)));
    assert_eq!(d, ConnectDecision::AlreadyConnected);
    let d = decide_connect(
        &vec![SparklesAddress::File(String::from("a"))],
        &groups,
        &SparklesAddress::File(String::from("a")),
    );
    assert_eq!(d, ConnectDecision::AlreadyConnected);
}

#[test]
fn connect_is_refused_for_an_active_group_member() {
    // The client is discovered under two addresses; one is connected.
    let active = vec![SparklesAddress::Udp(udp(1, 10))];
    let groups = vec![vec![udp(1, 10), udp(1, 11)], vec![udp(2, 20)]];
    let d = decide_connect(&active, &groups, &SparklesAddress::Udp(udp(1, 11)));
    assert_eq!(d, ConnectDecision::AlreadyConnectedToClient);
    // A member of an unconnected group is accepted.
    let d = decide_connect(&active, &groups, &SparklesAddress::Udp(udp(2, 20)));
    assert_eq!(d, ConnectDecision::Accept);
    // An undiscovered address is accepted.
    let d = decide_connect(&active, &groups, &SparklesAddress::Udp(udp(9, 9)));
    assert_eq!(d, ConnectDecision::Accept);
}

#[test]
fn unknown_connection_id_has_no_address() {
    let mut reg = RegistryState::new();
    let id = reg.new_sparkles_connection(SparklesAddress::Udp(udp(1, 10)));
    assert!(reg.sparkles_connection_addr(id).is_some());
    assert!(reg.sparkles_connection_addr(id + 1).is_none()); // NoSuchConnection
}

#[test]
fn discovery_snapshot_flags_connected_entries() {
    let active = vec![
        SparklesAddress::Udp(udp(1, 10)),
        SparklesAddress::File(String::from("trace/x.sprk")),
    ];
    let discovered = vec![vec![udp(1, 10), udp(1, 11)], vec![udp(2, 20)]];
    let clients = build_discovered_clients(&discovered, &active);
    assert_eq!(clients.len(), 2);
    assert!(clients[0].connected);
    assert!(!clients[1].connected);
    assert_eq!(clients[0].addresses, discovered[0]);

    let files = vec![String::from("trace/x.sprk"), String::from("trace/y.sprk")];
    let flagged = build_discovered_files(&files, &active);
    assert!(flagged[0].connected);
    assert!(!flagged[1].connected);
    assert_eq!(flagged[1].path, "trace/y.sprk");
}

#[test]
fn general_id_distinguishes_channel_kinds() {
    assert_eq!(ChannelId::Thread(5).general_id(), 5);
    // External ids land in the upper half of the key space.
    assert_eq!(ChannelId::External(0).general_id(), u64::MAX >> 1);
    assert_eq!(ChannelId::External(1).general_id(), (u64::MAX >> 1) + 1);
    assert_eq!(
        ChannelId::External(u32::MAX).general_id(),
        (u64::MAX >> 1) + u32::MAX as u64
    );
}
