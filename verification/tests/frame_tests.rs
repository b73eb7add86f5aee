use sparkles_gui::decimate::{PlacedRange, RangeEventType};
use sparkles_gui::frame::{
    build_frame, decode_frame, decode_instant_section, decode_range_section,
    encode_instant_section, encode_range_sections,
};
use sparkles_gui::storage::StoredInstantEvent;

#[test]
fn empty_frame_is_three_zero_lengths() {
    let frame = build_frame(&Vec::new(), &Vec::new(), &Vec::new());
    assert_eq!(frame, vec![0u8; 12]);
    let (a, b, c) = decode_frame(&frame).unwrap();
    assert!(a.is_empty() && b.is_empty() && c.is_empty());
}

#[test]
fn instant_record_is_eleven_bytes() {
    let kept = vec![
        StoredInstantEvent { tm: 100, name_id: 7 },
        StoredInstantEvent { tm: 200, name_id: 7 },
        StoredInstantEvent { tm: 300, name_id: 7 },
        StoredInstantEvent { tm: 400, name_id: 7 },
        StoredInstantEvent { tm: 500, name_id: 7 },
    ];
    let buf = encode_instant_section(&kept, 1);
    assert_eq!(buf.len(), 55);
    // First record: u64 tm | u16 name_id | u8 y, little endian.
    assert_eq!(&buf[0..8], 100u64.to_le_bytes().as_slice());
    assert_eq!(&buf[8..10], 7u16.to_le_bytes().as_slice());
    assert_eq!(buf[10], 1);
}

#[test]
fn instant_section_round_trips() {
    let kept = vec![
        StoredInstantEvent { tm: 1, name_id: 10 },
        StoredInstantEvent { tm: u64::MAX, name_id: u16::MAX },
    ];
    let buf = encode_instant_section(&kept, 3);
    let decoded = decode_instant_section(&buf).unwrap();
    assert_eq!(decoded.len(), 2);
    assert_eq!(decoded[0].0.tm, 1);
    assert_eq!(decoded[0].0.name_id, 10);
    assert_eq!(decoded[0].1, 3);
    assert_eq!(decoded[1].0.tm, u64::MAX);
    assert_eq!(decoded[1].0.name_id, u16::MAX);
}

#[test]
fn truncated_instant_section_is_rejected() {
    let kept = vec![StoredInstantEvent { tm: 5, name_id: 1 }];
    let mut buf = encode_instant_section(&kept, 0);
    buf.pop();
    assert!(decode_instant_section(&buf).is_none());
}

#[test]
fn range_sections_round_trip_both_end_name_branches() {
    let placed = vec![
        PlacedRange { ev: RangeEventType::Local(1, 9, 2, None), y: 0 },
        PlacedRange { ev: RangeEventType::Local(3, 12, 4, Some(6)), y: 1 },
        PlacedRange { ev: RangeEventType::CrossThread(5, 20, 8, Some(300), 42), y: 2 },
        PlacedRange { ev: RangeEventType::CrossThread(7, 21, 9, None, 43), y: 3 },
    ];
    let (local_buf, cross_buf) = encode_range_sections(&placed);
    // Records without an end name are one byte shorter (0xFF marker).
    assert_eq!(local_buf.len(), 20 + 21);
    assert_eq!(cross_buf.len(), 29 + 28);

    let locals = decode_range_section(&local_buf, false).unwrap();
    assert_eq!(locals.len(), 2);
    assert!(matches!(locals[0].ev, RangeEventType::Local(1, 9, 2, None)));
    assert_eq!(locals[0].y, 0);
    assert!(matches!(locals[1].ev, RangeEventType::Local(3, 12, 4, Some(6))));
    assert_eq!(locals[1].y, 1);

    let crosses = decode_range_section(&cross_buf, true).unwrap();
    assert_eq!(crosses.len(), 2);
    assert!(matches!(crosses[0].ev, RangeEventType::CrossThread(5, 20, 8, Some(300), 42)));
    assert_eq!(crosses[0].y, 2);
    assert!(matches!(crosses[1].ev, RangeEventType::CrossThread(7, 21, 9, None, 43)));
    assert_eq!(crosses[1].y, 3);
}

#[test]
fn truncated_range_section_is_rejected() {
    let placed = vec![PlacedRange { ev: RangeEventType::Local(1, 2, 3, Some(4)), y: 0 }];
    let (mut local_buf, _) = encode_range_sections(&placed);
    local_buf.pop();
    assert!(decode_range_section(&local_buf, false).is_none());
}

#[test]
fn frame_splits_into_its_sections() {
    let instants = vec![1u8, 2, 3];
    let local = vec![4u8, 5];
    let cross = vec![6u8];
    let frame = build_frame(&instants, &local, &cross);
    assert_eq!(frame.len(), 12 + 6);
    let (a, b, c) = decode_frame(&frame).unwrap();
    assert_eq!(a, instants);
    assert_eq!(b, local);
    assert_eq!(c, cross);
}

#[test]
fn frame_with_leftover_bytes_is_rejected() {
    let mut frame = build_frame(&vec![1u8], &Vec::new(), &Vec::new());
    frame.push(0);
    assert!(decode_frame(&frame).is_none());
    assert!(decode_frame(&vec![0u8, 0, 0]).is_none());
}
