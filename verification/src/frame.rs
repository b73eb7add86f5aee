//! The wire frame for one channel of a range response: three length-prefixed
//! little-endian sections (instants, local ranges, cross-thread ranges), and
//! a decoder for the same grammar that inverts the encoder.

use vstd::prelude::*;
use vstd::bytes::{
    spec_u16_from_le_bytes, spec_u16_to_le_bytes, spec_u32_from_le_bytes, spec_u32_to_le_bytes,
    spec_u64_from_le_bytes, spec_u64_to_le_bytes, u16_from_le_bytes, u16_to_le_bytes,
    u32_from_le_bytes, u32_to_le_bytes, u64_from_le_bytes, u64_to_le_bytes,
    lemma_auto_spec_u16_to_from_le_bytes, lemma_auto_spec_u32_to_from_le_bytes,
    lemma_auto_spec_u64_to_from_le_bytes,
};
use crate::decimate::{PlacedRange, RangeEventType};
use crate::storage::StoredInstantEvent;

verus! {

/// One instant on the wire: `u64 tm | u16 name_id | u8 y` (11 bytes).
pub open spec fn instant_record(ev: StoredInstantEvent, y: u8) -> Seq<u8> {
    spec_u64_to_le_bytes(ev.tm) + spec_u16_to_le_bytes(ev.name_id) + seq![y]
}

/// A run of instant records sharing one lane.
pub open spec fn instants_bytes(evs: Seq<StoredInstantEvent>, y: u8) -> Seq<u8>
    decreases evs.len(),
{
    if evs.len() == 0 {
        Seq::empty()
    } else {
        instant_record(evs[0], y) + instants_bytes(evs.drop_first(), y)
    }
}

/// The end-name field: the two-byte id when present, else the single
/// absence marker `0xFF`.
pub open spec fn end_name_bytes(e: Option<u16>) -> Seq<u8> {
    match e {
        Some(id) => spec_u16_to_le_bytes(id),
        None => seq![255u8],
    }
}

/// One range on the wire: `u64 start | u64 end | u16 name_id |
/// {u16 end_name_id | 0xFF} | u8 y`, followed by the `u64` origin thread id
/// for cross-thread ranges.
pub open spec fn range_record(pr: PlacedRange) -> Seq<u8> {
    spec_u64_to_le_bytes(pr.ev.spec_start_time()) + spec_u64_to_le_bytes(pr.ev.spec_end_time())
        + spec_u16_to_le_bytes(pr.ev.spec_name_id()) + end_name_bytes(pr.ev.spec_end_name_id())
        + seq![pr.y] + (match pr.ev.spec_cross_thread_id() {
        Some(tid) => spec_u64_to_le_bytes(tid),
        None => Seq::empty(),
    })
}

/// The section for one class: the records of the placed ranges of that
/// class, in order.
pub open spec fn ranges_bytes(placed: Seq<PlacedRange>, cross: bool) -> Seq<u8>
    decreases placed.len(),
{
    if placed.len() == 0 {
        Seq::empty()
    } else {
        (if placed[0].ev.spec_cross_thread_id() is Some == cross {
            range_record(placed[0])
        } else {
            Seq::empty()
        }) + ranges_bytes(placed.drop_first(), cross)
    }
}

/// The whole frame: each section preceded by its `u32` byte length.
pub open spec fn frame_bytes(instants: Seq<u8>, local: Seq<u8>, cross: Seq<u8>) -> Seq<u8> {
    spec_u32_to_le_bytes(instants.len() as u32) + instants + spec_u32_to_le_bytes(
        local.len() as u32,
    ) + local + spec_u32_to_le_bytes(cross.len() as u32) + cross
}

/// Decoding of an instant section; `None` on any length mismatch.
pub open spec fn spec_decode_instants(b: Seq<u8>) -> Option<Seq<(StoredInstantEvent, u8)>>
    decreases b.len(),
{
    if b.len() == 0 {
        Some(Seq::empty())
    } else if b.len() < 11 {
        None
    } else {
        let tm = spec_u64_from_le_bytes(b.subrange(0, 8));
        let name_id = spec_u16_from_le_bytes(b.subrange(8, 10));
        let y = b[10];
        match spec_decode_instants(b.skip(11)) {
            Some(rest) => Some(seq![(StoredInstantEvent { tm, name_id }, y)] + rest),
            None => None,
        }
    }
}

/// Decoding of a range section of one class; the end-name field is read as
/// absent exactly when its first byte is the `0xFF` marker.
pub open spec fn spec_decode_ranges(b: Seq<u8>, cross: bool) -> Option<Seq<PlacedRange>>
    decreases b.len(),
{
    if b.len() == 0 {
        Some(Seq::empty())
    } else if b.len() < 19 {
        None
    } else {
        let has_end_name = b[18] != 255;
        let rec_len: int = (if cross {
            27int
        } else {
            19int
        }) + (if has_end_name {
            2int
        } else {
            1int
        });
        if b.len() < rec_len {
            None
        } else {
            let start = spec_u64_from_le_bytes(b.subrange(0, 8));
            let end = spec_u64_from_le_bytes(b.subrange(8, 16));
            let name_id = spec_u16_from_le_bytes(b.subrange(16, 18));
            let end_name_id: Option<u16> = if has_end_name {
                Some(spec_u16_from_le_bytes(b.subrange(18, 20)))
            } else {
                None
            };
            let y_pos: int = if has_end_name {
                20
            } else {
                19
            };
            let y = b[y_pos];
            let ev = if cross {
                RangeEventType::CrossThread(
                    start,
                    end,
                    name_id,
                    end_name_id,
                    spec_u64_from_le_bytes(b.subrange(y_pos + 1, y_pos + 9)),
                )
            } else {
                RangeEventType::Local(start, end, name_id, end_name_id)
            };
            match spec_decode_ranges(b.skip(rec_len), cross) {
                Some(rest) => Some(seq![PlacedRange { ev, y }] + rest),
                None => None,
            }
        }
    }
}

/// Splitting a frame into its three sections; `None` when a length prefix
/// runs past the end or bytes are left over.
pub open spec fn spec_split_frame(b: Seq<u8>) -> Option<(Seq<u8>, Seq<u8>, Seq<u8>)> {
    if b.len() < 4 {
        None
    } else {
        let n1 = spec_u32_from_le_bytes(b.subrange(0, 4)) as int;
        if b.len() < 4 + n1 + 4 {
            None
        } else {
            let s1 = b.subrange(4, 4 + n1);
            let n2 = spec_u32_from_le_bytes(b.subrange(4 + n1, 8 + n1)) as int;
            if b.len() < 8 + n1 + n2 + 4 {
                None
            } else {
                let s2 = b.subrange(8 + n1, 8 + n1 + n2);
                let n3 = spec_u32_from_le_bytes(b.subrange(8 + n1 + n2, 12 + n1 + n2)) as int;
                if b.len() != 12 + n1 + n2 + n3 {
                    None
                } else {
                    Some((s1, s2, b.subrange(12 + n1 + n2, 12 + n1 + n2 + n3)))
                }
            }
        }
    }
}

/// The end-name field of every kept range can be told apart from the
/// absence marker: when present, its first encoded byte is not `0xFF`.
pub open spec fn end_name_unambiguous(placed: Seq<PlacedRange>) -> bool {
    forall|i: int|
        0 <= i < placed.len() ==> match (#[trigger] placed[i]).ev.spec_end_name_id() {
            Some(id) => spec_u16_to_le_bytes(id)[0] != 255,
            None => true,
        }
}

/// Serializes the kept instants of one channel, all on the instant lane.
pub fn encode_instant_section(kept: &Vec<StoredInstantEvent>, y: u8) -> (r: Vec<u8>)
    ensures
        r@ == instants_bytes(kept@, y),
{
    let mut r: Vec<u8> = Vec::new();
    let mut i: usize = 0;
    let n = kept.len();
    proof {
        assert(kept@.skip(0) =~= kept@);
    }
    while i < n
        invariant
            0 <= i <= n == kept@.len(),
            instants_bytes(kept@, y) == r@ + instants_bytes(kept@.skip(i as int), y),
        decreases n - i,
    {
        proof {
            assert(kept@.skip(i as int)[0] == kept@[i as int]);
            assert(kept@.skip(i as int).drop_first() =~= kept@.skip(i as int + 1));
        }
        let ghost old_r = r@;
        let ev = kept[i];
        let mut tm_bytes = u64_to_le_bytes(ev.tm);
        r.append(&mut tm_bytes);
        let mut id_bytes = u16_to_le_bytes(ev.name_id);
        r.append(&mut id_bytes);
        r.push(y);
        proof {
            assert(r@ =~= old_r + instant_record(kept@[i as int], y));
            assert(old_r + (instant_record(kept@[i as int], y) + instants_bytes(
                kept@.skip(i as int + 1),
                y,
            )) =~= r@ + instants_bytes(kept@.skip(i as int + 1), y));
        }
        i = i + 1;
    }
    proof {
        assert(kept@.skip(n as int) =~= Seq::<StoredInstantEvent>::empty());
        assert(r@ + instants_bytes(kept@.skip(n as int), y) =~= r@);
    }
    r
}

/// Serializes the placed ranges, local and cross-thread classes into their
/// own buffers, in placement order.
pub fn encode_range_sections(placed: &Vec<PlacedRange>) -> (r: (Vec<u8>, Vec<u8>))
    ensures
        r.0@ == ranges_bytes(placed@, false),
        r.1@ == ranges_bytes(placed@, true),
{
    let mut local_buf: Vec<u8> = Vec::new();
    let mut cross_buf: Vec<u8> = Vec::new();
    let mut i: usize = 0;
    let n = placed.len();
    proof {
        assert(placed@.skip(0) =~= placed@);
    }
    while i < n
        invariant
            0 <= i <= n == placed@.len(),
            ranges_bytes(placed@, false) == local_buf@ + ranges_bytes(
                placed@.skip(i as int),
                false,
            ),
            ranges_bytes(placed@, true) == cross_buf@ + ranges_bytes(placed@.skip(i as int), true),
        decreases n - i,
    {
        proof {
            assert(placed@.skip(i as int)[0] == placed@[i as int]);
            assert(placed@.skip(i as int).drop_first() =~= placed@.skip(i as int + 1));
        }
        let pr = placed[i];
        let ghost old_local = local_buf@;
        let ghost old_cross = cross_buf@;
        let is_cross = match pr.ev {
            RangeEventType::Local(_, _, _, _) => false,
            RangeEventType::CrossThread(_, _, _, _, _) => true,
        };
        let buf: &mut Vec<u8> = if is_cross {
            &mut cross_buf
        } else {
            &mut local_buf
        };
        let mut start_bytes = u64_to_le_bytes(pr.ev.start_time());
        buf.append(&mut start_bytes);
        let mut end_bytes = u64_to_le_bytes(pr.ev.end_time());
        buf.append(&mut end_bytes);
        let mut name_bytes = u16_to_le_bytes(pr.ev.name_id());
        buf.append(&mut name_bytes);
        match pr.ev.end_name_id() {
            Some(end_id) => {
                let mut end_id_bytes = u16_to_le_bytes(end_id);
                buf.append(&mut end_id_bytes);
            },
            None => {
                buf.push(255);
            },
        }
        buf.push(pr.y);
        match pr.ev.cross_thread_id() {
            Some(tid) => {
                let mut tid_bytes = u64_to_le_bytes(tid);
                buf.append(&mut tid_bytes);
            },
            None => {},
        }
        proof {
            if is_cross {
                assert(cross_buf@ =~= old_cross + range_record(placed@[i as int]));
                assert(old_cross + (range_record(placed@[i as int]) + ranges_bytes(
                    placed@.skip(i as int + 1),
                    true,
                )) =~= cross_buf@ + ranges_bytes(placed@.skip(i as int + 1), true));
                assert(old_local + (Seq::<u8>::empty() + ranges_bytes(
                    placed@.skip(i as int + 1),
                    false,
                )) =~= local_buf@ + ranges_bytes(placed@.skip(i as int + 1), false));
            } else {
                assert(local_buf@ =~= old_local + range_record(placed@[i as int]));
                assert(old_local + (range_record(placed@[i as int]) + ranges_bytes(
                    placed@.skip(i as int + 1),
                    false,
                )) =~= local_buf@ + ranges_bytes(placed@.skip(i as int + 1), false));
                assert(old_cross + (Seq::<u8>::empty() + ranges_bytes(
                    placed@.skip(i as int + 1),
                    true,
                )) =~= cross_buf@ + ranges_bytes(placed@.skip(i as int + 1), true));
            }
        }
        i = i + 1;
    }
    proof {
        assert(placed@.skip(n as int) =~= Seq::<PlacedRange>::empty());
        assert(local_buf@ + ranges_bytes(placed@.skip(n as int), false) =~= local_buf@);
        assert(cross_buf@ + ranges_bytes(placed@.skip(n as int), true) =~= cross_buf@);
    }
    (local_buf, cross_buf)
}

/// Assembles the three length-prefixed sections into one frame.
pub fn build_frame(instants: &Vec<u8>, local: &Vec<u8>, cross: &Vec<u8>) -> (r: Vec<u8>)
    requires
        instants@.len() < 0x1_0000_0000,
        local@.len() < 0x1_0000_0000,
        cross@.len() < 0x1_0000_0000,
    ensures
        r@ == frame_bytes(instants@, local@, cross@),
{
    let mut r: Vec<u8> = Vec::new();
    let mut len_bytes = u32_to_le_bytes(instants.len() as u32);
    r.append(&mut len_bytes);
    r.extend_from_slice(instants.as_slice());
    let mut len_bytes = u32_to_le_bytes(local.len() as u32);
    r.append(&mut len_bytes);
    r.extend_from_slice(local.as_slice());
    let mut len_bytes = u32_to_le_bytes(cross.len() as u32);
    r.append(&mut len_bytes);
    r.extend_from_slice(cross.as_slice());
    proof {
        assert(r@ =~= frame_bytes(instants@, local@, cross@));
    }
    r
}

/// Law (round trip, instants): decoding an encoded instant section yields
/// exactly the kept instants with their lane.
pub proof fn lemma_instants_round_trip(evs: Seq<StoredInstantEvent>, y: u8)
    ensures
        spec_decode_instants(instants_bytes(evs, y)) == Some(
            evs.map(|_i: int, e: StoredInstantEvent| (e, y)),
        ),
    decreases evs.len(),
{
    lemma_auto_spec_u64_to_from_le_bytes();
    lemma_auto_spec_u16_to_from_le_bytes();
    let b = instants_bytes(evs, y);
    let mapped = evs.map(|_i: int, e: StoredInstantEvent| (e, y));
    if evs.len() == 0 {
        assert(mapped =~= Seq::<(StoredInstantEvent, u8)>::empty());
    } else {
        let rec = instant_record(evs[0], y);
        let rest = instants_bytes(evs.drop_first(), y);
        assert(rec.len() == 11);
        assert(b == rec + rest);
        assert(b.subrange(0, 8) =~= spec_u64_to_le_bytes(evs[0].tm));
        assert(b.subrange(8, 10) =~= spec_u16_to_le_bytes(evs[0].name_id));
        assert(b[10] == y);
        assert(b.skip(11) =~= rest);
        lemma_instants_round_trip(evs.drop_first(), y);
        let rest_mapped = evs.drop_first().map(|_i: int, e: StoredInstantEvent| (e, y));
        assert(spec_decode_instants(b) == Some(
            seq![(StoredInstantEvent { tm: evs[0].tm, name_id: evs[0].name_id }, y)] + rest_mapped,
        ));
        assert(StoredInstantEvent { tm: evs[0].tm, name_id: evs[0].name_id } == evs[0]);
        assert(seq![(evs[0], y)] + rest_mapped =~= mapped);
    }
}

/// Law (round trip, ranges): decoding an encoded range section of one class
/// yields exactly the kept ranges of that class with their lanes, provided
/// no present end-name id collides with the absence marker.
pub proof fn lemma_ranges_round_trip(placed: Seq<PlacedRange>, cross: bool)
    requires
        forall|i: int|
            0 <= i < placed.len() ==> ((#[trigger] placed[i]).ev.spec_cross_thread_id() is Some)
                == cross,
        end_name_unambiguous(placed),
    ensures
        spec_decode_ranges(ranges_bytes(placed, cross), cross) == Some(placed),
    decreases placed.len(),
{
    lemma_auto_spec_u64_to_from_le_bytes();
    lemma_auto_spec_u16_to_from_le_bytes();
    let b = ranges_bytes(placed, cross);
    if placed.len() == 0 {
        assert(spec_decode_ranges(b, cross) == Some(Seq::<PlacedRange>::empty()));
        assert(Seq::<PlacedRange>::empty() =~= placed);
    } else {
        let pr = placed[0];
        let rec = range_record(pr);
        let rest = ranges_bytes(placed.drop_first(), cross);
        assert(b == rec + rest);
        let en = pr.ev.spec_end_name_id();
        let en_len: int = match en {
            Some(_) => 2,
            None => 1,
        };
        let tid_len: int = if cross {
            8int
        } else {
            0int
        };
        assert(end_name_bytes(en).len() == en_len);
        let rec_len = 19 + en_len + tid_len;
        assert(rec.len() == rec_len);
        assert(b.subrange(0, 8) =~= spec_u64_to_le_bytes(pr.ev.spec_start_time()));
        assert(b.subrange(8, 16) =~= spec_u64_to_le_bytes(pr.ev.spec_end_time()));
        assert(b.subrange(16, 18) =~= spec_u16_to_le_bytes(pr.ev.spec_name_id()));
        match en {
            Some(id) => {
                assert(b[18] == spec_u16_to_le_bytes(id)[0]);
                assert(b[18] != 255);
                assert(b.subrange(18, 20) =~= spec_u16_to_le_bytes(id));
                assert(b[20] == pr.y);
                if cross {
                    let tid = pr.ev.spec_cross_thread_id()->0;
                    assert(b.subrange(21, 29) =~= spec_u64_to_le_bytes(tid));
                }
            },
            None => {
                assert(b[18] == 255);
                assert(b[19] == pr.y);
                if cross {
                    let tid = pr.ev.spec_cross_thread_id()->0;
                    assert(b.subrange(20, 28) =~= spec_u64_to_le_bytes(tid));
                }
            },
        }
        assert(b.skip(rec_len) =~= rest);
        assert forall|i: int| 0 <= i < placed.drop_first().len() implies ((
        #[trigger] placed.drop_first()[i]).ev.spec_cross_thread_id() is Some) == cross by {
            assert(placed.drop_first()[i] == placed[i + 1]);
        }
        assert(end_name_unambiguous(placed.drop_first())) by {
            assert forall|i: int| 0 <= i < placed.drop_first().len() implies match (
            #[trigger] placed.drop_first()[i]).ev.spec_end_name_id() {
                Some(id) => spec_u16_to_le_bytes(id)[0] != 255,
                None => true,
            } by {
                assert(placed.drop_first()[i] == placed[i + 1]);
            }
        }
        lemma_ranges_round_trip(placed.drop_first(), cross);
        let decoded_ev = if cross {
            RangeEventType::CrossThread(
                pr.ev.spec_start_time(),
                pr.ev.spec_end_time(),
                pr.ev.spec_name_id(),
                en,
                pr.ev.spec_cross_thread_id()->0,
            )
        } else {
            RangeEventType::Local(
                pr.ev.spec_start_time(),
                pr.ev.spec_end_time(),
                pr.ev.spec_name_id(),
                en,
            )
        };
        assert(decoded_ev == pr.ev);
        assert(spec_decode_ranges(b, cross) == Some(seq![pr] + placed.drop_first()));
        assert(seq![pr] + placed.drop_first() =~= placed);
    }
}

/// Parses an instant section back into (instant, lane) pairs; `None` on a
/// truncated record.
pub fn decode_instant_section(b: &Vec<u8>) -> (r: Option<Vec<(StoredInstantEvent, u8)>>)
    ensures
        match r {
            Some(v) => spec_decode_instants(b@) == Some(v@),
            None => spec_decode_instants(b@) is None,
        },
{
    let mut out: Vec<(StoredInstantEvent, u8)> = Vec::new();
    let mut i: usize = 0;
    let mut malformed = false;
    let n = b.len();
    proof {
        assert(b@.skip(0) =~= b@);
    }
    while i < n
        invariant_except_break
            0 <= i <= n == b@.len(),
            !malformed,
            spec_decode_instants(b@) == match spec_decode_instants(b@.skip(i as int)) {
                Some(rest) => Some(out@ + rest),
                None => None::<Seq<(StoredInstantEvent, u8)>>,
            },
        ensures
            !malformed ==> i == n && spec_decode_instants(b@) == match spec_decode_instants(
                b@.skip(i as int),
            ) {
                Some(rest) => Some(out@ + rest),
                None => None::<Seq<(StoredInstantEvent, u8)>>,
            },
            malformed ==> spec_decode_instants(b@) is None,
        decreases n - i,
    {
        let ghost rest_bytes = b@.skip(i as int);
        if n - i < 11 {
            proof {
                assert(rest_bytes.len() == n - i);
                assert(spec_decode_instants(rest_bytes) is None);
            }
            malformed = true;
            break ;
        }
        let tm = u64_from_le_bytes(vstd::slice::slice_subrange(b.as_slice(), i, i + 8));
        let name_id = u16_from_le_bytes(vstd::slice::slice_subrange(b.as_slice(), i + 8, i + 10));
        let y = b[i + 10];
        let ghost old_out = out@;
        out.push((StoredInstantEvent { tm, name_id }, y));
        proof {
            assert(b@.subrange(i as int, i + 8) =~= rest_bytes.subrange(0, 8));
            assert(b@.subrange(i + 8, i + 10) =~= rest_bytes.subrange(8, 10));
            assert(b@[i + 10] == rest_bytes[10]);
            assert(rest_bytes.skip(11) =~= b@.skip(i as int + 11));
            assert(out@ =~= old_out.push((StoredInstantEvent { tm, name_id }, y)));
            if spec_decode_instants(b@.skip(i as int + 11)) is Some {
                let tail = spec_decode_instants(b@.skip(i as int + 11))->0;
                assert(old_out + (seq![(StoredInstantEvent { tm, name_id }, y)] + tail) =~= out@
                    + tail);
            }
        }
        i = i + 11;
    }
    if malformed {
        None
    } else {
        proof {
            assert(b@.skip(n as int) =~= Seq::<u8>::empty());
            assert(out@ + Seq::<(StoredInstantEvent, u8)>::empty() =~= out@);
        }
        Some(out)
    }
}

/// Parses a range section of one class back into placed ranges; `None` on a
/// truncated record.
pub fn decode_range_section(b: &Vec<u8>, cross: bool) -> (r: Option<Vec<PlacedRange>>)
    ensures
        match r {
            Some(v) => spec_decode_ranges(b@, cross) == Some(v@),
            None => spec_decode_ranges(b@, cross) is None,
        },
{
    let mut out: Vec<PlacedRange> = Vec::new();
    let mut i: usize = 0;
    let mut malformed = false;
    let n = b.len();
    proof {
        assert(b@.skip(0) =~= b@);
    }
    while i < n
        invariant_except_break
            0 <= i <= n == b@.len(),
            !malformed,
            spec_decode_ranges(b@, cross) == match spec_decode_ranges(b@.skip(i as int), cross) {
                Some(rest) => Some(out@ + rest),
                None => None::<Seq<PlacedRange>>,
            },
        ensures
            !malformed ==> i == n && spec_decode_ranges(b@, cross) == match spec_decode_ranges(
                b@.skip(i as int),
                cross,
            ) {
                Some(rest) => Some(out@ + rest),
                None => None::<Seq<PlacedRange>>,
            },
            malformed ==> spec_decode_ranges(b@, cross) is None,
        decreases n - i,
    {
        let ghost rest_bytes = b@.skip(i as int);
        if n - i < 19 {
            proof {
                assert(rest_bytes.len() == n - i);
                assert(spec_decode_ranges(rest_bytes, cross) is None);
            }
            malformed = true;
            break ;
        }
        let has_end_name = b[i + 18] != 255;
        let base: usize = if cross {
            27
        } else {
            19
        };
        let rec_len: usize = base + (if has_end_name {
            2
        } else {
            1
        });
        proof {
            assert(rest_bytes[18] == b@[i + 18]);
        }
        if n - i < rec_len {
            proof {
                assert(spec_decode_ranges(rest_bytes, cross) is None);
            }
            malformed = true;
            break ;
        }
        let start = u64_from_le_bytes(vstd::slice::slice_subrange(b.as_slice(), i, i + 8));
        let end = u64_from_le_bytes(vstd::slice::slice_subrange(b.as_slice(), i + 8, i + 16));
        let name_id = u16_from_le_bytes(vstd::slice::slice_subrange(b.as_slice(), i + 16, i + 18));
        let end_name_id: Option<u16> = if has_end_name {
            Some(u16_from_le_bytes(vstd::slice::slice_subrange(b.as_slice(), i + 18, i + 20)))
        } else {
            None
        };
        let y_pos: usize = if has_end_name {
            i + 20
        } else {
            i + 19
        };
        let y = b[y_pos];
        let ev = if cross {
            let tid = u64_from_le_bytes(
                vstd::slice::slice_subrange(b.as_slice(), y_pos + 1, y_pos + 9),
            );
            RangeEventType::CrossThread(start, end, name_id, end_name_id, tid)
        } else {
            RangeEventType::Local(start, end, name_id, end_name_id)
        };
        let ghost old_out = out@;
        out.push(PlacedRange { ev, y });
        proof {
            assert(b@.subrange(i as int, i + 8) =~= rest_bytes.subrange(0, 8));
            assert(b@.subrange(i + 8, i + 16) =~= rest_bytes.subrange(8, 16));
            assert(b@.subrange(i + 16, i + 18) =~= rest_bytes.subrange(16, 18));
            if has_end_name {
                assert(b@.subrange(i + 18, i + 20) =~= rest_bytes.subrange(18, 20));
            }
            assert(b@[y_pos as int] == rest_bytes[y_pos - i]);
            if cross {
                assert(b@.subrange(y_pos + 1, y_pos + 9) =~= rest_bytes.subrange(
                    y_pos - i + 1,
                    y_pos - i + 9,
                ));
            }
            assert(rest_bytes.skip(rec_len as int) =~= b@.skip(i + rec_len));
            if spec_decode_ranges(b@.skip(i + rec_len), cross) is Some {
                let tail = spec_decode_ranges(b@.skip(i + rec_len), cross)->0;
                assert(old_out + (seq![PlacedRange { ev, y }] + tail) =~= out@ + tail);
            }
        }
        i = i + rec_len;
    }
    if malformed {
        None
    } else {
        proof {
            assert(b@.skip(n as int) =~= Seq::<u8>::empty());
            assert(out@ + Seq::<PlacedRange>::empty() =~= out@);
        }
        Some(out)
    }
}

/// Splits a frame into its three sections; `None` when a length prefix runs
/// past the end or bytes are left over.
pub fn decode_frame(b: &Vec<u8>) -> (r: Option<(Vec<u8>, Vec<u8>, Vec<u8>)>)
    ensures
        match r {
            Some(t) => spec_split_frame(b@) == Some((t.0@, t.1@, t.2@)),
            None => spec_split_frame(b@) is None,
        },
{
    let n = b.len();
    if n < 4 {
        return None;
    }
    let n1 = u32_from_le_bytes(vstd::slice::slice_subrange(b.as_slice(), 0, 4)) as usize;
    proof {
        assert(b@.subrange(0, 4) =~= b@.subrange(0, 4));
    }
    if n - 4 < n1 || n - 4 - n1 < 4 {
        return None;
    }
    let s1 = vstd::slice::slice_to_vec(vstd::slice::slice_subrange(b.as_slice(), 4, 4 + n1));
    let n2 = u32_from_le_bytes(vstd::slice::slice_subrange(b.as_slice(), 4 + n1, 8 + n1)) as usize;
    if n - 8 - n1 < n2 || n - 8 - n1 - n2 < 4 {
        return None;
    }
    let s2 = vstd::slice::slice_to_vec(
        vstd::slice::slice_subrange(b.as_slice(), 8 + n1, 8 + n1 + n2),
    );
    let n3 = u32_from_le_bytes(
        vstd::slice::slice_subrange(b.as_slice(), 8 + n1 + n2, 12 + n1 + n2),
    ) as usize;
    if n - 12 - n1 - n2 != n3 {
        return None;
    }
    let s3 = vstd::slice::slice_to_vec(
        vstd::slice::slice_subrange(b.as_slice(), 12 + n1 + n2, 12 + n1 + n2 + n3),
    );
    Some((s1, s2, s3))
}

/// Law (round trip, frame): a frame built from three sections splits back
/// into exactly those sections.
pub proof fn lemma_frame_round_trip(instants: Seq<u8>, local: Seq<u8>, cross: Seq<u8>)
    requires
        instants.len() < 0x1_0000_0000,
        local.len() < 0x1_0000_0000,
        cross.len() < 0x1_0000_0000,
    ensures
        spec_split_frame(frame_bytes(instants, local, cross)) == Some((instants, local, cross)),
{
    lemma_auto_spec_u32_to_from_le_bytes();
    let b = frame_bytes(instants, local, cross);
    let n1 = instants.len() as int;
    let n2 = local.len() as int;
    let n3 = cross.len() as int;
    assert(b.len() == 12 + n1 + n2 + n3);
    assert(b.subrange(0, 4) =~= spec_u32_to_le_bytes(instants.len() as u32));
    assert(spec_u32_from_le_bytes(b.subrange(0, 4)) == n1);
    assert(b.subrange(4, 4 + n1) =~= instants);
    assert(b.subrange(4 + n1, 8 + n1) =~= spec_u32_to_le_bytes(local.len() as u32));
    assert(b.subrange(8 + n1, 8 + n1 + n2) =~= local);
    assert(b.subrange(8 + n1 + n2, 12 + n1 + n2) =~= spec_u32_to_le_bytes(cross.len() as u32));
    assert(b.subrange(12 + n1 + n2, 12 + n1 + n2 + n3) =~= cross);
}

} // verus!
