//! Range-side decimation: merging the local and cross-thread query results
//! in start order, keep/skip decisions, and first-fit lane assignment so
//! overlapping ranges land on distinct vertical lanes.

use vstd::prelude::*;
use crate::skipper::{
    spec_keep_range, step_range, EventSkipper, EventSkippingProcessor,
};
use crate::storage::StoredRangeEvent;

verus! {

/// A range event on its way to the wire: either local to its channel or
/// recorded across threads (carrying the origin thread id).
#[derive(Debug, Clone, Copy)]
pub enum RangeEventType {
    Local(u64, u64, u16, Option<u16>),
    CrossThread(u64, u64, u16, Option<u16>, u64),
}

impl RangeEventType {
    pub open spec fn spec_start_time(&self) -> u64 {
        match *self {
            RangeEventType::Local(start, _, _, _) => start,
            RangeEventType::CrossThread(start, _, _, _, _) => start,
        }
    }

    pub open spec fn spec_end_time(&self) -> u64 {
        match *self {
            RangeEventType::Local(_, end, _, _) => end,
            RangeEventType::CrossThread(_, end, _, _, _) => end,
        }
    }

    pub open spec fn spec_name_id(&self) -> u16 {
        match *self {
            RangeEventType::Local(_, _, name_id, _) => name_id,
            RangeEventType::CrossThread(_, _, name_id, _, _) => name_id,
        }
    }

    pub open spec fn spec_end_name_id(&self) -> Option<u16> {
        match *self {
            RangeEventType::Local(_, _, _, end_name_id) => end_name_id,
            RangeEventType::CrossThread(_, _, _, end_name_id, _) => end_name_id,
        }
    }

    pub open spec fn spec_cross_thread_id(&self) -> Option<u64> {
        match *self {
            RangeEventType::Local(_, _, _, _) => None,
            RangeEventType::CrossThread(_, _, _, _, thread_id) => Some(thread_id),
        }
    }

    #[verifier::when_used_as_spec(spec_start_time)]
    pub fn start_time(&self) -> (r: u64)
        ensures
            r == self.spec_start_time(),
    {
        match self {
            RangeEventType::Local(start, _, _, _) => *start,
            RangeEventType::CrossThread(start, _, _, _, _) => *start,
        }
    }

    #[verifier::when_used_as_spec(spec_end_time)]
    pub fn end_time(&self) -> (r: u64)
        ensures
            r == self.spec_end_time(),
    {
        match self {
            RangeEventType::Local(_, end, _, _) => *end,
            RangeEventType::CrossThread(_, end, _, _, _) => *end,
        }
    }

    #[verifier::when_used_as_spec(spec_name_id)]
    pub fn name_id(&self) -> (r: u16)
        ensures
            r == self.spec_name_id(),
    {
        match self {
            RangeEventType::Local(_, _, name_id, _) => *name_id,
            RangeEventType::CrossThread(_, _, name_id, _, _) => *name_id,
        }
    }

    #[verifier::when_used_as_spec(spec_end_name_id)]
    pub fn end_name_id(&self) -> (r: Option<u16>)
        ensures
            r == self.spec_end_name_id(),
    {
        match self {
            RangeEventType::Local(_, _, _, end_name_id) => *end_name_id,
            RangeEventType::CrossThread(_, _, _, end_name_id, _) => *end_name_id,
        }
    }

    #[verifier::when_used_as_spec(spec_cross_thread_id)]
    pub fn cross_thread_id(&self) -> (r: Option<u64>)
        ensures
            r == self.spec_cross_thread_id(),
    {
        match self {
            RangeEventType::Local(_, _, _, _) => None,
            RangeEventType::CrossThread(_, _, _, _, thread_id) => Some(*thread_id),
        }
    }
}

/// A local query result as a wire-bound range event.
pub open spec fn to_local_event(e: StoredRangeEvent<()>) -> RangeEventType {
    RangeEventType::Local(e.start, e.end, e.name_id, e.end_name_id)
}

/// A cross-thread query result as a wire-bound range event.
pub open spec fn to_cross_event(e: StoredRangeEvent<u64>) -> RangeEventType {
    RangeEventType::CrossThread(e.start, e.end, e.name_id, e.end_name_id, e.extra)
}

/// Non-decreasing start times.
pub open spec fn sorted_by_start(s: Seq<RangeEventType>) -> bool {
    forall|a: int, b: int|
        0 <= a <= b < s.len() ==> (#[trigger] s[a]).spec_start_time() <= (
        #[trigger] s[b]).spec_start_time()
}

/// Every range runs forward in time.
pub open spec fn ranges_ordered(s: Seq<RangeEventType>) -> bool {
    forall|a: int|
        0 <= a < s.len() ==> (#[trigger] s[a]).spec_start_time() <= s[a].spec_end_time()
}

/// Merge of two start-sorted sequences: the earlier start goes first, and on
/// ties the first (local) sequence wins.
pub open spec fn spec_merge(a: Seq<RangeEventType>, b: Seq<RangeEventType>) -> Seq<RangeEventType>
    decreases a.len() + b.len(),
{
    if a.len() == 0 {
        b
    } else if b.len() == 0 {
        a
    } else if a[0].spec_start_time() <= b[0].spec_start_time() {
        seq![a[0]] + spec_merge(a.drop_first(), b)
    } else {
        seq![b[0]] + spec_merge(a, b.drop_first())
    }
}

/// Merges the local and cross-thread query results by start time; ties put
/// the local range first.
pub fn merge_range_events(
    local_events: &Vec<StoredRangeEvent<()>>,
    cross_thread_events: &Vec<StoredRangeEvent<u64>>,
) -> (r: Vec<RangeEventType>)
    ensures
        r@ == spec_merge(
            local_events@.map(|_i: int, e: StoredRangeEvent<()>| to_local_event(e)),
            cross_thread_events@.map(|_i: int, e: StoredRangeEvent<u64>| to_cross_event(e)),
        ),
{
    let ghost a_all = local_events@.map(|_i: int, e: StoredRangeEvent<()>| to_local_event(e));
    let ghost b_all = cross_thread_events@.map(
        |_i: int, e: StoredRangeEvent<u64>| to_cross_event(e),
    );
    let mut r: Vec<RangeEventType> = Vec::new();
    let mut i: usize = 0;
    let mut j: usize = 0;
    let n = local_events.len();
    let m = cross_thread_events.len();
    proof {
        assert(a_all.skip(0) =~= a_all);
        assert(b_all.skip(0) =~= b_all);
    }
    while i < n || j < m
        invariant
            i <= n == a_all.len() == local_events@.len(),
            j <= m == b_all.len() == cross_thread_events@.len(),
            a_all == local_events@.map(|_i: int, e: StoredRangeEvent<()>| to_local_event(e)),
            b_all == cross_thread_events@.map(
                |_i: int, e: StoredRangeEvent<u64>| to_cross_event(e),
            ),
            spec_merge(a_all, b_all) == r@ + spec_merge(a_all.skip(i as int), b_all.skip(j as int)),
        decreases n - i + m - j,
    {
        let ghost a_rest = a_all.skip(i as int);
        let ghost b_rest = b_all.skip(j as int);
        let take_local: bool = if i < n {
            if j < m {
                local_events[i].start <= cross_thread_events[j].start
            } else {
                true
            }
        } else {
            false
        };
        if take_local {
            let e = local_events[i];
            let ev = RangeEventType::Local(e.start, e.end, e.name_id, e.end_name_id);
            r.push(ev);
            proof {
                assert(a_rest[0] == a_all[i as int]);
                assert(a_rest.drop_first() =~= a_all.skip(i as int + 1));
                if j < m {
                    assert(b_rest[0] == b_all[j as int]);
                }
                assert(spec_merge(a_rest, b_rest) == seq![a_rest[0]] + spec_merge(
                    a_all.skip(i as int + 1),
                    b_rest,
                ));
            }
            i = i + 1;
        } else {
            let e = cross_thread_events[j];
            let ev = RangeEventType::CrossThread(e.start, e.end, e.name_id, e.end_name_id, e.extra);
            r.push(ev);
            proof {
                assert(b_rest[0] == b_all[j as int]);
                assert(b_rest.drop_first() =~= b_all.skip(j as int + 1));
                if i < n {
                    assert(a_rest[0] == a_all[i as int]);
                }
                assert(spec_merge(a_rest, b_rest) == seq![b_rest[0]] + spec_merge(
                    a_rest,
                    b_all.skip(j as int + 1),
                ));
            }
            j = j + 1;
        }
    }
    proof {
        assert(a_all.skip(n as int) =~= Seq::<RangeEventType>::empty());
        assert(b_all.skip(m as int) =~= Seq::<RangeEventType>::empty());
        assert(spec_merge(Seq::<RangeEventType>::empty(), Seq::<RangeEventType>::empty())
            =~= Seq::<RangeEventType>::empty());
        assert(r@ =~= r@ + Seq::<RangeEventType>::empty());
    }
    r
}

/// The merge of two start-sorted sequences is start-sorted.
pub proof fn lemma_spec_merge_sorted(a: Seq<RangeEventType>, b: Seq<RangeEventType>)
    requires
        sorted_by_start(a),
        sorted_by_start(b),
    ensures
        sorted_by_start(spec_merge(a, b)),
        spec_merge(a, b).len() == a.len() + b.len(),
        forall|x: int|
            0 <= x < spec_merge(a, b).len() ==> a.contains(#[trigger] spec_merge(a, b)[x])
                || b.contains(spec_merge(a, b)[x]),
    decreases a.len() + b.len(),
{
    let r = spec_merge(a, b);
    if a.len() == 0 || b.len() == 0 {
    } else if a[0].spec_start_time() <= b[0].spec_start_time() {
        let a2 = a.drop_first();
        assert(sorted_by_start(a2)) by {
            assert forall|x: int, y: int| 0 <= x <= y < a2.len() implies (
            #[trigger] a2[x]).spec_start_time() <= (#[trigger] a2[y]).spec_start_time() by {
                assert(a2[x] == a[x + 1]);
                assert(a2[y] == a[y + 1]);
            }
        }
        lemma_spec_merge_sorted(a2, b);
        let rest = spec_merge(a2, b);
        assert(r == seq![a[0]] + rest);
        assert forall|x: int, y: int| 0 <= x <= y < r.len() implies (
        #[trigger] r[x]).spec_start_time() <= (#[trigger] r[y]).spec_start_time() by {
            if x == 0 && y > 0 {
                assert(r[y] == rest[y - 1]);
                if a2.contains(rest[y - 1]) {
                    let w = choose|w: int| 0 <= w < a2.len() && a2[w] == rest[y - 1];
                    assert(a2[w] == a[w + 1]);
                    assert(a[0].spec_start_time() <= a[w + 1].spec_start_time());
                } else {
                    let w = choose|w: int| 0 <= w < b.len() && b[w] == rest[y - 1];
                    assert(b[0].spec_start_time() <= b[w].spec_start_time());
                }
            } else if x > 0 {
                assert(r[x] == rest[x - 1]);
                assert(r[y] == rest[y - 1]);
            }
        }
        assert forall|x: int| 0 <= x < r.len() implies a.contains(#[trigger] r[x]) || b.contains(
            r[x],
        ) by {
            if x == 0 {
                assert(a[0] == r[0]);
                assert(a.contains(a[0]));
            } else {
                assert(r[x] == rest[x - 1]);
                if a2.contains(rest[x - 1]) {
                    let w = choose|w: int| 0 <= w < a2.len() && a2[w] == rest[x - 1];
                    assert(a[w + 1] == a2[w]);
                    assert(a.contains(a[w + 1]));
                }
            }
        }
    } else {
        let b2 = b.drop_first();
        assert(sorted_by_start(b2)) by {
            assert forall|x: int, y: int| 0 <= x <= y < b2.len() implies (
            #[trigger] b2[x]).spec_start_time() <= (#[trigger] b2[y]).spec_start_time() by {
                assert(b2[x] == b[x + 1]);
                assert(b2[y] == b[y + 1]);
            }
        }
        lemma_spec_merge_sorted(a, b2);
        let rest = spec_merge(a, b2);
        assert(r == seq![b[0]] + rest);
        assert forall|x: int, y: int| 0 <= x <= y < r.len() implies (
        #[trigger] r[x]).spec_start_time() <= (#[trigger] r[y]).spec_start_time() by {
            if x == 0 && y > 0 {
                assert(r[y] == rest[y - 1]);
                if a.contains(rest[y - 1]) {
                    let w = choose|w: int| 0 <= w < a.len() && a[w] == rest[y - 1];
                    assert(b[0].spec_start_time() < a[0].spec_start_time());
                    assert(a[0].spec_start_time() <= a[w].spec_start_time());
                } else {
                    let w = choose|w: int| 0 <= w < b2.len() && b2[w] == rest[y - 1];
                    assert(b2[w] == b[w + 1]);
                    assert(b[0].spec_start_time() <= b[w + 1].spec_start_time());
                }
            } else if x > 0 {
                assert(r[x] == rest[x - 1]);
                assert(r[y] == rest[y - 1]);
            }
        }
        assert forall|x: int| 0 <= x < r.len() implies a.contains(#[trigger] r[x]) || b.contains(
            r[x],
        ) by {
            if x == 0 {
                assert(b[0] == r[0]);
                assert(b.contains(b[0]));
            } else {
                assert(r[x] == rest[x - 1]);
                if b2.contains(rest[x - 1]) {
                    let w = choose|w: int| 0 <= w < b2.len() && b2[w] == rest[x - 1];
                    assert(b[w + 1] == b2[w]);
                    assert(b.contains(b[w + 1]));
                }
            }
        }
    }
}

/// A kept range with its assigned vertical lane.
#[derive(Debug, Clone, Copy)]
pub struct PlacedRange {
    pub ev: RangeEventType,
    pub y: u8,
}

/// Whether some already-placed range still active at time `start` occupies
/// lane `y`.
pub open spec fn y_used(placed: Seq<PlacedRange>, start: u64, y: int) -> bool {
    exists|i: int|
        0 <= i < placed.len() && (#[trigger] placed[i]).ev.spec_end_time() > start && placed[i].y
            == y
}

/// First-fit lane choice: the smallest lane below 255 not occupied by a
/// still-active placed range, clamped to 255 when all are taken.
pub open spec fn first_free_y(placed: Seq<PlacedRange>, start: u64, y: int) -> int
    decreases 255 - y,
{
    if y >= 255 {
        255
    } else if !y_used(placed, start, y) {
        y
    } else {
        first_free_y(placed, start, y + 1)
    }
}

proof fn lemma_first_free_props(placed: Seq<PlacedRange>, start: u64, y: int)
    requires
        0 <= y <= 255,
    ensures
        y <= first_free_y(placed, start, y) <= 255,
        first_free_y(placed, start, y) < 255 ==> !y_used(placed, start, first_free_y(placed, start, y)),
    decreases 255 - y,
{
    if y >= 255 {
    } else if !y_used(placed, start, y) {
    } else {
        lemma_first_free_props(placed, start, y + 1);
    }
}

/// The state threaded through range placement: the range-class skipper and
/// the start of the previously seen range.
pub open spec fn range_distance(prev: Option<u64>, start: u64, skip_thr: u64) -> u64 {
    match prev {
        Some(p) => (start - p) as u64,
        None => (skip_thr + 1) as u64,
    }
}

/// Placement of a start-sorted merged sequence: each range gets a keep/skip
/// decision, and each kept range gets the first free lane among the ranges
/// still active at its start.
pub open spec fn spec_place(
    evs: Seq<RangeEventType>,
    sk: EventSkipper,
    prev: Option<u64>,
    acc: Seq<PlacedRange>,
) -> (Seq<PlacedRange>, EventSkipper)
    decreases evs.len(),
{
    if evs.len() == 0 {
        (acc, sk)
    } else {
        let ev = evs[0];
        let dist = range_distance(prev, ev.spec_start_time(), sk.skip_thr);
        let dur = (ev.spec_end_time() - ev.spec_start_time()) as u64;
        let sk2 = step_range(sk, dist, dur);
        let prev2 = Some(ev.spec_start_time());
        if spec_keep_range(sk, dist, dur) {
            let y = first_free_y(acc, ev.spec_start_time(), 0);
            spec_place(evs.drop_first(), sk2, prev2, acc.push(PlacedRange { ev, y: y as u8 }))
        } else {
            spec_place(evs.drop_first(), sk2, prev2, acc)
        }
    }
}

/// The placed output extends `acc`, and each new entry's lane is the
/// first-fit choice against its own prefix.
proof fn lemma_spec_place_prefix(
    evs: Seq<RangeEventType>,
    sk: EventSkipper,
    prev: Option<u64>,
    acc: Seq<PlacedRange>,
)
    ensures
        ({
            let r = spec_place(evs, sk, prev, acc).0;
            &&& r.len() >= acc.len()
            &&& r.take(acc.len() as int) == acc
            &&& forall|j: int|
                acc.len() <= j < r.len() ==> (#[trigger] r[j]).y as int == first_free_y(
                    r.take(j),
                    r[j].ev.spec_start_time(),
                    0,
                )
        }),
    decreases evs.len(),
{
    let r = spec_place(evs, sk, prev, acc).0;
    if evs.len() == 0 {
        assert(r.take(acc.len() as int) =~= acc);
    } else {
        let ev = evs[0];
        let dist = range_distance(prev, ev.spec_start_time(), sk.skip_thr);
        let dur = (ev.spec_end_time() - ev.spec_start_time()) as u64;
        let sk2 = step_range(sk, dist, dur);
        let prev2 = Some(ev.spec_start_time());
        if spec_keep_range(sk, dist, dur) {
            let y = first_free_y(acc, ev.spec_start_time(), 0);
            let acc2 = acc.push(PlacedRange { ev, y: y as u8 });
            lemma_spec_place_prefix(evs.drop_first(), sk2, prev2, acc2);
            assert(r.take(acc2.len() as int) == acc2);
            assert(r.take(acc.len() as int) =~= acc) by {
                assert forall|x: int| 0 <= x < acc.len() implies r.take(acc.len() as int)[x]
                    == acc[x] by {
                    assert(r[x] == r.take(acc2.len() as int)[x]);
                }
            }
            assert forall|j: int| acc.len() <= j < r.len() implies (#[trigger] r[j]).y as int
                == first_free_y(r.take(j), r[j].ev.spec_start_time(), 0) by {
                if j == acc.len() {
                    assert(r[j] == r.take(acc2.len() as int)[j]);
                    assert(r[j] == PlacedRange { ev, y: y as u8 });
                    assert(r.take(j) =~= acc);
                    lemma_first_free_props(acc, ev.spec_start_time(), 0);
                }
            }
        } else {
            lemma_spec_place_prefix(evs.drop_first(), sk2, prev2, acc);
        }
    }
}

/// Two half-open ranges share a simulated time point exactly when each one
/// starts before the other ends.
pub open spec fn lanes_overlap(a: RangeEventType, b: RangeEventType) -> bool {
    a.spec_start_time() < b.spec_end_time() && b.spec_start_time() < a.spec_end_time()
}

/// Law (lane discipline): in a placement started from an empty prefix, two
/// kept ranges that are both active at some time point (their half-open
/// intervals overlap) never share a lane, unless both were clamped to the
/// overflow lane 255.
pub proof fn lemma_lane_discipline(evs: Seq<RangeEventType>, sk: EventSkipper, prev: Option<u64>)
    ensures
        ({
            let placed = spec_place(evs, sk, prev, Seq::empty()).0;
            forall|i: int, j: int|
                0 <= i < j < placed.len() && lanes_overlap(
                    (#[trigger] placed[i]).ev,
                    (#[trigger] placed[j]).ev,
                ) ==> placed[i].y != placed[j].y || (placed[i].y == 255 && placed[j].y == 255)
        }),
{
    let placed = spec_place(evs, sk, prev, Seq::empty()).0;
    lemma_spec_place_prefix(evs, sk, prev, Seq::empty());
    assert forall|i: int, j: int|
        0 <= i < j < placed.len() && lanes_overlap(
            (#[trigger] placed[i]).ev,
            (#[trigger] placed[j]).ev,
        ) implies placed[i].y != placed[j].y || (placed[i].y == 255 && placed[j].y == 255) by {
        let prefix = placed.take(j);
        assert(placed[j].y as int == first_free_y(prefix, placed[j].ev.spec_start_time(), 0));
        lemma_first_free_props(prefix, placed[j].ev.spec_start_time(), 0);
        if placed[j].y != 255 {
            // placed[i] is still active at placed[j]'s start: its end lies
            // past t >= start_j, so lane y_i is occupied in the prefix.
            assert(prefix[i] == placed[i]);
            assert(placed[i].ev.spec_end_time() > placed[j].ev.spec_start_time());
            if placed[i].y == placed[j].y {
                assert(y_used(prefix, placed[j].ev.spec_start_time(), placed[i].y as int));
            }
        } else if placed[i].y != 255 {
        }
    }
}

/// Some entry of the active list sits on lane `y`.
pub open spec fn lane_active(active: Seq<(u64, u8)>, y: int) -> bool {
    exists|a: int| 0 <= a < active.len() && (#[trigger] active[a]).1 == y
}

/// The entry mirrors a placed range's (end, lane) pair.
pub open spec fn entry_placed(placed: Seq<PlacedRange>, entry: (u64, u8)) -> bool {
    exists|p: int|
        0 <= p < placed.len() && (#[trigger] placed[p]).ev.spec_end_time() == entry.0
            && placed[p].y == entry.1
}

/// The active list holds an entry for this placed range.
pub open spec fn placed_entry_active(active: Seq<(u64, u8)>, pr: PlacedRange) -> bool {
    exists|a: int|
        0 <= a < active.len() && (#[trigger] active[a]).0 == pr.ev.spec_end_time() && active[a].1
            == pr.y
}

/// The bookkeeping the placement loop maintains between events: active
/// entries mirror placed ranges, every placed range still running past the
/// last removal point `t` has an active entry, the lane bitmap agrees with
/// the active list below 255, and lanes below 255 are held at most once.
pub open spec fn lanes_inv(
    placed: Seq<PlacedRange>,
    active: Seq<(u64, u8)>,
    used: Seq<bool>,
    t: u64,
) -> bool {
    &&& used.len() == 256
    &&& forall|a: int| 0 <= a < active.len() ==> entry_placed(placed, #[trigger] active[a])
    &&& forall|p: int|
        0 <= p < placed.len() && (#[trigger] placed[p]).ev.spec_end_time() > t
            ==> placed_entry_active(active, placed[p])
    &&& forall|y: int| 0 <= y < 255 ==> (#[trigger] used[y]) == lane_active(active, y)
    &&& forall|a: int, b: int|
        0 <= a < b < active.len() && (#[trigger] active[a]).1 < 255 ==> active[a].1 != (
        #[trigger] active[b]).1
}

/// Runs the keep/skip decision over a start-sorted merged sequence and
/// assigns each kept range the first free lane, exactly as `spec_place`
/// describes.
pub fn place_ranges(
    merged: &Vec<RangeEventType>,
    processor: &mut EventSkippingProcessor,
    skip_thr: u64,
) -> (r: Vec<PlacedRange>)
    requires
        old(processor).wf(),
        old(processor).range_skipper.skip_thr == skip_thr,
        skip_thr < u64::MAX,
        sorted_by_start(merged@),
        ranges_ordered(merged@),
        old(processor).range_skipper.total_count + merged@.len() <= usize::MAX,
    ensures
        final(processor).wf(),
        final(processor).instant_skipper == old(processor).instant_skipper,
        (r@, final(processor).range_skipper) == spec_place(
            merged@,
            old(processor).range_skipper,
            None,
            Seq::empty(),
        ),
{
    let ghost sk0 = processor.range_skipper;
    let mut r: Vec<PlacedRange> = Vec::new();
    let mut active: Vec<(u64, u8)> = Vec::new();
    let mut used: Vec<bool> = vec![false; 256];
    let ghost mut t: u64 = 0;
    let mut prev: Option<u64> = None;
    let mut idx: usize = 0;
    let n = merged.len();
    proof {
        assert(merged@.skip(0) =~= merged@);
    }
    while idx < n
        invariant
            processor.wf(),
            processor.instant_skipper == old(processor).instant_skipper,
            processor.range_skipper.skip_thr == skip_thr,
            skip_thr < u64::MAX,
            sorted_by_start(merged@),
            ranges_ordered(merged@),
            n == merged@.len(),
            0 <= idx <= n,
            processor.range_skipper.total_count == sk0.total_count + idx,
            sk0.total_count + n <= usize::MAX,
            prev == if idx == 0 {
                None::<u64>
            } else {
                Some(merged@[idx as int - 1].spec_start_time())
            },
            forall|w: int| idx <= w < n ==> t <= (#[trigger] merged@[w]).spec_start_time(),
            lanes_inv(r@, active@, used@, t),
            spec_place(merged@, sk0, None, Seq::empty()) == spec_place(
                merged@.skip(idx as int),
                processor.range_skipper,
                prev,
                r@,
            ),
        decreases n - idx,
    {
        let ghost rest = merged@.skip(idx as int);
        proof {
            assert(rest[0] == merged@[idx as int]);
            assert(rest.drop_first() =~= merged@.skip(idx as int + 1));
        }
        let ev = merged[idx];
        let s = ev.start_time();
        let e = ev.end_time();
        proof {
            assert(merged@[idx as int].spec_start_time() <= merged@[idx as int].spec_end_time());
            if idx > 0 {
                assert(merged@[idx as int - 1].spec_start_time() <= merged@[
                    idx as int
                ].spec_start_time());
            }
        }
        let dist: u64 = match prev {
            Some(p) => s - p,
            None => skip_thr + 1,
        };
        let dur: u64 = e - s;
        proof {
            assert(dist == range_distance(prev, s, processor.range_skipper.skip_thr));
        }
        let keep = processor.should_keep_range(dist, dur);
        if keep {
            // Retire every active range that ended at or before this start,
            // freeing its lane.
            let mut a: usize = 0;
            while a < active.len()
                invariant
                    used@.len() == 256,
                    a <= active@.len(),
                    forall|w: int| 0 <= w < a ==> (#[trigger] active@[w]).0 > s,
                    forall|w: int|
                        0 <= w < active@.len() ==> entry_placed(r@, #[trigger] active@[w]),
                    forall|p: int|
                        0 <= p < r@.len() && (#[trigger] r@[p]).ev.spec_end_time() > s
                            ==> placed_entry_active(active@, r@[p]),
                    forall|y: int| 0 <= y < 255 ==> (#[trigger] used@[y]) == lane_active(active@, y),
                    forall|x: int, b: int|
                        0 <= x < b < active@.len() && (#[trigger] active@[x]).1 < 255 ==> active@[x].1
                            != (#[trigger] active@[b]).1,
                decreases active@.len() - a,
            {
                if active[a].0 <= s {
                    let ghost old_active = active@;
                    let ghost old_used = used@;
                    let (_expired_end, expired_y) = active.swap_remove(a);
                    used.set(expired_y as usize, false);
                    proof {
                        let new_active = active@;
                        assert(new_active =~= old_active.update(a as int, old_active.last()).drop_last());
                        assert forall|w: int|
                            0 <= w < new_active.len() implies entry_placed(
                            r@,
                            #[trigger] new_active[w],
                        ) by {
                            if w == a {
                                assert(new_active[w] == old_active[old_active.len() - 1]);
                            } else {
                                assert(new_active[w] == old_active[w]);
                            }
                        }
                        assert forall|p: int|
                            0 <= p < r@.len() && (#[trigger] r@[p]).ev.spec_end_time() > s implies placed_entry_active(
                            new_active,
                            r@[p],
                        ) by {
                            let w = choose|w: int|
                                0 <= w < old_active.len() && (#[trigger] old_active[w]).0 == r@[
                                    p
                                ].ev.spec_end_time() && old_active[w].1 == r@[p].y;
                            assert(old_active[w].0 > s);
                            assert(w != a);
                            if w == old_active.len() - 1 {
                                assert(new_active[a as int] == old_active[w]);
                            } else {
                                assert(new_active[w] == old_active[w]);
                            }
                        }
                        assert forall|y: int| 0 <= y < 255 implies (#[trigger] used@[y])
                            == lane_active(new_active, y) by {
                            if y == expired_y as int {
                                assert(!used@[y]);
                                if lane_active(new_active, y) {
                                    let w = choose|w: int|
                                        0 <= w < new_active.len() && (#[trigger] new_active[w]).1
                                            == y;
                                    let worig: int = if w == a {
                                        old_active.len() - 1
                                    } else {
                                        w
                                    };
                                    assert(old_active[worig] == new_active[w]);
                                    assert(old_active[worig].1 == expired_y);
                                    if worig < a {
                                        assert(old_active[worig].1 != old_active[a as int].1);
                                    } else {
                                        assert(worig > a);
                                        assert(old_active[a as int].1 != old_active[worig].1);
                                    }
                                    assert(false);
                                }
                            } else {
                                assert(used@[y] == old_used[y]);
                                if old_used[y] {
                                    let w = choose|w: int|
                                        0 <= w < old_active.len() && (#[trigger] old_active[w]).1
                                            == y;
                                    assert(w != a);
                                    if w == old_active.len() - 1 {
                                        assert(new_active[a as int].1 == y);
                                    } else {
                                        assert(new_active[w].1 == y);
                                    }
                                    assert(lane_active(new_active, y));
                                }
                                if lane_active(new_active, y) {
                                    let w = choose|w: int|
                                        0 <= w < new_active.len() && (#[trigger] new_active[w]).1
                                            == y;
                                    if w == a {
                                        assert(old_active[old_active.len() - 1].1 == y);
                                    } else {
                                        assert(old_active[w].1 == y);
                                    }
                                    assert(lane_active(old_active, y));
                                }
                            }
                        }
                        assert forall|x: int, b: int|
                            0 <= x < b < new_active.len() && (#[trigger] new_active[x]).1
                                < 255 implies new_active[x].1 != (#[trigger] new_active[b]).1 by {
                            let xo: int = if x == a {
                                old_active.len() - 1
                            } else {
                                x
                            };
                            let bo: int = if b == a {
                                old_active.len() - 1
                            } else {
                                b
                            };
                            assert(new_active[x] == old_active[xo]);
                            assert(new_active[b] == old_active[bo]);
                            if xo < bo {
                                assert(old_active[xo].1 != old_active[bo].1);
                            } else {
                                assert(bo < xo);
                                assert(old_active[bo].1 < 255 ==> old_active[bo].1 != old_active[xo].1);
                                if old_active[bo].1 == old_active[xo].1 {
                                    assert(old_active[bo].1 == new_active[x].1);
                                }
                            }
                        }
                    }
                } else {
                    a = a + 1;
                }
            }
            // First-fit lane scan over the bitmap.
            let mut y_pos: u8 = 0;
            proof {
                assert forall|y: int| 0 <= y < 255 && #[trigger] used@[y] implies y_used(
                    r@,
                    s,
                    y,
                ) by {
                    let w = choose|w: int|
                        0 <= w < active@.len() && (#[trigger] active@[w]).1 == y;
                    let p = choose|p: int|
                        0 <= p < r@.len() && (#[trigger] r@[p]).ev.spec_end_time() == active@[w].0
                            && r@[p].y == active@[w].1;
                    assert(active@[w].0 > s);
                }
                assert forall|y: int| 0 <= y < 255 && y_used(r@, s, y) implies #[trigger] used@[y] by {
                    let p = choose|p: int|
                        0 <= p < r@.len() && (#[trigger] r@[p]).ev.spec_end_time() > s && r@[p].y
                            == y;
                    assert(placed_entry_active(active@, r@[p]));
                    let w = choose|w: int|
                        0 <= w < active@.len() && (#[trigger] active@[w]).0 == r@[
                            p
                        ].ev.spec_end_time() && active@[w].1 == r@[p].y;
                    assert(lane_active(active@, y));
                }
            }
            while y_pos < 255 && used[y_pos as usize]
                invariant
                    used@.len() == 256,
                    0 <= y_pos <= 255,
                    forall|y: int| 0 <= y < 255 ==> ((#[trigger] used@[y]) == y_used(r@, s, y)),
                    first_free_y(r@, s, 0) == first_free_y(r@, s, y_pos as int),
                decreases 255 - y_pos,
            {
                y_pos = y_pos + 1;
            }
            proof {
                assert(first_free_y(r@, s, 0) == y_pos as int);
            }
            let ghost pass_active = active@;
            used.set(y_pos as usize, true);
            active.push((e, y_pos));
            let ghost old_r = r@;
            r.push(PlacedRange { ev, y: y_pos });
            proof {
                let new_active = active@;
                assert(new_active.drop_last() =~= pass_active);
                let pr = PlacedRange { ev, y: y_pos };
                assert(r@ == old_r.push(pr));
                t = s;
                assert forall|w: int| idx + 1 <= w < n implies t <= (
                #[trigger] merged@[w]).spec_start_time() by {
                    assert(merged@[idx as int].spec_start_time() <= merged@[w].spec_start_time());
                }
                assert forall|w: int|
                    0 <= w < new_active.len() implies entry_placed(r@, #[trigger] new_active[w]) by {
                    if w < new_active.len() - 1 {
                        assert(entry_placed(old_r, new_active[w]));
                        let p = choose|p: int|
                            0 <= p < old_r.len() && (#[trigger] old_r[p]).ev.spec_end_time()
                                == new_active[w].0 && old_r[p].y == new_active[w].1;
                        assert(r@[p] == old_r[p]);
                    } else {
                        assert(new_active[w] == (e, y_pos));
                        assert(r@[old_r.len() as int] == pr);
                    }
                }
                assert forall|p: int|
                    0 <= p < r@.len() && (#[trigger] r@[p]).ev.spec_end_time() > t implies placed_entry_active(
                    new_active,
                    r@[p],
                ) by {
                    if p < old_r.len() {
                        assert(r@[p] == old_r[p]);
                        assert(placed_entry_active(new_active.drop_last(), old_r[p]));
                        let w = choose|w: int|
                            0 <= w < new_active.drop_last().len() && (#[trigger] new_active.drop_last()[w]).0 == old_r[p].ev.spec_end_time()
                                && new_active.drop_last()[w].1 == old_r[p].y;
                        assert(new_active[w] == new_active.drop_last()[w]);
                    } else {
                        assert(r@[p] == pr);
                        assert(new_active[new_active.len() - 1] == (e, y_pos));
                    }
                }
                assert forall|y: int| 0 <= y < 255 implies (#[trigger] used@[y]) == lane_active(
                    new_active,
                    y,
                ) by {
                    if y == y_pos as int {
                        assert(new_active[new_active.len() - 1].1 == y_pos);
                        assert(lane_active(new_active, y));
                    } else {
                        if lane_active(new_active, y) {
                            let w = choose|w: int|
                                0 <= w < new_active.len() && (#[trigger] new_active[w]).1 == y;
                            assert(w < new_active.len() - 1);
                            assert(new_active.drop_last()[w].1 == y);
                            assert(lane_active(new_active.drop_last(), y));
                        }
                        if lane_active(new_active.drop_last(), y) {
                            let w = choose|w: int|
                                0 <= w < new_active.drop_last().len() && (
                                #[trigger] new_active.drop_last()[w]).1 == y;
                            assert(new_active[w].1 == y);
                            assert(lane_active(new_active, y));
                        }
                    }
                }
                assert forall|x: int, b: int|
                    0 <= x < b < new_active.len() && (#[trigger] new_active[x]).1 < 255 implies new_active[x].1
                    != (#[trigger] new_active[b]).1 by {
                    if b == new_active.len() - 1 {
                        if y_pos < 255 && new_active[x].1 == y_pos {
                            assert(new_active.drop_last()[x].1 == y_pos);
                            assert(lane_active(new_active.drop_last(), y_pos as int));
                            assert(used@[y_pos as int]);
                            assert(false);
                        }
                        if y_pos == 255 {
                            assert(new_active[b].1 == 255);
                        }
                    }
                }
            }
            prev = Some(s);
            idx = idx + 1;
        } else {
            prev = Some(s);
            idx = idx + 1;
        }
    }
    proof {
        assert(merged@.skip(n as int) =~= Seq::<RangeEventType>::empty());
    }
    r
}

/// Decimation of a timestamp-sorted instant run: each instant is judged by
/// its distance to the next one and emitted when kept; the final instant is
/// always emitted.
pub open spec fn spec_decimate_instants(
    evs: Seq<crate::storage::StoredInstantEvent>,
    sk: EventSkipper,
) -> (Seq<crate::storage::StoredInstantEvent>, EventSkipper)
    decreases evs.len(),
{
    if evs.len() <= 1 {
        (evs, sk)
    } else {
        let diff = (evs[1].tm - evs[0].tm) as u64;
        let keep = crate::skipper::spec_keep_instant(sk, diff);
        let sk2 = crate::skipper::step_instant(sk, diff);
        let r = spec_decimate_instants(evs.drop_first(), sk2);
        ((if keep {
            seq![evs[0]]
        } else {
            Seq::empty()
        }) + r.0, r.1)
    }
}

/// Runs the instant-class skipper over a sorted instant run, buffering each
/// instant until the next arrives and always flushing the last one.
pub fn decimate_instants(
    events: &Vec<crate::storage::StoredInstantEvent>,
    processor: &mut EventSkippingProcessor,
) -> (r: Vec<crate::storage::StoredInstantEvent>)
    requires
        old(processor).wf(),
        crate::storage::sorted_by_tm(events@),
        old(processor).instant_skipper.total_count + events@.len() <= usize::MAX,
    ensures
        final(processor).wf(),
        final(processor).range_skipper == old(processor).range_skipper,
        (r@, final(processor).instant_skipper) == spec_decimate_instants(
            events@,
            old(processor).instant_skipper,
        ),
{
    let ghost sk0 = processor.instant_skipper;
    let mut r: Vec<crate::storage::StoredInstantEvent> = Vec::new();
    let n = events.len();
    if n == 0 {
        return r;
    }
    let mut i: usize = 1;
    proof {
        assert(events@.skip(0) =~= events@);
    }
    while i < n
        invariant
            1 <= i <= n == events@.len(),
            processor.wf(),
            processor.range_skipper == old(processor).range_skipper,
            processor.instant_skipper.total_count == sk0.total_count + i - 1,
            sk0.total_count + n <= usize::MAX,
            crate::storage::sorted_by_tm(events@),
            spec_decimate_instants(events@, sk0) == ((r@ + spec_decimate_instants(
                events@.skip(i as int - 1),
                processor.instant_skipper,
            ).0), spec_decimate_instants(
                events@.skip(i as int - 1),
                processor.instant_skipper,
            ).1),
        decreases n - i,
    {
        let ghost rest = events@.skip(i as int - 1);
        proof {
            assert(rest[0] == events@[i as int - 1]);
            assert(rest[1] == events@[i as int]);
            assert(rest.drop_first() =~= events@.skip(i as int));
            assert(events@[i as int - 1].tm <= events@[i as int].tm);
        }
        let tm_diff = events[i].tm - events[i - 1].tm;
        let keep = processor.should_keep_instant(tm_diff);
        let ghost old_r = r@;
        if keep {
            r.push(events[i - 1]);
        }
        proof {
            let stepped = spec_decimate_instants(events@.skip(i as int), processor.instant_skipper);
            assert(spec_decimate_instants(rest, spec_decimate_instants(
                events@,
                sk0,
            ).1) == spec_decimate_instants(rest, spec_decimate_instants(events@, sk0).1));
            if keep {
                assert(old_r + (seq![events@[i as int - 1]] + stepped.0) =~= r@ + stepped.0);
            } else {
                assert(old_r + (Seq::<crate::storage::StoredInstantEvent>::empty() + stepped.0)
                    =~= r@ + stepped.0);
            }
        }
        i = i + 1;
    }
    proof {
        let tail = events@.skip(n as int - 1);
        assert(tail.len() == 1);
        assert(tail[0] == events@[n as int - 1]);
        assert(spec_decimate_instants(tail, processor.instant_skipper) == (
            tail,
            processor.instant_skipper,
        ));
    }
    r.push(events[n - 1]);
    proof {
        let tail = events@.skip(n as int - 1);
        assert(r@ =~= spec_decimate_instants(events@, sk0).0) by {
            assert(seq![events@[n as int - 1]] =~= tail);
        }
    }
    r
}

/// The largest lane used by the placed ranges, or 0 when none were kept.
pub open spec fn spec_max_y(placed: Seq<PlacedRange>) -> u8
    decreases placed.len(),
{
    if placed.len() == 0 {
        0
    } else {
        let rest = spec_max_y(placed.drop_last());
        if placed.last().y > rest {
            placed.last().y
        } else {
            rest
        }
    }
}

/// Scans the placed ranges for the highest lane in use.
pub fn max_range_y(placed: &Vec<PlacedRange>) -> (r: u8)
    ensures
        r == spec_max_y(placed@),
{
    let mut r: u8 = 0;
    let mut i: usize = 0;
    proof {
        assert(placed@.take(0) =~= Seq::<PlacedRange>::empty());
    }
    while i < placed.len()
        invariant
            0 <= i <= placed@.len(),
            r == spec_max_y(placed@.take(i as int)),
        decreases placed@.len() - i,
    {
        proof {
            assert(placed@.take(i as int + 1).drop_last() =~= placed@.take(i as int));
            assert(placed@.take(i as int + 1).last() == placed@[i as int]);
        }
        if placed[i].y > r {
            r = placed[i].y;
        }
        i = i + 1;
    }
    proof {
        assert(placed@.take(placed@.len() as int) =~= placed@);
    }
    r
}

/// Non-decreasing start times in a stored-range query result.
pub open spec fn stored_sorted<T>(s: Seq<StoredRangeEvent<T>>) -> bool {
    forall|a: int, b: int|
        0 <= a <= b < s.len() ==> (#[trigger] s[a]).start <= (#[trigger] s[b]).start
}

/// Every stored range runs forward in time.
pub open spec fn stored_ordered<T>(s: Seq<StoredRangeEvent<T>>) -> bool {
    forall|a: int| 0 <= a < s.len() ==> (#[trigger] s[a]).start <= s[a].end
}

/// At most one placement per merged event.
pub proof fn lemma_spec_place_len(
    evs: Seq<RangeEventType>,
    sk: EventSkipper,
    prev: Option<u64>,
    acc: Seq<PlacedRange>,
)
    ensures
        spec_place(evs, sk, prev, acc).0.len() <= acc.len() + evs.len(),
    decreases evs.len(),
{
    if evs.len() > 0 {
        let ev = evs[0];
        let dist = range_distance(prev, ev.spec_start_time(), sk.skip_thr);
        let dur = (ev.spec_end_time() - ev.spec_start_time()) as u64;
        let sk2 = step_range(sk, dist, dur);
        if spec_keep_range(sk, dist, dur) {
            lemma_spec_place_len(
                evs.drop_first(),
                sk2,
                Some(ev.spec_start_time()),
                acc.push(PlacedRange { ev, y: first_free_y(acc, ev.spec_start_time(), 0) as u8 }),
            );
        } else {
            lemma_spec_place_len(evs.drop_first(), sk2, Some(ev.spec_start_time()), acc);
        }
    }
}

/// Instant decimation never emits more instants than it was given.
pub proof fn lemma_decimate_instants_len(
    evs: Seq<crate::storage::StoredInstantEvent>,
    sk: EventSkipper,
)
    ensures
        spec_decimate_instants(evs, sk).0.len() <= evs.len(),
    decreases evs.len(),
{
    if evs.len() > 1 {
        let diff = (evs[1].tm - evs[0].tm) as u64;
        lemma_decimate_instants_len(evs.drop_first(), crate::skipper::step_instant(sk, diff));
    }
}

/// Consecutive timestamp gaps of an instant run: the distances the skipper
/// decides on.
pub open spec fn instant_gaps(evs: Seq<crate::storage::StoredInstantEvent>) -> Seq<u64>
    decreases evs.len(),
{
    if evs.len() <= 1 {
        Seq::empty()
    } else {
        seq![(evs[1].tm - evs[0].tm) as u64] + instant_gaps(evs.drop_first())
    }
}

proof fn lemma_instant_gaps_len(evs: Seq<crate::storage::StoredInstantEvent>)
    ensures
        instant_gaps(evs).len() == if evs.len() == 0 {
            0int
        } else {
            evs.len() - 1
        },
    decreases evs.len(),
{
    if evs.len() > 1 {
        lemma_instant_gaps_len(evs.drop_first());
    }
}

/// The decimated instant run holds at most one instant per kept decision,
/// plus the unconditionally flushed final instant.
proof fn lemma_decimate_kept_vs_decisions(
    evs: Seq<crate::storage::StoredInstantEvent>,
    sk: EventSkipper,
)
    ensures
        evs.len() == 0 ==> spec_decimate_instants(evs, sk).0.len() == 0,
        evs.len() > 0 ==> spec_decimate_instants(evs, sk).0.len()
            <= crate::skipper::instant_kept_count(sk, instant_gaps(evs)) + 1,
    decreases evs.len(),
{
    if evs.len() <= 1 {
    } else {
        let diff = (evs[1].tm - evs[0].tm) as u64;
        let keep = crate::skipper::spec_keep_instant(sk, diff);
        let sk2 = crate::skipper::step_instant(sk, diff);
        lemma_decimate_kept_vs_decisions(evs.drop_first(), sk2);
        assert(instant_gaps(evs)[0] == diff);
        assert(instant_gaps(evs).drop_first() =~= instant_gaps(evs.drop_first()));
        assert(crate::skipper::instant_kept_count(sk, instant_gaps(evs)) == (if keep {
            1nat
        } else {
            0nat
        }) + crate::skipper::instant_kept_count(sk2, instant_gaps(evs.drop_first())));
    }
}

/// Law (decimation cap, instants): over a dense sorted run — every gap below
/// the skip threshold — the decimated output holds at most `max_events`
/// kept instants plus the always-flushed final one.
pub proof fn lemma_dense_instant_pipeline_cap(
    evs: Seq<crate::storage::StoredInstantEvent>,
    skip_thr: u64,
    max_events: usize,
)
    requires
        1 <= max_events,
        0 < evs.len(),
        evs.len() + max_events <= usize::MAX,
        forall|i: int|
            0 <= i < instant_gaps(evs).len() ==> #[trigger] instant_gaps(evs)[i] < skip_thr,
    ensures
        spec_decimate_instants(
            evs,
            crate::skipper::fresh_skipper(skip_thr, max_events, evs.len() as usize),
        ).0.len() <= max_events + 1,
{
    let sk = crate::skipper::fresh_skipper(skip_thr, max_events, evs.len() as usize);
    lemma_instant_gaps_len(evs);
    lemma_decimate_kept_vs_decisions(evs, sk);
    crate::skipper::lemma_dense_decimation_cap(
        skip_thr,
        max_events,
        evs.len() as usize,
        instant_gaps(evs),
    );
}

/// The larger of each range's start distance and duration: the values the
/// range skipper effectively decides on.
pub open spec fn place_diffs(evs: Seq<RangeEventType>, prev: Option<u64>, skip_thr: u64) -> Seq<
    u64,
>
    decreases evs.len(),
{
    if evs.len() == 0 {
        Seq::empty()
    } else {
        let d = range_distance(prev, evs[0].spec_start_time(), skip_thr);
        let u = (evs[0].spec_end_time() - evs[0].spec_start_time()) as u64;
        seq![if d >= u {
            d
        } else {
            u
        }] + place_diffs(evs.drop_first(), Some(evs[0].spec_start_time()), skip_thr)
    }
}

proof fn lemma_place_diffs_len(evs: Seq<RangeEventType>, prev: Option<u64>, skip_thr: u64)
    ensures
        place_diffs(evs, prev, skip_thr).len() == evs.len(),
    decreases evs.len(),
{
    if evs.len() > 0 {
        lemma_place_diffs_len(evs.drop_first(), Some(evs[0].spec_start_time()), skip_thr);
    }
}

/// The placement keeps at most one range per kept decision.
proof fn lemma_place_kept_vs_decisions(
    evs: Seq<RangeEventType>,
    sk: EventSkipper,
    prev: Option<u64>,
    acc: Seq<PlacedRange>,
)
    ensures
        spec_place(evs, sk, prev, acc).0.len() <= acc.len() + crate::skipper::instant_kept_count(
            sk,
            place_diffs(evs, prev, sk.skip_thr),
        ),
    decreases evs.len(),
{
    if evs.len() > 0 {
        let ev = evs[0];
        let d = range_distance(prev, ev.spec_start_time(), sk.skip_thr);
        let u = (ev.spec_end_time() - ev.spec_start_time()) as u64;
        let m = if d >= u {
            d
        } else {
            u
        };
        crate::skipper::lemma_range_step_as_instant(sk, d, u);
        let sk2 = step_range(sk, d, u);
        assert(sk2.skip_thr == sk.skip_thr);
        let diffs = place_diffs(evs, prev, sk.skip_thr);
        assert(diffs[0] == m);
        assert(diffs.drop_first() =~= place_diffs(
            evs.drop_first(),
            Some(ev.spec_start_time()),
            sk.skip_thr,
        ));
        if spec_keep_range(sk, d, u) {
            let acc2 = acc.push(
                PlacedRange { ev, y: first_free_y(acc, ev.spec_start_time(), 0) as u8 },
            );
            lemma_place_kept_vs_decisions(evs.drop_first(), sk2, Some(ev.spec_start_time()), acc2);
        } else {
            lemma_place_kept_vs_decisions(evs.drop_first(), sk2, Some(ev.spec_start_time()), acc);
        }
    }
}

/// Law (decimation cap, ranges): over a dense merged run — every start
/// distance and duration below the skip threshold — the placement keeps at
/// most `max_events` ranges.
pub proof fn lemma_dense_range_pipeline_cap(
    evs: Seq<RangeEventType>,
    skip_thr: u64,
    max_events: usize,
    prev: Option<u64>,
)
    requires
        1 <= max_events,
        0 < evs.len(),
        evs.len() + max_events <= usize::MAX,
        forall|i: int|
            0 <= i < place_diffs(evs, prev, skip_thr).len() ==> #[trigger] place_diffs(
                evs,
                prev,
                skip_thr,
            )[i] < skip_thr,
    ensures
        spec_place(
            evs,
            crate::skipper::fresh_skipper(skip_thr, max_events, evs.len() as usize),
            prev,
            Seq::empty(),
        ).0.len() <= max_events,
{
    let sk = crate::skipper::fresh_skipper(skip_thr, max_events, evs.len() as usize);
    lemma_place_diffs_len(evs, prev, skip_thr);
    lemma_place_kept_vs_decisions(evs, sk, prev, Seq::empty());
    crate::skipper::lemma_dense_decimation_cap(
        skip_thr,
        max_events,
        evs.len() as usize,
        place_diffs(evs, prev, skip_thr),
    );
}

/// Runs the range pipeline of one channel: merge the two query results,
/// decide and place each range, and serialize the two class sections.
/// Returns the local section, the cross-thread section, and the highest
/// range lane in use.
pub fn process_range_events(
    local_events: &Vec<StoredRangeEvent<()>>,
    cross_thread_events: &Vec<StoredRangeEvent<u64>>,
    processor: &mut EventSkippingProcessor,
    skip_thr: u64,
) -> (r: (Vec<u8>, Vec<u8>, u8))
    requires
        old(processor).wf(),
        old(processor).range_skipper.skip_thr == skip_thr,
        skip_thr < u64::MAX,
        stored_sorted(local_events@),
        stored_sorted(cross_thread_events@),
        stored_ordered(local_events@),
        stored_ordered(cross_thread_events@),
        old(processor).range_skipper.total_count + local_events@.len()
            + cross_thread_events@.len() <= usize::MAX,
    ensures
        final(processor).wf(),
        final(processor).instant_skipper == old(processor).instant_skipper,
        ({
            let merged = spec_merge(
                local_events@.map(|_i: int, e: StoredRangeEvent<()>| to_local_event(e)),
                cross_thread_events@.map(|_i: int, e: StoredRangeEvent<u64>| to_cross_event(e)),
            );
            let placed = spec_place(merged, old(processor).range_skipper, None, Seq::empty());
            &&& r.0@ == crate::frame::ranges_bytes(placed.0, false)
            &&& r.1@ == crate::frame::ranges_bytes(placed.0, true)
            &&& r.2 == spec_max_y(placed.0)
            &&& final(processor).range_skipper == placed.1
        }),
{
    let ghost a_all = local_events@.map(|_i: int, e: StoredRangeEvent<()>| to_local_event(e));
    let ghost b_all = cross_thread_events@.map(
        |_i: int, e: StoredRangeEvent<u64>| to_cross_event(e),
    );
    let merged = merge_range_events(local_events, cross_thread_events);
    proof {
        assert forall|a: int, b: int| 0 <= a <= b < a_all.len() implies (
        #[trigger] a_all[a]).spec_start_time() <= (#[trigger] a_all[b]).spec_start_time() by {
            assert(a_all[a] == to_local_event(local_events@[a]));
            assert(a_all[b] == to_local_event(local_events@[b]));
        }
        assert forall|a: int, b: int| 0 <= a <= b < b_all.len() implies (
        #[trigger] b_all[a]).spec_start_time() <= (#[trigger] b_all[b]).spec_start_time() by {
            assert(b_all[a] == to_cross_event(cross_thread_events@[a]));
            assert(b_all[b] == to_cross_event(cross_thread_events@[b]));
        }
        lemma_spec_merge_sorted(a_all, b_all);
        assert forall|a: int| 0 <= a < merged@.len() implies (
        #[trigger] merged@[a]).spec_start_time() <= merged@[a].spec_end_time() by {
            if a_all.contains(merged@[a]) {
                let w = choose|w: int| 0 <= w < a_all.len() && a_all[w] == merged@[a];
                assert(a_all[w] == to_local_event(local_events@[w]));
                assert(local_events@[w].start <= local_events@[w].end);
            } else {
                assert(b_all.contains(merged@[a]));
                let w = choose|w: int| 0 <= w < b_all.len() && b_all[w] == merged@[a];
                assert(b_all[w] == to_cross_event(cross_thread_events@[w]));
                assert(cross_thread_events@[w].start <= cross_thread_events@[w].end);
            }
        }
    }
    let placed = place_ranges(&merged, processor, skip_thr);
    let (local_buf, cross_buf) = crate::frame::encode_range_sections(&placed);
    let max_y = max_range_y(&placed);
    (local_buf, cross_buf, max_y)
}

} // verus!
