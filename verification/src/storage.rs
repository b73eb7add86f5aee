//! Per-channel event storage: a timestamp-sorted list of instant events and
//! two range-event stores (local and cross-thread), each indexed by start
//! time for windowed queries.

use vstd::prelude::*;

verus! {

/// An instant event as stored: a timestamp and an interned name id.
#[derive(Debug, Clone, Copy)]
pub struct StoredInstantEvent {
    pub tm: u64,
    pub name_id: u16,
}

impl StoredInstantEvent {
    pub fn new(tm: u64, name_id: u16) -> (r: Self)
        ensures
            r == (StoredInstantEvent { tm, name_id }),
    {
        StoredInstantEvent { tm, name_id }
    }
}

/// A range event as stored. `extra` is `()` for local ranges and the origin
/// thread id (`u64`) for cross-thread ranges.
#[derive(Debug, Clone, Copy)]
pub struct StoredRangeEvent<T> {
    pub start: u64,
    pub end: u64,
    pub name_id: u16,
    pub end_name_id: Option<u16>,
    pub extra: T,
}

/// Lexicographic order on (start time, slot id) pairs of the start index.
pub open spec fn lex_lt(a: (u64, usize), b: (u64, usize)) -> bool {
    a.0 < b.0 || (a.0 == b.0 && a.1 < b.1)
}

/// Every index pair points at a live slot whose start time equals the key.
pub open spec fn index_pairs_ok<T>(
    events: Seq<StoredRangeEvent<T>>,
    index: Seq<(u64, usize)>,
) -> bool {
    forall|k: int|
        0 <= k < index.len() ==> (#[trigger] index[k]).1 < events.len()
            && events[index[k].1 as int].start == index[k].0
}

/// The index is strictly sorted by (start time, slot id).
pub open spec fn index_sorted(index: Seq<(u64, usize)>) -> bool {
    forall|k: int, l: int|
        0 <= k < l < index.len() ==> lex_lt(#[trigger] index[k], #[trigger] index[l])
}

/// Range events of one class, held in an append-only slot table together
/// with a start-time index so windowed queries run in start order.
pub struct RangeEventStorage<T> {
    pub events: Vec<StoredRangeEvent<T>>,
    pub starts_index: Vec<(u64, usize)>,
}

impl<T> RangeEventStorage<T> {
    pub open spec fn index_has_slot(&self, s: int) -> bool {
        exists|k: int|
            0 <= k < self.starts_index@.len() && (#[trigger] self.starts_index@[k]).1 == s
    }

    pub open spec fn wf(&self) -> bool {
        &&& self.starts_index@.len() == self.events@.len()
        &&& index_pairs_ok(self.events@, self.starts_index@)
        &&& index_sorted(self.starts_index@)
        &&& forall|s: int| 0 <= s < self.events@.len() ==> self.index_has_slot(s)
        &&& forall|s: int|
            0 <= s < self.events@.len() ==> (#[trigger] self.events@[s]).start
                <= self.events@[s].end
    }

    pub fn new() -> (r: Self)
        ensures
            r.wf(),
            r.events@.len() == 0,
    {
        RangeEventStorage { events: Vec::new(), starts_index: Vec::new() }
    }

    pub fn len(&self) -> (r: usize)
        ensures
            r == self.events@.len(),
    {
        self.events.len()
    }

    /// First index position whose key is strictly greater than `start`.
    fn index_upper_bound(&self, start: u64) -> (i: usize)
        requires
            index_sorted(self.starts_index@),
        ensures
            i <= self.starts_index@.len(),
            forall|j: int| 0 <= j < i ==> (#[trigger] self.starts_index@[j]).0 <= start,
            forall|j: int|
                i <= j < self.starts_index@.len() ==> (#[trigger] self.starts_index@[j]).0
                    > start,
    {
        let mut lo: usize = 0;
        let mut hi: usize = self.starts_index.len();
        while lo < hi
            invariant
                lo <= hi <= self.starts_index@.len(),
                index_sorted(self.starts_index@),
                forall|j: int| 0 <= j < lo ==> (#[trigger] self.starts_index@[j]).0 <= start,
                forall|j: int|
                    hi <= j < self.starts_index@.len() ==> (#[trigger] self.starts_index@[j]).0
                        > start,
            decreases hi - lo,
        {
            let mid = lo + (hi - lo) / 2;
            if self.starts_index[mid].0 <= start {
                assert forall|j: int| 0 <= j < mid + 1 implies (#[trigger] self.starts_index@[j]).0
                    <= start by {
                    if j < mid {
                        assert(lex_lt(self.starts_index@[j], self.starts_index@[mid as int]));
                    }
                }
                lo = mid + 1;
            } else {
                assert forall|j: int|
                    mid <= j < self.starts_index@.len() implies (#[trigger] self.starts_index@[j]).0
                    > start by {
                    if j > mid {
                        assert(lex_lt(self.starts_index@[mid as int], self.starts_index@[j]));
                    }
                }
                hi = mid;
            }
        }
        lo
    }

    /// Appends the payload to the slot table and places the new slot id in
    /// the start index, after any slots that share the same start.
    pub fn insert(&mut self, start: u64, end: u64, name_id: u16, end_name_id: Option<u16>, extra: T)
        -> (id: usize)
        requires
            old(self).wf(),
            start <= end,
        ensures
            final(self).wf(),
            id == old(self).events@.len(),
            final(self).events@ == old(self).events@.push(
                StoredRangeEvent { start, end, name_id, end_name_id, extra },
            ),
    {
        let ghost old_index = self.starts_index@;
        let ghost old_events = self.events@;
        let pos = self.index_upper_bound(start);
        let id = self.events.len();
        self.events.push(StoredRangeEvent { start, end, name_id, end_name_id, extra });
        self.starts_index.insert(pos, (start, id));
        proof {
            let new_index = self.starts_index@;
            let new_events = self.events@;
            assert forall|k: int| 0 <= k < new_index.len() implies (#[trigger] new_index[k]).1
                < new_events.len() && new_events[new_index[k].1 as int].start == new_index[k].0 by {
                if k < pos {
                    assert(new_index[k] == old_index[k]);
                } else if k == pos {
                } else {
                    assert(new_index[k] == old_index[k - 1]);
                }
            }
            assert forall|k: int, l: int| 0 <= k < l < new_index.len() implies lex_lt(
                #[trigger] new_index[k],
                #[trigger] new_index[l],
            ) by {
                let a = if k < pos { old_index[k] } else if k == pos { (start, id) } else {
                    old_index[k - 1]
                };
                let b = if l < pos { old_index[l] } else if l == pos { (start, id) } else {
                    old_index[l - 1]
                };
                assert(new_index[k] == a);
                assert(new_index[l] == b);
                if k == pos {
                    // b is an old pair at position l - 1 >= pos: key > start
                } else if l == pos {
                    // a is an old pair at position k < pos: key <= start, and its
                    // slot id is below the new id
                } else if k < pos && l > pos {
                    assert(lex_lt(old_index[k], old_index[l - 1]));
                }
            }
            assert forall|s: int| 0 <= s < new_events.len() implies self.index_has_slot(s) by {
                if s < old_events.len() {
                    assert(old(self).index_has_slot(s));
                    let k = choose|k: int|
                        0 <= k < old_index.len() && (#[trigger] old_index[k]).1 == s;
                    assert(0 <= k < old_index.len() && old_index[k].1 == s);
                    if k < pos {
                        assert(new_index[k].1 == s);
                    } else {
                        assert(new_index[k + 1].1 == s);
                    }
                } else {
                    assert(new_index[pos as int].1 == s);
                }
            }
            assert forall|s: int| 0 <= s < new_events.len() implies (#[trigger] new_events[s]).start
                <= new_events[s].end by {}
        }
        id
    }
}

/// Slot ids listed by a windowed range query over `[qs, qe)`: index pairs are
/// visited in (start, slot) order until the first key at or past `qe`, and a
/// slot is listed when its event ends after `qs`.
pub open spec fn window_ids<T>(
    events: Seq<StoredRangeEvent<T>>,
    index: Seq<(u64, usize)>,
    qs: u64,
    qe: u64,
) -> Seq<int>
    decreases index.len(),
{
    if index.len() == 0 {
        Seq::empty()
    } else if index[0].0 >= qe {
        Seq::empty()
    } else {
        let rest = window_ids(events, index.drop_first(), qs, qe);
        if events[index[0].1 as int].end > qs {
            seq![index[0].1 as int] + rest
        } else {
            rest
        }
    }
}

impl<T: Copy> RangeEventStorage<T> {
    /// The events overlapping the half-open window `[qs, qe)`, in (start,
    /// insertion) order: exactly those with `start < qe` and `end > qs`.
    pub fn request_events(&self, qs: u64, qe: u64) -> (r: Vec<StoredRangeEvent<T>>)
        requires
            self.wf(),
        ensures
            r@ == window_ids(self.events@, self.starts_index@, qs, qe).map(
                |_i: int, s: int| self.events@[s],
            ),
    {
        let ghost all = window_ids(self.events@, self.starts_index@, qs, qe);
        let mut r: Vec<StoredRangeEvent<T>> = Vec::new();
        let ghost mut taken: Seq<int> = Seq::empty();
        let n = self.starts_index.len();
        let mut k: usize = 0;
        proof {
            assert(self.starts_index@.skip(0) =~= self.starts_index@);
            assert(taken.map(|_i: int, s: int| self.events@[s]) =~= Seq::<
                StoredRangeEvent<T>,
            >::empty());
        }
        while k < n
            invariant_except_break
                self.wf(),
                n == self.starts_index@.len(),
                0 <= k <= n,
                all == window_ids(self.events@, self.starts_index@, qs, qe),
                all == taken + window_ids(self.events@, self.starts_index@.skip(k as int), qs, qe),
                r@ == taken.map(|_i: int, s: int| self.events@[s]),
            ensures
                all == taken,
                r@ == taken.map(|_i: int, s: int| self.events@[s]),
            decreases n - k,
        {
            let (key, slot) = self.starts_index[k];
            proof {
                assert(self.starts_index@.skip(k as int)[0] == self.starts_index@[k as int]);
            }
            if key >= qe {
                proof {
                    assert(window_ids(self.events@, self.starts_index@.skip(k as int), qs, qe)
                        =~= Seq::<int>::empty());
                    assert(all =~= taken);
                }
                break ;
            }
            proof {
                assert(self.starts_index@.skip(k as int).drop_first() =~= self.starts_index@.skip(
                    k as int + 1,
                ));
            }
            let ev = self.events[slot];
            if ev.end > qs {
                r.push(ev);
                proof {
                    let f = |_i: int, s: int| self.events@[s];
                    assert((taken + seq![slot as int]).map(f) =~= taken.map(f).push(
                        self.events@[slot as int],
                    ));
                    taken = taken + seq![slot as int];
                    assert(window_ids(self.events@, self.starts_index@.skip(k as int), qs, qe)
                        =~= seq![slot as int] + window_ids(
                        self.events@,
                        self.starts_index@.skip(k as int + 1),
                        qs,
                        qe,
                    ));
                }
            }
            k = k + 1;
        }
        proof {
            if k == n {
                assert(self.starts_index@.skip(n as int) =~= Seq::<(u64, usize)>::empty());
            }
        }
        r
    }
}

proof fn lemma_window_ids_props<T>(
    events: Seq<StoredRangeEvent<T>>,
    index: Seq<(u64, usize)>,
    qs: u64,
    qe: u64,
)
    requires
        index_pairs_ok(events, index),
        index_sorted(index),
    ensures
        ({
            let ids = window_ids(events, index, qs, qe);
            &&& forall|a: int|
                0 <= a < ids.len() ==> 0 <= #[trigger] ids[a] < events.len() && events[
                    ids[a]
                ].start < qe && events[ids[a]].end > qs
            &&& forall|a: int|
                0 <= a < ids.len() ==> exists|k: int|
                    0 <= k < index.len() && (#[trigger] index[k]).1 == #[trigger] ids[a]
            &&& forall|a: int, b: int|
                0 <= a < b < ids.len() ==> events[#[trigger] ids[a]].start < events[
                    #[trigger] ids[b]
                ].start || (events[ids[a]].start == events[ids[b]].start && ids[a] < ids[b])
        }),
    decreases index.len(),
{
    let ids = window_ids(events, index, qs, qe);
    if index.len() == 0 || index[0].0 >= qe {
    } else {
        let rest_index = index.drop_first();
        assert(index_pairs_ok(events, rest_index)) by {
            assert forall|k: int| 0 <= k < rest_index.len() implies (#[trigger] rest_index[k]).1
                < events.len() && events[rest_index[k].1 as int].start == rest_index[k].0 by {
                assert(rest_index[k] == index[k + 1]);
            }
        }
        assert(index_sorted(rest_index)) by {
            assert forall|k: int, l: int| 0 <= k < l < rest_index.len() implies lex_lt(
                #[trigger] rest_index[k],
                #[trigger] rest_index[l],
            ) by {
                assert(rest_index[k] == index[k + 1]);
                assert(rest_index[l] == index[l + 1]);
            }
        }
        lemma_window_ids_props(events, rest_index, qs, qe);
        let rest = window_ids(events, rest_index, qs, qe);
        let s0 = index[0].1 as int;
        if events[s0].end > qs {
            assert(ids == seq![s0] + rest);
            assert(ids[0] == s0);
            assert forall|a: int| 0 <= a < ids.len() implies exists|k: int|
                0 <= k < index.len() && (#[trigger] index[k]).1 == #[trigger] ids[a] by {
                if a == 0 {
                    assert(index[0].1 == ids[0]);
                } else {
                    assert(ids[a] == rest[a - 1]);
                    let k = choose|k: int|
                        0 <= k < rest_index.len() && (#[trigger] rest_index[k]).1 == rest[a - 1];
                    assert(index[k + 1] == rest_index[k]);
                    assert(index[k + 1].1 == ids[a]);
                }
            }
            assert forall|a: int, b: int| 0 <= a < b < ids.len() implies events[
                #[trigger] ids[a]
            ].start < events[#[trigger] ids[b]].start || (events[ids[a]].start == events[
                ids[b]
            ].start && ids[a] < ids[b]) by {
                if a == 0 {
                    assert(ids[b] == rest[b - 1]);
                    let k = choose|k: int|
                        0 <= k < rest_index.len() && (#[trigger] rest_index[k]).1 == rest[b - 1];
                    assert(index[k + 1] == rest_index[k]);
                    assert(lex_lt(index[0], index[k + 1]));
                    assert(events[ids[b]].start == index[k + 1].0);
                } else {
                    assert(ids[a] == rest[a - 1]);
                    assert(ids[b] == rest[b - 1]);
                }
            }
        } else {
            assert(ids == rest);
        }
    }
}

proof fn lemma_window_ids_complete<T>(
    events: Seq<StoredRangeEvent<T>>,
    index: Seq<(u64, usize)>,
    qs: u64,
    qe: u64,
)
    requires
        index_pairs_ok(events, index),
        index_sorted(index),
    ensures
        forall|k: int|
            0 <= k < index.len() && (#[trigger] index[k]).0 < qe && events[
                index[k].1 as int
            ].end > qs ==> window_ids(events, index, qs, qe).contains(index[k].1 as int),
    decreases index.len(),
{
    let ids = window_ids(events, index, qs, qe);
    if index.len() == 0 {
    } else if index[0].0 >= qe {
        assert forall|k: int|
            0 <= k < index.len() && (#[trigger] index[k]).0 < qe && events[
                index[k].1 as int
            ].end > qs implies ids.contains(index[k].1 as int) by {
            if k > 0 {
                assert(lex_lt(index[0], index[k]));
            }
        }
    } else {
        let rest_index = index.drop_first();
        assert(index_pairs_ok(events, rest_index)) by {
            assert forall|k: int| 0 <= k < rest_index.len() implies (#[trigger] rest_index[k]).1
                < events.len() && events[rest_index[k].1 as int].start == rest_index[k].0 by {
                assert(rest_index[k] == index[k + 1]);
            }
        }
        assert(index_sorted(rest_index)) by {
            assert forall|k: int, l: int| 0 <= k < l < rest_index.len() implies lex_lt(
                #[trigger] rest_index[k],
                #[trigger] rest_index[l],
            ) by {
                assert(rest_index[k] == index[k + 1]);
                assert(rest_index[l] == index[l + 1]);
            }
        }
        lemma_window_ids_complete(events, rest_index, qs, qe);
        let rest = window_ids(events, rest_index, qs, qe);
        let s0 = index[0].1 as int;
        assert forall|k: int|
            0 <= k < index.len() && (#[trigger] index[k]).0 < qe && events[
                index[k].1 as int
            ].end > qs implies ids.contains(index[k].1 as int) by {
            if k == 0 {
                assert(ids == seq![s0] + rest);
                assert(ids[0] == s0);
            } else {
                assert(rest_index[k - 1] == index[k]);
                assert(rest.contains(index[k].1 as int));
                let j = choose|j: int| 0 <= j < rest.len() && rest[j] == index[k].1 as int;
                if events[s0].end > qs {
                    assert(ids == seq![s0] + rest);
                    assert(ids[j + 1] == index[k].1 as int);
                } else {
                    assert(ids == rest);
                }
            }
        }
    }
}

/// Law: a windowed range query yields exactly the stored ranges that overlap
/// the half-open window `[qs, qe)` — each stored instance exactly once — in
/// ascending start order, ties broken by insertion order.
pub proof fn lemma_range_query_completeness<T>(st: &RangeEventStorage<T>, qs: u64, qe: u64)
    requires
        st.wf(),
    ensures
        ({
            let ids = window_ids(st.events@, st.starts_index@, qs, qe);
            // Soundness: everything yielded is a stored range overlapping the window.
            &&& forall|a: int|
                0 <= a < ids.len() ==> 0 <= #[trigger] ids[a] < st.events@.len() && st.events@[
                    ids[a]
                ].start < qe && st.events@[ids[a]].end > qs
            // Order: ascending by start; ties in insertion (slot) order. This
            // also makes the listed slots pairwise distinct.
            &&& forall|a: int, b: int|
                0 <= a < b < ids.len() ==> st.events@[#[trigger] ids[a]].start < st.events@[
                    #[trigger] ids[b]
                ].start || (st.events@[ids[a]].start == st.events@[ids[b]].start && ids[a]
                    < ids[b])
            // Completeness: every overlapping stored range is yielded.
            &&& forall|s: int|
                0 <= s < st.events@.len() && (#[trigger] st.events@[s]).start < qe
                    && st.events@[s].end > qs ==> ids.contains(s)
        }),
{
    lemma_window_ids_props(st.events@, st.starts_index@, qs, qe);
    lemma_window_ids_complete(st.events@, st.starts_index@, qs, qe);
    let ids = window_ids(st.events@, st.starts_index@, qs, qe);
    assert forall|s: int|
        0 <= s < st.events@.len() && (#[trigger] st.events@[s]).start < qe && st.events@[s].end
            > qs implies ids.contains(s) by {
        assert(st.index_has_slot(s));
        let k = choose|k: int|
            0 <= k < st.starts_index@.len() && (#[trigger] st.starts_index@[k]).1 == s;
        assert(st.starts_index@[k].0 == st.events@[s].start);
        assert(ids.contains(st.starts_index@[k].1 as int));
    }
}

impl RangeEventStorage<()> {
    /// Insertion of a local range, which carries no extra payload.
    pub fn insert_simple(&mut self, start: u64, end: u64, name_id: u16, end_name_id: Option<u16>)
        -> (id: usize)
        requires
            old(self).wf(),
            start <= end,
        ensures
            final(self).wf(),
            id == old(self).events@.len(),
            final(self).events@ == old(self).events@.push(
                StoredRangeEvent { start, end, name_id, end_name_id, extra: () },
            ),
    {
        self.insert(start, end, name_id, end_name_id, ())
    }

    /// The windowed query over local ranges.
    pub fn request_events_simple(&self, qs: u64, qe: u64) -> (r: Vec<StoredRangeEvent<()>>)
        requires
            self.wf(),
        ensures
            r@ == window_ids(self.events@, self.starts_index@, qs, qe).map(
                |_i: int, s: int| self.events@[s],
            ),
    {
        self.request_events(qs, qe)
    }
}

/// Non-decreasing timestamps.
pub open spec fn sorted_by_tm(s: Seq<StoredInstantEvent>) -> bool {
    forall|a: int, b: int| 0 <= a <= b < s.len() ==> (#[trigger] s[a]).tm <= (#[trigger] s[b]).tm
}

/// The instants with `qs <= tm < qe`, in stored order.
pub open spec fn instants_in_window(
    s: Seq<StoredInstantEvent>,
    qs: u64,
    qe: u64,
) -> Seq<StoredInstantEvent> {
    s.filter(|e: StoredInstantEvent| qs <= e.tm && e.tm < qe)
}

/// Where a new instant lands: the first position whose timestamp is
/// strictly later, so instants with equal timestamps keep their arrival
/// order.
pub open spec fn instant_insert_pos(s: Seq<StoredInstantEvent>, tm: u64) -> int
    decreases s.len(),
{
    if s.len() == 0 {
        0
    } else if s[0].tm > tm {
        0
    } else {
        1 + instant_insert_pos(s.drop_first(), tm)
    }
}

/// The insertion position always lies within the sequence bounds.
pub proof fn lemma_instant_insert_pos_bounds(s: Seq<StoredInstantEvent>, tm: u64)
    ensures
        0 <= instant_insert_pos(s, tm) <= s.len(),
    decreases s.len(),
{
    if s.len() == 0 {
    } else if s[0].tm > tm {
    } else {
        lemma_instant_insert_pos_bounds(s.drop_first(), tm);
    }
}

proof fn lemma_instant_insert_pos_unique(s: Seq<StoredInstantEvent>, tm: u64, i: int)
    requires
        0 <= i <= s.len(),
        forall|j: int| 0 <= j < i ==> (#[trigger] s[j]).tm <= tm,
        forall|j: int| i <= j < s.len() ==> (#[trigger] s[j]).tm > tm,
    ensures
        i == instant_insert_pos(s, tm),
    decreases s.len(),
{
    if s.len() == 0 {
    } else if s[0].tm > tm {
        assert(i == 0);
    } else {
        assert(i >= 1);
        let rest = s.drop_first();
        assert forall|j: int| 0 <= j < i - 1 implies (#[trigger] rest[j]).tm <= tm by {
            assert(rest[j] == s[j + 1]);
        }
        assert forall|j: int| i - 1 <= j < rest.len() implies (#[trigger] rest[j]).tm > tm by {
            assert(rest[j] == s[j + 1]);
        }
        lemma_instant_insert_pos_unique(rest, tm, i - 1);
    }
}

proof fn lemma_filter_empty_window(s: Seq<StoredInstantEvent>, qs: u64, qe: u64)
    requires
        qe <= qs,
    ensures
        instants_in_window(s, qs, qe) == Seq::<StoredInstantEvent>::empty(),
    decreases s.len(),
{
    reveal(Seq::filter);
    if s.len() == 0 {
        assert(instants_in_window(s, qs, qe) =~= Seq::<StoredInstantEvent>::empty());
    } else {
        lemma_filter_empty_window(s.drop_last(), qs, qe);
    }
}

proof fn lemma_sorted_filter_window(s: Seq<StoredInstantEvent>, qs: u64, qe: u64, lo: int, hi: int)
    requires
        0 <= lo <= hi <= s.len(),
        forall|j: int| 0 <= j < lo ==> (#[trigger] s[j]).tm < qs,
        forall|j: int| lo <= j < s.len() ==> (#[trigger] s[j]).tm >= qs,
        forall|j: int| 0 <= j < hi ==> (#[trigger] s[j]).tm < qe,
        forall|j: int| hi <= j < s.len() ==> (#[trigger] s[j]).tm >= qe,
    ensures
        instants_in_window(s, qs, qe) == s.subrange(lo, hi),
    decreases s.len(),
{
    reveal(Seq::filter);
    if s.len() == 0 {
        assert(instants_in_window(s, qs, qe) =~= s.subrange(lo, hi));
    } else {
        let rest = s.drop_last();
        let last = s.last();
        if hi == s.len() {
            if lo == s.len() {
                lemma_sorted_filter_window(rest, qs, qe, rest.len() as int, rest.len() as int);
                assert(!(qs <= last.tm && last.tm < qe));
                assert(instants_in_window(s, qs, qe) =~= s.subrange(lo, hi));
            } else {
                lemma_sorted_filter_window(rest, qs, qe, lo, rest.len() as int);
                assert(qs <= last.tm && last.tm < qe);
                assert(instants_in_window(s, qs, qe) =~= s.subrange(lo, hi)) by {
                    assert(rest.subrange(lo, rest.len() as int).push(last) =~= s.subrange(lo, hi));
                }
            }
        } else {
            lemma_sorted_filter_window(rest, qs, qe, lo, hi);
            assert(!(qs <= last.tm && last.tm < qe));
            assert(instants_in_window(s, qs, qe) =~= s.subrange(lo, hi)) by {
                assert(rest.subrange(lo, hi) =~= s.subrange(lo, hi));
            }
        }
    }
}

fn instant_upper_bound(v: &Vec<StoredInstantEvent>, key: u64) -> (i: usize)
    requires
        sorted_by_tm(v@),
    ensures
        i <= v@.len(),
        forall|j: int| 0 <= j < i ==> (#[trigger] v@[j]).tm <= key,
        forall|j: int| i <= j < v@.len() ==> (#[trigger] v@[j]).tm > key,
{
    let mut lo: usize = 0;
    let mut hi: usize = v.len();
    while lo < hi
        invariant
            lo <= hi <= v@.len(),
            sorted_by_tm(v@),
            forall|j: int| 0 <= j < lo ==> (#[trigger] v@[j]).tm <= key,
            forall|j: int| hi <= j < v@.len() ==> (#[trigger] v@[j]).tm > key,
        decreases hi - lo,
    {
        let mid = lo + (hi - lo) / 2;
        if v[mid].tm <= key {
            lo = mid + 1;
        } else {
            hi = mid;
        }
    }
    lo
}

fn instant_lower_bound(v: &Vec<StoredInstantEvent>, key: u64) -> (i: usize)
    requires
        sorted_by_tm(v@),
    ensures
        i <= v@.len(),
        forall|j: int| 0 <= j < i ==> (#[trigger] v@[j]).tm < key,
        forall|j: int| i <= j < v@.len() ==> (#[trigger] v@[j]).tm >= key,
{
    let mut lo: usize = 0;
    let mut hi: usize = v.len();
    while lo < hi
        invariant
            lo <= hi <= v@.len(),
            sorted_by_tm(v@),
            forall|j: int| 0 <= j < lo ==> (#[trigger] v@[j]).tm < key,
            forall|j: int| hi <= j < v@.len() ==> (#[trigger] v@[j]).tm >= key,
        decreases hi - lo,
    {
        let mid = lo + (hi - lo) / 2;
        if v[mid].tm < key {
            lo = mid + 1;
        } else {
            hi = mid;
        }
    }
    lo
}

/// Event storage for a single channel: interned event names, timestamp-sorted
/// instants, and the two range stores.
pub struct ChannelEventsStorage {
    pub event_names: Vec<(u16, String)>,
    pub instant_events: Vec<StoredInstantEvent>,
    pub range_events: RangeEventStorage<()>,
    pub cross_thread_range_events: RangeEventStorage<u64>,
}

impl ChannelEventsStorage {
    pub open spec fn wf(&self) -> bool {
        &&& sorted_by_tm(self.instant_events@)
        &&& self.range_events.wf()
        &&& self.cross_thread_range_events.wf()
    }

    pub fn new() -> (r: Self)
        ensures
            r.wf(),
            r.event_names@.len() == 0,
            r.instant_events@.len() == 0,
            r.range_events.events@.len() == 0,
            r.cross_thread_range_events.events@.len() == 0,
    {
        ChannelEventsStorage {
            event_names: Vec::new(),
            instant_events: Vec::new(),
            range_events: RangeEventStorage::new(),
            cross_thread_range_events: RangeEventStorage::new(),
        }
    }

    /// Replaces the channel's event-name table wholesale.
    pub fn update_event_names(&mut self, names: Vec<(u16, String)>)
        ensures
            final(self).event_names == names,
            final(self).instant_events == old(self).instant_events,
            final(self).range_events == old(self).range_events,
            final(self).cross_thread_range_events == old(self).cross_thread_range_events,
    {
        self.event_names = names;
    }

    /// A copy of the event-name table.
    pub fn event_names(&self) -> (r: Vec<(u16, String)>)
        ensures
            r@.len() == self.event_names@.len(),
            forall|i: int|
                0 <= i < r@.len() ==> (#[trigger] r@[i]).0 == self.event_names@[i].0 && r@[i].1@
                    == self.event_names@[i].1@,
    {
        let mut r: Vec<(u16, String)> = Vec::new();
        let mut i: usize = 0;
        while i < self.event_names.len()
            invariant
                0 <= i <= self.event_names@.len(),
                r@.len() == i,
                forall|j: int|
                    0 <= j < i ==> (#[trigger] r@[j]).0 == self.event_names@[j].0 && r@[j].1@
                        == self.event_names@[j].1@,
            decreases self.event_names@.len() - i,
        {
            let (id, name) = &self.event_names[i];
            r.push((*id, name.clone()));
            i = i + 1;
        }
        r
    }

    /// Inserts an instant event, appending on the monotone fast path and
    /// placing it by binary search otherwise; an instant lands after any
    /// stored instants with the same timestamp, so arrival order among
    /// equals is preserved.
    pub fn insert_instant_event(&mut self, tm: u64, name_id: u16)
        requires
            old(self).wf(),
        ensures
            final(self).wf(),
            final(self).instant_events@ == old(self).instant_events@.insert(
                instant_insert_pos(old(self).instant_events@, tm),
                StoredInstantEvent { tm, name_id },
            ),
            final(self).event_names == old(self).event_names,
            final(self).range_events == old(self).range_events,
            final(self).cross_thread_range_events == old(self).cross_thread_range_events,
    {
        let ghost old_seq = self.instant_events@;
        let ev = StoredInstantEvent::new(tm, name_id);
        let len = self.instant_events.len();
        if len == 0 || self.instant_events[len - 1].tm <= tm {
            proof {
                assert forall|j: int| 0 <= j < old_seq.len() implies (#[trigger] old_seq[j]).tm
                    <= tm by {
                    assert(old_seq[j].tm <= old_seq[len - 1].tm);
                }
                lemma_instant_insert_pos_unique(old_seq, tm, old_seq.len() as int);
            }
            self.instant_events.push(ev);
            proof {
                assert(old_seq.push(ev) =~= old_seq.insert(old_seq.len() as int, ev));
                assert forall|a: int, b: int|
                    0 <= a <= b < self.instant_events@.len() implies (#[trigger] self
                    .instant_events@[a]).tm <= (#[trigger] self.instant_events@[b]).tm by {
                    if b == old_seq.len() as int && a < b {
                        assert(old_seq[a].tm <= old_seq[len - 1].tm);
                    }
                }
            }
        } else {
            let pos = instant_upper_bound(&self.instant_events, tm);
            proof {
                lemma_instant_insert_pos_unique(old_seq, tm, pos as int);
            }
            self.instant_events.insert(pos, ev);
            proof {
                let new_seq = self.instant_events@;
                assert forall|a: int, b: int|
                    0 <= a <= b < new_seq.len() implies (#[trigger] new_seq[a]).tm <= (
                #[trigger] new_seq[b]).tm by {
                    let pa = if a < pos {
                        old_seq[a]
                    } else if a == pos {
                        ev
                    } else {
                        old_seq[a - 1]
                    };
                    let pb = if b < pos {
                        old_seq[b]
                    } else if b == pos {
                        ev
                    } else {
                        old_seq[b - 1]
                    };
                    assert(new_seq[a] == pa);
                    assert(new_seq[b] == pb);
                }
            }
        }
    }

    /// Instants with `qs <= tm < qe`, in ascending timestamp order.
    pub fn request_instant_events(&self, qs: u64, qe: u64) -> (r: Vec<StoredInstantEvent>)
        requires
            self.wf(),
        ensures
            r@ == instants_in_window(self.instant_events@, qs, qe),
            sorted_by_tm(r@),
    {
        let mut r: Vec<StoredInstantEvent> = Vec::new();
        if qe <= qs {
            proof {
                lemma_filter_empty_window(self.instant_events@, qs, qe);
            }
            return r;
        }
        let lo = instant_lower_bound(&self.instant_events, qs);
        let hi = instant_lower_bound(&self.instant_events, qe);
        assert(lo <= hi) by {
            if lo > hi {
                assert(self.instant_events@[hi as int].tm < qs);
                assert(self.instant_events@[hi as int].tm >= qe);
            }
        }
        let mut j: usize = lo;
        proof {
            assert(r@ =~= self.instant_events@.subrange(lo as int, lo as int));
        }
        while j < hi
            invariant
                lo <= j <= hi <= self.instant_events@.len(),
                r@ == self.instant_events@.subrange(lo as int, j as int),
            decreases hi - j,
        {
            r.push(self.instant_events[j]);
            proof {
                assert(self.instant_events@.subrange(lo as int, j + 1) =~= self
                    .instant_events@.subrange(lo as int, j as int).push(
                    self.instant_events@[j as int],
                ));
            }
            j = j + 1;
        }
        proof {
            lemma_sorted_filter_window(self.instant_events@, qs, qe, lo as int, hi as int);
        }
        r
    }

    /// Inserts a range event, choosing the cross-thread store when an origin
    /// thread id is present.
    pub fn insert_range_event(
        &mut self,
        start: u64,
        end: u64,
        name_id: u16,
        end_name_id: Option<u16>,
        start_thread_id: Option<u64>,
    ) -> (id: usize)
        requires
            old(self).wf(),
            start <= end,
        ensures
            final(self).wf(),
            final(self).event_names == old(self).event_names,
            final(self).instant_events == old(self).instant_events,
            match start_thread_id {
                Some(origin) => {
                    &&& id == old(self).cross_thread_range_events.events@.len()
                    &&& final(self).cross_thread_range_events.events@ == old(
                        self,
                    ).cross_thread_range_events.events@.push(
                        StoredRangeEvent { start, end, name_id, end_name_id, extra: origin },
                    )
                    &&& final(self).range_events == old(self).range_events
                },
                None => {
                    &&& id == old(self).range_events.events@.len()
                    &&& final(self).range_events.events@ == old(self).range_events.events@.push(
                        StoredRangeEvent { start, end, name_id, end_name_id, extra: () },
                    )
                    &&& final(self).cross_thread_range_events == old(
                        self,
                    ).cross_thread_range_events
                },
            },
    {
        if let Some(origin) = start_thread_id {
            self.cross_thread_range_events.insert(start, end, name_id, end_name_id, origin)
        } else {
            self.range_events.insert(start, end, name_id, end_name_id, ())
        }
    }

    /// Local ranges overlapping `[qs, qe)`, in (start, insertion) order.
    pub fn request_range_events(&self, qs: u64, qe: u64) -> (r: Vec<StoredRangeEvent<()>>)
        requires
            self.wf(),
        ensures
            r@ == window_ids(self.range_events.events@, self.range_events.starts_index@, qs, qe)
                .map(|_i: int, s: int| self.range_events.events@[s]),
    {
        self.range_events.request_events(qs, qe)
    }

    /// Cross-thread ranges overlapping `[qs, qe)`, in (start, insertion) order.
    pub fn request_cross_thread_range_events(&self, qs: u64, qe: u64) -> (r: Vec<
        StoredRangeEvent<u64>,
    >)
        requires
            self.wf(),
        ensures
            r@ == window_ids(
                self.cross_thread_range_events.events@,
                self.cross_thread_range_events.starts_index@,
                qs,
                qe,
            ).map(|_i: int, s: int| self.cross_thread_range_events.events@[s]),
    {
        self.cross_thread_range_events.request_events(qs, qe)
    }
}

/// Counts of stored events, summable across channels.
#[derive(Debug, Clone, Copy)]
pub struct StorageStats {
    pub instant_events: usize,
    pub range_events: usize,
}

impl StorageStats {
    pub fn add(self, other: Self) -> (r: Self)
        requires
            self.instant_events + other.instant_events <= usize::MAX,
            self.range_events + other.range_events <= usize::MAX,
        ensures
            r.instant_events == self.instant_events + other.instant_events,
            r.range_events == self.range_events + other.range_events,
    {
        StorageStats {
            instant_events: self.instant_events + other.instant_events,
            range_events: self.range_events + other.range_events,
        }
    }
}

impl Default for StorageStats {
    fn default() -> (r: Self)
        ensures
            r.instant_events == 0,
            r.range_events == 0,
    {
        StorageStats { instant_events: 0, range_events: 0 }
    }
}

} // verus!
