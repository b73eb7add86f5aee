//! Heuristic event decimation: a cycle-based keep/skip counter per event
//! class caps how many events reach the wire when they crowd together, while
//! events separated by at least the skip threshold are always kept.

use vstd::prelude::*;

verus! {

/// Skip logic for one event class.
#[derive(Debug, Clone, Copy)]
pub struct EventSkipper {
    pub skip_thr: u64,
    pub max_events: usize,
    pub keep_cnt: usize,
    pub skip_cnt: usize,
    pub counter: usize,
    pub cycle_len: usize,
    pub skipped_count: usize,
    pub total_count: usize,
}

/// How many events of each cycle are kept.
pub open spec fn spec_keep_cnt(max_events: int, total_events: int) -> int {
    if total_events > max_events {
        1
    } else if total_events > 0 {
        max_events / total_events
    } else {
        1
    }
}

/// How many events of each cycle are skipped.
pub open spec fn spec_skip_cnt(max_events: int, total_events: int) -> int {
    if total_events > max_events {
        (total_events + max_events - 1) / max_events
    } else {
        1
    }
}

/// The state `EventSkipper::new` hands back.
pub open spec fn fresh_skipper(skip_thr: u64, max_events: usize, total_events: usize)
    -> EventSkipper {
    EventSkipper {
        skip_thr,
        max_events,
        keep_cnt: spec_keep_cnt(max_events as int, total_events as int) as usize,
        skip_cnt: spec_skip_cnt(max_events as int, total_events as int) as usize,
        counter: 0,
        cycle_len: (spec_keep_cnt(max_events as int, total_events as int) + spec_skip_cnt(
            max_events as int,
            total_events as int,
        )) as usize,
        skipped_count: 0,
        total_count: 0,
    }
}

/// Whether an instant at distance `tm_diff` from the previous kept candidate
/// is kept.
pub open spec fn spec_keep_instant(sk: EventSkipper, tm_diff: u64) -> bool {
    tm_diff >= sk.skip_thr || sk.counter < sk.keep_cnt
}

/// Whether a range with the given start distance and duration is kept.
pub open spec fn spec_keep_range(sk: EventSkipper, start_distance: u64, duration: u64) -> bool {
    start_distance >= sk.skip_thr || duration >= sk.skip_thr || sk.counter < sk.keep_cnt
}

/// Skipper state after one instant decision.
pub open spec fn step_instant(sk: EventSkipper, tm_diff: u64) -> EventSkipper {
    EventSkipper {
        counter: if tm_diff < sk.skip_thr {
            ((sk.counter + 1) % (sk.cycle_len as int)) as usize
        } else {
            0
        },
        total_count: (sk.total_count + 1) as usize,
        skipped_count: if spec_keep_instant(sk, tm_diff) {
            sk.skipped_count
        } else {
            (sk.skipped_count + 1) as usize
        },
        ..sk
    }
}

/// Skipper state after one range decision.
pub open spec fn step_range(sk: EventSkipper, start_distance: u64, duration: u64) -> EventSkipper {
    EventSkipper {
        counter: if start_distance < sk.skip_thr && duration < sk.skip_thr {
            ((sk.counter + 1) % (sk.cycle_len as int)) as usize
        } else {
            0
        },
        total_count: (sk.total_count + 1) as usize,
        skipped_count: if spec_keep_range(sk, start_distance, duration) {
            sk.skipped_count
        } else {
            (sk.skipped_count + 1) as usize
        },
        ..sk
    }
}

impl EventSkipper {
    /// The cycle configuration is consistent; preserved by every decision.
    pub open spec fn cycle_wf(&self) -> bool {
        &&& self.keep_cnt >= 1
        &&& self.skip_cnt >= 1
        &&& self.cycle_len == self.keep_cnt + self.skip_cnt
        &&& self.counter < self.cycle_len
    }

    pub open spec fn wf(&self) -> bool {
        &&& self.cycle_wf()
        &&& self.skipped_count <= self.total_count
    }

    /// Chooses the keep/skip ratio from the class's total event count and
    /// the output cap.
    pub fn new(skip_thr: u64, max_events: usize, total_events: usize) -> (r: Self)
        requires
            1 <= max_events,
            total_events + max_events <= usize::MAX,
        ensures
            r == fresh_skipper(skip_thr, max_events, total_events),
            r.wf(),
    {
        let (keep_cnt, skip_cnt): (usize, usize) = if total_events > max_events {
            let skip_cnt = (total_events + max_events - 1) / max_events;
            (1, skip_cnt)
        } else if total_events > 0 {
            let keep_cnt = max_events / total_events;
            (keep_cnt, 1)
        } else {
            (1, 1)
        };
        proof {
            if total_events > max_events {
                assert(skip_cnt >= 1) by {
                    vstd::arithmetic::div_mod::lemma_div_pos_is_pos(
                        total_events + max_events - 1,
                        max_events as int,
                    );
                    vstd::arithmetic::div_mod::lemma_div_non_zero(
                        total_events + max_events - 1,
                        max_events as int,
                    );
                }
                assert(skip_cnt <= total_events) by {
                    assert(total_events + max_events - 1 <= total_events * max_events) by (
                    nonlinear_arith)
                        requires
                            total_events > max_events >= 1,
                    ;
                    vstd::arithmetic::div_mod::lemma_div_is_ordered(
                        total_events + max_events - 1,
                        total_events * max_events,
                        max_events as int,
                    );
                    vstd::arithmetic::div_mod::lemma_div_by_multiple(
                        total_events as int,
                        max_events as int,
                    );
                }
            } else if total_events > 0 {
                assert(keep_cnt >= 1) by {
                    vstd::arithmetic::div_mod::lemma_div_pos_is_pos(
                        max_events as int,
                        total_events as int,
                    );
                    vstd::arithmetic::div_mod::lemma_div_non_zero(
                        max_events as int,
                        total_events as int,
                    );
                }
                assert(keep_cnt <= max_events) by {
                    vstd::arithmetic::div_mod::lemma_div_nonincreasing(
                        max_events as int,
                        total_events as int,
                    );
                }
            }
        }
        let cycle_len = keep_cnt + skip_cnt;
        EventSkipper {
            skip_thr,
            max_events,
            keep_cnt,
            skip_cnt,
            counter: 0,
            cycle_len,
            skipped_count: 0,
            total_count: 0,
        }
    }

    /// Decides an instant event from its distance to the previous kept
    /// candidate: far-apart events are always kept and reset the cycle.
    pub fn should_keep_instant(&mut self, tm_diff: u64) -> (keep: bool)
        requires
            old(self).wf(),
            old(self).total_count < usize::MAX,
        ensures
            final(self).wf(),
            keep == spec_keep_instant(*old(self), tm_diff),
            *final(self) == step_instant(*old(self), tm_diff),
    {
        self.total_count = self.total_count + 1;
        let should_keep = if tm_diff < self.skip_thr {
            let keep = self.counter < self.keep_cnt;
            self.counter = (self.counter + 1) % self.cycle_len;
            keep
        } else {
            self.counter = 0;
            true
        };
        if !should_keep {
            self.skipped_count = self.skipped_count + 1;
        }
        should_keep
    }

    /// Decides a range event: it is a skip candidate only when both the
    /// distance between starts and its own duration are below the threshold.
    pub fn should_keep_range(&mut self, start_distance: u64, duration: u64) -> (keep: bool)
        requires
            old(self).wf(),
            old(self).total_count < usize::MAX,
        ensures
            final(self).wf(),
            keep == spec_keep_range(*old(self), start_distance, duration),
            *final(self) == step_range(*old(self), start_distance, duration),
    {
        self.total_count = self.total_count + 1;
        let should_keep = if start_distance < self.skip_thr && duration < self.skip_thr {
            let keep = self.counter < self.keep_cnt;
            self.counter = (self.counter + 1) % self.cycle_len;
            keep
        } else {
            self.counter = 0;
            true
        };
        if !should_keep {
            self.skipped_count = self.skipped_count + 1;
        }
        should_keep
    }

    pub fn skipped_count(&self) -> (r: usize)
        ensures
            r == self.skipped_count,
    {
        self.skipped_count
    }

    pub fn total_count(&self) -> (r: usize)
        ensures
            r == self.total_count,
    {
        self.total_count
    }

    /// Clears the cycle position and the statistics.
    pub fn reset(&mut self)
        ensures
            *final(self) == (EventSkipper {
                counter: 0,
                skipped_count: 0,
                total_count: 0,
                ..*old(self)
            }),
    {
        self.counter = 0;
        self.skipped_count = 0;
        self.total_count = 0;
    }
}

/// Independent skippers for the instant and the range class of one request.
#[derive(Debug, Clone, Copy)]
pub struct EventSkippingProcessor {
    pub instant_skipper: EventSkipper,
    pub range_skipper: EventSkipper,
}

impl EventSkippingProcessor {
    pub open spec fn wf(&self) -> bool {
        self.instant_skipper.wf() && self.range_skipper.wf()
    }

    pub fn new(skip_thr: u64, max_events: usize, instant_count: usize, range_count: usize) -> (r:
        Self)
        requires
            1 <= max_events,
            instant_count + max_events <= usize::MAX,
            range_count + max_events <= usize::MAX,
        ensures
            r.instant_skipper == fresh_skipper(skip_thr, max_events, instant_count),
            r.range_skipper == fresh_skipper(skip_thr, max_events, range_count),
            r.wf(),
    {
        EventSkippingProcessor {
            instant_skipper: EventSkipper::new(skip_thr, max_events, instant_count),
            range_skipper: EventSkipper::new(skip_thr, max_events, range_count),
        }
    }

    pub fn should_keep_instant(&mut self, tm_diff: u64) -> (keep: bool)
        requires
            old(self).wf(),
            old(self).instant_skipper.total_count < usize::MAX,
        ensures
            final(self).wf(),
            keep == spec_keep_instant(old(self).instant_skipper, tm_diff),
            final(self).instant_skipper == step_instant(old(self).instant_skipper, tm_diff),
            final(self).range_skipper == old(self).range_skipper,
    {
        self.instant_skipper.should_keep_instant(tm_diff)
    }

    pub fn should_keep_range(&mut self, start_distance: u64, duration: u64) -> (keep: bool)
        requires
            old(self).wf(),
            old(self).range_skipper.total_count < usize::MAX,
        ensures
            final(self).wf(),
            keep == spec_keep_range(old(self).range_skipper, start_distance, duration),
            final(self).range_skipper == step_range(
                old(self).range_skipper,
                start_distance,
                duration,
            ),
            final(self).instant_skipper == old(self).instant_skipper,
    {
        self.range_skipper.should_keep_range(start_distance, duration)
    }

    /// (skipped instants, skipped ranges, total instants, total ranges)
    pub fn get_stats(&self) -> (r: (usize, usize, usize, usize))
        ensures
            r.0 == self.instant_skipper.skipped_count,
            r.1 == self.range_skipper.skipped_count,
            r.2 == self.instant_skipper.total_count,
            r.3 == self.range_skipper.total_count,
    {
        (
            self.instant_skipper.skipped_count,
            self.range_skipper.skipped_count,
            self.instant_skipper.total_count,
            self.range_skipper.total_count,
        )
    }
}

/// Skipper state after a whole run of instant decisions.
pub open spec fn run_instants(sk: EventSkipper, diffs: Seq<u64>) -> EventSkipper
    decreases diffs.len(),
{
    if diffs.len() == 0 {
        sk
    } else {
        run_instants(step_instant(sk, diffs[0]), diffs.drop_first())
    }
}

/// How many of a run of instant decisions are kept.
pub open spec fn instant_kept_count(sk: EventSkipper, diffs: Seq<u64>) -> nat
    decreases diffs.len(),
{
    if diffs.len() == 0 {
        0
    } else {
        (if spec_keep_instant(sk, diffs[0]) {
            1nat
        } else {
            0nat
        }) + instant_kept_count(step_instant(sk, diffs[0]), diffs.drop_first())
    }
}

/// A range decision behaves exactly like an instant decision on the larger
/// of the start distance and the duration.
pub proof fn lemma_range_step_as_instant(sk: EventSkipper, start_distance: u64, duration: u64)
    ensures
        spec_keep_range(sk, start_distance, duration) == spec_keep_instant(
            sk,
            if start_distance >= duration {
                start_distance
            } else {
                duration
            },
        ),
        step_range(sk, start_distance, duration) == step_instant(
            sk,
            if start_distance >= duration {
                start_distance
            } else {
                duration
            },
        ),
{
}

/// The well-formedness that `EventSkipper::new` establishes, as a fact about
/// `fresh_skipper`.
pub proof fn lemma_fresh_skipper_wf(skip_thr: u64, max_events: usize, total_events: usize)
    requires
        1 <= max_events,
        total_events + max_events <= usize::MAX,
    ensures
        fresh_skipper(skip_thr, max_events, total_events).wf(),
        fresh_skipper(skip_thr, max_events, total_events).keep_cnt <= max_events,
{
    let k = spec_keep_cnt(max_events as int, total_events as int);
    let s = spec_skip_cnt(max_events as int, total_events as int);
    if total_events > max_events {
        assert(s >= 1) by {
            vstd::arithmetic::div_mod::lemma_div_pos_is_pos(
                total_events + max_events - 1,
                max_events as int,
            );
            vstd::arithmetic::div_mod::lemma_div_non_zero(
                total_events + max_events - 1,
                max_events as int,
            );
        }
        assert(s <= total_events) by {
            assert(total_events + max_events - 1 <= total_events * max_events) by (nonlinear_arith)
                requires
                    total_events > max_events >= 1,
            ;
            vstd::arithmetic::div_mod::lemma_div_is_ordered(
                total_events + max_events - 1,
                total_events * max_events,
                max_events as int,
            );
            vstd::arithmetic::div_mod::lemma_div_by_multiple(
                total_events as int,
                max_events as int,
            );
        }
    } else if total_events > 0 {
        assert(k >= 1) by {
            vstd::arithmetic::div_mod::lemma_div_pos_is_pos(max_events as int, total_events as int);
            vstd::arithmetic::div_mod::lemma_div_non_zero(max_events as int, total_events as int);
        }
        assert(k <= max_events) by {
            vstd::arithmetic::div_mod::lemma_div_nonincreasing(
                max_events as int,
                total_events as int,
            );
        }
    }
}

/// Running two batches of decisions in sequence is the same as running their
/// concatenation.
proof fn lemma_run_split(sk: EventSkipper, a: Seq<u64>, b: Seq<u64>)
    ensures
        run_instants(sk, a + b) == run_instants(run_instants(sk, a), b),
        instant_kept_count(sk, a + b) == instant_kept_count(sk, a) + instant_kept_count(
            run_instants(sk, a),
            b,
        ),
    decreases a.len(),
{
    if a.len() == 0 {
        assert(a + b =~= b);
    } else {
        assert((a + b).drop_first() =~= a.drop_first() + b);
        assert((a + b)[0] == a[0]);
        lemma_run_split(step_instant(sk, a[0]), a.drop_first(), b);
    }
}

/// Within one cycle, a dense run keeps at most the remaining keep quota, and
/// a run to the exact end of the cycle brings the counter back to zero.
proof fn lemma_dense_cycle(sk: EventSkipper, diffs: Seq<u64>)
    requires
        sk.cycle_wf(),
        diffs.len() <= sk.cycle_len - sk.counter,
        forall|i: int| 0 <= i < diffs.len() ==> #[trigger] diffs[i] < sk.skip_thr,
    ensures
        instant_kept_count(sk, diffs) <= if sk.counter < sk.keep_cnt {
            sk.keep_cnt - sk.counter
        } else {
            0
        },
        run_instants(sk, diffs).keep_cnt == sk.keep_cnt,
        run_instants(sk, diffs).skip_cnt == sk.skip_cnt,
        run_instants(sk, diffs).cycle_len == sk.cycle_len,
        run_instants(sk, diffs).skip_thr == sk.skip_thr,
        run_instants(sk, diffs).cycle_wf(),
        diffs.len() == sk.cycle_len - sk.counter ==> run_instants(sk, diffs).counter == 0,
        diffs.len() < sk.cycle_len - sk.counter ==> run_instants(sk, diffs).counter == sk.counter
            + diffs.len(),
    decreases diffs.len(),
{
    if diffs.len() == 0 {
    } else {
        let sk2 = step_instant(sk, diffs[0]);
        assert(sk2.counter == (sk.counter + 1) % (sk.cycle_len as int));
        if sk.counter + 1 == sk.cycle_len {
            assert(sk2.counter == 0) by {
                vstd::arithmetic::div_mod::lemma_mod_self_0(sk.cycle_len as int);
            }
        } else {
            assert(sk2.counter == sk.counter + 1) by {
                vstd::arithmetic::div_mod::lemma_small_mod(
                    (sk.counter + 1) as nat,
                    sk.cycle_len as nat,
                );
            }
        }
        assert forall|i: int| 0 <= i < diffs.drop_first().len() implies #[trigger] diffs.drop_first()[i]
            < sk.skip_thr by {
            assert(diffs.drop_first()[i] == diffs[i + 1]);
        }
        lemma_dense_cycle(sk2, diffs.drop_first());
    }
}

/// Over any dense run from a fresh cycle, the kept count obeys
/// `kept * cycle_len <= keep_cnt * (n + cycle_len)`.
proof fn lemma_dense_run_bound(sk: EventSkipper, diffs: Seq<u64>)
    requires
        sk.cycle_wf(),
        sk.counter == 0,
        forall|i: int| 0 <= i < diffs.len() ==> #[trigger] diffs[i] < sk.skip_thr,
    ensures
        instant_kept_count(sk, diffs) * sk.cycle_len <= sk.keep_cnt * (diffs.len()
            + sk.cycle_len),
    decreases diffs.len(),
{
    let c = sk.cycle_len as int;
    let k = sk.keep_cnt as int;
    let n = diffs.len() as int;
    if n < c {
        lemma_dense_cycle(sk, diffs);
        assert(instant_kept_count(sk, diffs) <= k);
        assert(instant_kept_count(sk, diffs) * c <= k * c) by (nonlinear_arith)
            requires
                instant_kept_count(sk, diffs) <= k,
                c >= 0,
        ;
        assert(k * c <= k * (n + c)) by (nonlinear_arith)
            requires
                k >= 0,
                n >= 0,
        ;
    } else {
        let head = diffs.take(c);
        let tail = diffs.skip(c);
        assert(head + tail =~= diffs);
        lemma_run_split(sk, head, tail);
        assert forall|i: int| 0 <= i < head.len() implies #[trigger] head[i] < sk.skip_thr by {
            assert(head[i] == diffs[i]);
        }
        lemma_dense_cycle(sk, head);
        let sk2 = run_instants(sk, head);
        assert forall|i: int| 0 <= i < tail.len() implies #[trigger] tail[i] < sk2.skip_thr by {
            assert(tail[i] == diffs[i + c]);
        }
        lemma_dense_run_bound(sk2, tail);
        let kept_head = instant_kept_count(sk, head) as int;
        let kept_tail = instant_kept_count(sk2, tail) as int;
        assert(kept_head <= k);
        assert(kept_tail * c <= k * (n - c + c));
        assert((kept_head + kept_tail) * c == kept_head * c + kept_tail * c) by (nonlinear_arith);
        assert(kept_head * c <= k * c) by (nonlinear_arith)
            requires
                kept_head <= k,
                c >= 0,
        ;
        assert(k * n + k * c == k * (n + c)) by (nonlinear_arith);
    }
}

/// Law (decimation cap, dense case): when a fresh skipper is built for
/// `total_events > 0` events of a class and every decision sees a gap below
/// the skip threshold, at most `max_events` decisions answer "keep".
pub proof fn lemma_dense_decimation_cap(
    skip_thr: u64,
    max_events: usize,
    total_events: usize,
    diffs: Seq<u64>,
)
    requires
        1 <= max_events,
        0 < total_events,
        total_events + max_events <= usize::MAX,
        diffs.len() <= total_events,
        forall|i: int| 0 <= i < diffs.len() ==> #[trigger] diffs[i] < skip_thr,
    ensures
        instant_kept_count(fresh_skipper(skip_thr, max_events, total_events), diffs)
            <= max_events,
{
    let sk = fresh_skipper(skip_thr, max_events, total_events);
    lemma_fresh_skipper_wf(skip_thr, max_events, total_events);
    let kept = instant_kept_count(sk, diffs) as int;
    let n = diffs.len() as int;
    let t = total_events as int;
    let m = max_events as int;
    if total_events <= max_events {
        assert(kept <= n) by {
            lemma_kept_le_len(sk, diffs);
        }
    } else {
        let c = sk.cycle_len as int;
        assert(sk.keep_cnt == 1);
        assert(c == 1 + (t + m - 1) / m);
        lemma_dense_run_bound(sk, diffs);
        assert(kept * c <= n + c);
        // m * c exceeds t + m - (m - 1) + m > t, so a kept count above m
        // would contradict the run bound.
        assert(m * ((t + m - 1) / m) >= t) by {
            vstd::arithmetic::div_mod::lemma_fundamental_div_mod(t + m - 1, m);
            vstd::arithmetic::div_mod::lemma_mod_bound(t + m - 1, m);
        }
        assert(m * c == m + m * ((t + m - 1) / m)) by (nonlinear_arith)
            requires
                c == 1 + (t + m - 1) / m,
        ;
        assert(m * c > t);
        if kept > m {
            assert(kept * c >= (m + 1) * c) by (nonlinear_arith)
                requires
                    kept >= m + 1,
                    c >= 0,
            ;
            assert((m + 1) * c == m * c + c) by (nonlinear_arith);
            assert(n <= t);
            assert(false);
        }
    }
}

proof fn lemma_kept_le_len(sk: EventSkipper, diffs: Seq<u64>)
    ensures
        instant_kept_count(sk, diffs) <= diffs.len(),
    decreases diffs.len(),
{
    if diffs.len() > 0 {
        lemma_kept_le_len(step_instant(sk, diffs[0]), diffs.drop_first());
    }
}

/// Per-request decimation statistics, reported beside each frame.
#[derive(Debug, Clone, Copy)]
pub struct EventsSkipStats {
    pub skipped_instant: usize,
    pub skipped_range: usize,
    pub total_instant: usize,
    pub total_range: usize,
}

} // verus!
