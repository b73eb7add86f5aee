//! Per-producer storage: the map of channels, channel names, and the
//! connection-wide timestamp bounds, together with batch ingestion and the
//! per-request frame production the actor runs.

use vstd::prelude::*;
use crate::ChannelId;
use crate::storage::{
    instant_insert_pos, ChannelEventsStorage, StorageStats, StoredInstantEvent, StoredRangeEvent,
};

verus! {

/// Connection-wide timestamp tracking: the last sync point as a pair of
/// (wall-clock nanoseconds, producer timestamp), and the bounds of every
/// timestamp ingested so far.
#[derive(Debug, Clone, Copy)]
pub struct ConnectionTimestamps {
    pub last_sync: (u64, u64),
    pub min_tm: u64,
    pub max_tm: u64,
}

/// A parsed producer event, reduced to the plain values the store keeps.
/// `start_thread_ord_id` marks a range recorded across threads.
#[derive(Debug, Clone, Copy)]
pub enum IngestEvent {
    Instant { tm: u64, name_id: u16 },
    Range {
        start: u64,
        end: u64,
        name_id: u16,
        end_name_id: Option<u16>,
        start_thread_ord_id: Option<u64>,
    },
}

impl IngestEvent {
    /// Ranges must run forward; instants always qualify.
    pub open spec fn wf(&self) -> bool {
        match *self {
            IngestEvent::Instant { .. } => true,
            IngestEvent::Range { start, end, .. } => start <= end,
        }
    }
}

/// The timestamps an event contributes to the batch bounds.
pub open spec fn event_min_tm(ev: IngestEvent) -> u64 {
    match ev {
        IngestEvent::Instant { tm, .. } => tm,
        IngestEvent::Range { start, end, .. } => if start <= end {
            start
        } else {
            end
        },
    }
}

pub open spec fn event_max_tm(ev: IngestEvent) -> u64 {
    match ev {
        IngestEvent::Instant { tm, .. } => tm,
        IngestEvent::Range { start, end, .. } => if start >= end {
            start
        } else {
            end
        },
    }
}

/// Batch minimum folded left to right from an accumulator.
pub open spec fn batch_min(acc: Option<u64>, evs: Seq<IngestEvent>) -> Option<u64>
    decreases evs.len(),
{
    if evs.len() == 0 {
        acc
    } else {
        let v = event_min_tm(evs[0]);
        let acc2 = match acc {
            None => Some(v),
            Some(m) => Some(if m <= v {
                m
            } else {
                v
            }),
        };
        batch_min(acc2, evs.drop_first())
    }
}

/// Batch maximum folded left to right from an accumulator.
pub open spec fn batch_max(acc: Option<u64>, evs: Seq<IngestEvent>) -> Option<u64>
    decreases evs.len(),
{
    if evs.len() == 0 {
        acc
    } else {
        let v = event_max_tm(evs[0]);
        let acc2 = match acc {
            None => Some(v),
            Some(m) => Some(if m >= v {
                m
            } else {
                v
            }),
        };
        batch_max(acc2, evs.drop_first())
    }
}

/// How a batch's bounds fold into the connection timestamps: the sync point
/// moves to (now, batch max), and the bounds widen element-wise.
pub open spec fn spec_update_ts(
    ts: Option<ConnectionTimestamps>,
    min_tm: Option<u64>,
    max_tm: Option<u64>,
    now_ns: u64,
) -> Option<ConnectionTimestamps> {
    match (min_tm, max_tm) {
        (Some(mn), Some(mx)) => match ts {
            Some(t) => Some(
                ConnectionTimestamps {
                    last_sync: (now_ns, mx),
                    min_tm: if t.min_tm <= mn {
                        t.min_tm
                    } else {
                        mn
                    },
                    max_tm: if t.max_tm >= mx {
                        t.max_tm
                    } else {
                        mx
                    },
                },
            ),
            None => Some(ConnectionTimestamps { last_sync: (now_ns, mx), min_tm: mn, max_tm: mx }),
        },
        _ => ts,
    }
}

/// One producer's storage: per-channel event stores, channel names, and the
/// connection timestamp bounds.
pub struct ClientStorage {
    pub channel_events: Vec<(ChannelId, ChannelEventsStorage)>,
    pub channel_names: Vec<(ChannelId, String)>,
    pub conn_timestamps: Option<ConnectionTimestamps>,
}

/// All of one channel's timestamps lie within `[min_tm, max_tm]`.
pub open spec fn channel_within(ch: &ChannelEventsStorage, min_tm: u64, max_tm: u64) -> bool {
    &&& forall|j: int|
        0 <= j < ch.instant_events@.len() ==> min_tm <= (#[trigger] ch.instant_events@[j]).tm
            <= max_tm
    &&& forall|j: int|
        0 <= j < ch.range_events.events@.len() ==> min_tm <= (
        #[trigger] ch.range_events.events@[j]).start && ch.range_events.events@[j].end <= max_tm
    &&& forall|j: int|
        0 <= j < ch.cross_thread_range_events.events@.len() ==> min_tm <= (
        #[trigger] ch.cross_thread_range_events.events@[j]).start
            && ch.cross_thread_range_events.events@[j].end <= max_tm
}

/// A channel holds no events at all.
pub open spec fn channel_empty(ch: &ChannelEventsStorage) -> bool {
    &&& ch.instant_events@.len() == 0
    &&& ch.range_events.events@.len() == 0
    &&& ch.cross_thread_range_events.events@.len() == 0
}

impl ClientStorage {
    /// Channel keys are unique, every channel store is well formed, and the
    /// connection timestamps cover every stored event (when absent, nothing
    /// has been stored).
    pub open spec fn wf(&self) -> bool {
        &&& forall|a: int, b: int|
            0 <= a < b < self.channel_events@.len() ==> (#[trigger] self.channel_events@[a]).0 != (
            #[trigger] self.channel_events@[b]).0
        &&& forall|a: int|
            0 <= a < self.channel_events@.len() ==> (#[trigger] self.channel_events@[a]).1.wf()
        &&& match self.conn_timestamps {
            Some(ts) => {
                &&& ts.min_tm <= ts.max_tm
                &&& forall|a: int|
                    0 <= a < self.channel_events@.len() ==> channel_within(
                        &(#[trigger] self.channel_events@[a]).1,
                        ts.min_tm,
                        ts.max_tm,
                    )
            },
            None => forall|a: int|
                0 <= a < self.channel_events@.len() ==> channel_empty(
                    &(#[trigger] self.channel_events@[a]).1,
                ),
        }
    }

    pub fn new() -> (r: Self)
        ensures
            r.wf(),
            r.channel_events@.len() == 0,
            r.channel_names@.len() == 0,
            r.conn_timestamps is None,
    {
        ClientStorage { channel_events: Vec::new(), channel_names: Vec::new(), conn_timestamps: None }
    }

    /// Position of the channel in the store, if present.
    fn find_channel(&self, channel_id: ChannelId) -> (r: Option<usize>)
        ensures
            match r {
                Some(i) => i < self.channel_events@.len() && self.channel_events@[i as int].0
                    == channel_id && (forall|a: int|
                    0 <= a < i ==> (#[trigger] self.channel_events@[a]).0 != channel_id),
                None => forall|a: int|
                    0 <= a < self.channel_events@.len() ==> (#[trigger] self.channel_events@[a]).0
                        != channel_id,
            },
    {
        let mut i: usize = 0;
        let n = self.channel_events.len();
        while i < n
            invariant
                0 <= i <= n == self.channel_events@.len(),
                forall|a: int|
                    0 <= a < i ==> (#[trigger] self.channel_events@[a]).0 != channel_id,
            decreases n - i,
        {
            if self.channel_events[i].0 == channel_id {
                return Some(i);
            }
            i = i + 1;
        }
        None
    }

    /// Widens the connection bounds with a batch's min/max and moves the
    /// sync point, exactly as `spec_update_ts` says; a batch without both
    /// bounds changes nothing.
    pub fn update_conn_timestamps(
        &mut self,
        min_tm: Option<u64>,
        max_tm: Option<u64>,
        now_ns: u64,
    )
        ensures
            final(self).conn_timestamps == spec_update_ts(
                old(self).conn_timestamps,
                min_tm,
                max_tm,
                now_ns,
            ),
            final(self).channel_events == old(self).channel_events,
            final(self).channel_names == old(self).channel_names,
    {
        if let (Some(mn), Some(mx)) = (min_tm, max_tm) {
            match &mut self.conn_timestamps {
                Some(ts) => {
                    ts.last_sync = (now_ns, mx);
                    ts.min_tm = if ts.min_tm <= mn {
                        ts.min_tm
                    } else {
                        mn
                    };
                    ts.max_tm = if ts.max_tm >= mx {
                        ts.max_tm
                    } else {
                        mx
                    };
                },
                None => {
                    self.conn_timestamps = Some(
                        ConnectionTimestamps { last_sync: (now_ns, mx), min_tm: mn, max_tm: mx },
                    );
                },
            }
        }
    }

    /// The connection's bounds and the producer's clock extrapolated to
    /// `now_ns`; `None` before the first event.
    pub fn get_connection_timestamps(&self, now_ns: u64) -> (r: Option<(u64, u64, u64)>)
        requires
            match self.conn_timestamps {
                Some(ts) => now_ns >= ts.last_sync.0 && ts.last_sync.1 + (now_ns - ts.last_sync.0)
                    <= u64::MAX,
                None => true,
            },
        ensures
            r == match self.conn_timestamps {
                Some(ts) => Some(
                    (ts.min_tm, ts.max_tm, (ts.last_sync.1 + (now_ns - ts.last_sync.0)) as u64),
                ),
                None => None::<(u64, u64, u64)>,
            },
    {
        match &self.conn_timestamps {
            Some(ts) => {
                let elapsed_ns = now_ns - ts.last_sync.0;
                let adjusted_tm = ts.last_sync.1 + elapsed_ns;
                Some((ts.min_tm, ts.max_tm, adjusted_tm))
            },
            None => None,
        }
    }

    /// Total instant and range counts over the first `n` channels.
    pub open spec fn stats_model(channels: Seq<(ChannelId, ChannelEventsStorage)>) -> (int, int)
        decreases channels.len(),
    {
        if channels.len() == 0 {
            (0, 0)
        } else {
            let rest = Self::stats_model(channels.drop_first());
            let ch = channels[0].1;
            (
                rest.0 + ch.instant_events@.len(),
                rest.1 + ch.range_events.events@.len()
                    + ch.cross_thread_range_events.events@.len(),
            )
        }
    }

    /// Sums stored instant and range counts across every channel.
    pub fn get_storage_stats(&self) -> (r: StorageStats)
        requires
            Self::stats_model(self.channel_events@).0 <= usize::MAX,
            Self::stats_model(self.channel_events@).1 <= usize::MAX,
        ensures
            r.instant_events == Self::stats_model(self.channel_events@).0,
            r.range_events == Self::stats_model(self.channel_events@).1,
    {
        let mut res = StorageStats { instant_events: 0, range_events: 0 };
        let mut i: usize = 0;
        let n = self.channel_events.len();
        proof {
            assert(self.channel_events@.skip(0) =~= self.channel_events@);
        }
        while i < n
            invariant
                0 <= i <= n == self.channel_events@.len(),
                Self::stats_model(self.channel_events@).0 <= usize::MAX,
                Self::stats_model(self.channel_events@).1 <= usize::MAX,
                Self::stats_model(self.channel_events@).0 == res.instant_events
                    + Self::stats_model(self.channel_events@.skip(i as int)).0,
                Self::stats_model(self.channel_events@).1 == res.range_events + Self::stats_model(
                    self.channel_events@.skip(i as int),
                ).1,
            decreases n - i,
        {
            proof {
                assert(self.channel_events@.skip(i as int)[0] == self.channel_events@[i as int]);
                assert(self.channel_events@.skip(i as int).drop_first() =~= self
                    .channel_events@.skip(i as int + 1));
                lemma_stats_model_nonneg(self.channel_events@.skip(i as int + 1));
            }
            let ch = &self.channel_events[i].1;
            res.instant_events = res.instant_events + ch.instant_events.len();
            res.range_events = res.range_events + ch.range_events.len()
                + ch.cross_thread_range_events.len();
            i = i + 1;
        }
        proof {
            assert(self.channel_events@.skip(n as int) =~= Seq::<(
                ChannelId,
                ChannelEventsStorage,
            )>::empty());
        }
        res
    }

    /// Upserts a channel's display name: the first entry with this key is
    /// overwritten, or a new entry is appended.
    pub fn set_channel_name(&mut self, channel_id: ChannelId, name: String)
        ensures
            final(self).channel_events == old(self).channel_events,
            final(self).conn_timestamps == old(self).conn_timestamps,
            final(self).channel_names@ == ({
                let pos = key_pos(old(self).channel_names@, channel_id);
                if pos >= 0 {
                    old(self).channel_names@.update(pos, (channel_id, name))
                } else {
                    old(self).channel_names@.push((channel_id, name))
                }
            }),
    {
        let mut i: usize = 0;
        let n = self.channel_names.len();
        while i < n
            invariant
                0 <= i <= n == self.channel_names@.len(),
                *self == *old(self),
                forall|a: int| 0 <= a < i ==> (#[trigger] self.channel_names@[a]).0 != channel_id,
            decreases n - i,
        {
            if self.channel_names[i].0 == channel_id {
                proof {
                    lemma_key_pos_found(self.channel_names@, channel_id, i as int);
                }
                self.channel_names.set(i, (channel_id, name));
                return ;
            }
            i = i + 1;
        }
        proof {
            lemma_key_pos_missing(self.channel_names@, channel_id);
        }
        self.channel_names.push((channel_id, name));
    }

    /// A copy of the channel-name table.
    pub fn channel_names_snapshot(&self) -> (r: Vec<(ChannelId, String)>)
        ensures
            r@.len() == self.channel_names@.len(),
            forall|i: int|
                0 <= i < r@.len() ==> (#[trigger] r@[i]).0 == self.channel_names@[i].0 && r@[i].1@
                    == self.channel_names@[i].1@,
    {
        let mut r: Vec<(ChannelId, String)> = Vec::new();
        let mut i: usize = 0;
        while i < self.channel_names.len()
            invariant
                0 <= i <= self.channel_names@.len(),
                r@.len() == i,
                forall|a: int|
                    0 <= a < i ==> (#[trigger] r@[a]).0 == self.channel_names@[a].0 && r@[a].1@
                        == self.channel_names@[a].1@,
            decreases self.channel_names@.len() - i,
        {
            let (id, name) = &self.channel_names[i];
            r.push((*id, name.clone()));
            i = i + 1;
        }
        r
    }

    /// The event-name table of one channel, if the channel exists.
    pub fn get_event_names(&self, channel_id: ChannelId) -> (r: Option<Vec<(u16, String)>>)
        ensures
            match r {
                Some(v) => exists|i: int|
                    0 <= i < self.channel_events@.len() && (#[trigger] self.channel_events@[i]).0
                        == channel_id && v@.len() == self.channel_events@[i].1.event_names@.len()
                        && (forall|a: int|
                        0 <= a < v@.len() ==> (#[trigger] v@[a]).0
                            == self.channel_events@[i].1.event_names@[a].0 && v@[a].1@
                            == self.channel_events@[i].1.event_names@[a].1@),
                None => forall|a: int|
                    0 <= a < self.channel_events@.len() ==> (#[trigger] self.channel_events@[a]).0
                        != channel_id,
            },
    {
        match self.find_channel(channel_id) {
            Some(i) => Some(self.channel_events[i].1.event_names()),
            None => None,
        }
    }
}

/// What one channel stores, as plain sequences: instants, local ranges,
/// cross-thread ranges.
pub open spec fn channel_model(ch: &ChannelEventsStorage) -> (
    Seq<StoredInstantEvent>,
    Seq<StoredRangeEvent<()>>,
    Seq<StoredRangeEvent<u64>>,
) {
    (ch.instant_events@, ch.range_events.events@, ch.cross_thread_range_events.events@)
}

/// How one parsed event changes a channel: an instant lands at its sorted
/// position, a range is appended to the store its origin selects.
pub open spec fn apply_event(
    m: (Seq<StoredInstantEvent>, Seq<StoredRangeEvent<()>>, Seq<StoredRangeEvent<u64>>),
    ev: IngestEvent,
) -> (Seq<StoredInstantEvent>, Seq<StoredRangeEvent<()>>, Seq<StoredRangeEvent<u64>>) {
    match ev {
        IngestEvent::Instant { tm, name_id } => (
            m.0.insert(instant_insert_pos(m.0, tm), StoredInstantEvent { tm, name_id }),
            m.1,
            m.2,
        ),
        IngestEvent::Range { start, end, name_id, end_name_id, start_thread_ord_id } => match start_thread_ord_id {
            Some(origin) => (
                m.0,
                m.1,
                m.2.push(StoredRangeEvent { start, end, name_id, end_name_id, extra: origin }),
            ),
            None => (
                m.0,
                m.1.push(StoredRangeEvent { start, end, name_id, end_name_id, extra: () }),
                m.2,
            ),
        },
    }
}

/// A whole batch applied in arrival order.
pub open spec fn apply_events(
    m: (Seq<StoredInstantEvent>, Seq<StoredRangeEvent<()>>, Seq<StoredRangeEvent<u64>>),
    evs: Seq<IngestEvent>,
) -> (Seq<StoredInstantEvent>, Seq<StoredRangeEvent<()>>, Seq<StoredRangeEvent<u64>>)
    decreases evs.len(),
{
    if evs.len() == 0 {
        m
    } else {
        apply_events(apply_event(m, evs[0]), evs.drop_first())
    }
}

/// The interval `[lo, hi]` is covered by the old connection bounds or by the
/// running batch bounds.
pub open spec fn within_or_batch(
    ts0: Option<ConnectionTimestamps>,
    mn: Option<u64>,
    mx: Option<u64>,
    lo: u64,
    hi: u64,
) -> bool {
    (match ts0 {
        Some(t) => t.min_tm <= lo && hi <= t.max_tm,
        None => false,
    }) || (match (mn, mx) {
        (Some(a), Some(b)) => a <= lo && hi <= b,
        _ => false,
    })
}

impl ClientStorage {
    /// Ingests one batch of parsed events for a channel (created on first
    /// use), then folds the batch bounds into the connection timestamps.
    pub fn ingest_batch(&mut self, channel_id: ChannelId, events: &Vec<IngestEvent>, now_ns: u64)
        requires
            old(self).wf(),
            forall|i: int| 0 <= i < events@.len() ==> (#[trigger] events@[i]).wf(),
        ensures
            final(self).wf(),
            final(self).channel_names == old(self).channel_names,
            final(self).conn_timestamps == spec_update_ts(
                old(self).conn_timestamps,
                batch_min(None, events@),
                batch_max(None, events@),
                now_ns,
            ),
            ({
                let pos0 = key_pos(old(self).channel_events@, channel_id);
                let base = if pos0 >= 0 {
                    channel_model(&old(self).channel_events@[pos0].1)
                } else {
                    (
                        Seq::<StoredInstantEvent>::empty(),
                        Seq::<StoredRangeEvent<()>>::empty(),
                        Seq::<StoredRangeEvent<u64>>::empty(),
                    )
                };
                let pos = if pos0 >= 0 {
                    pos0
                } else {
                    old(self).channel_events@.len() as int
                };
                &&& final(self).channel_events@.len() == old(self).channel_events@.len() + (
                    if pos0 >= 0 {
                        0int
                    } else {
                        1int
                    })
                &&& forall|a: int|
                    0 <= a < final(self).channel_events@.len() && a != pos
                        ==> (#[trigger] final(self).channel_events@[a]) == old(
                        self,
                    ).channel_events@[a]
                &&& final(self).channel_events@[pos].0 == channel_id
                &&& channel_model(&final(self).channel_events@[pos].1) == apply_events(
                    base,
                    events@,
                )
                &&& if pos0 >= 0 {
                    final(self).channel_events@[pos].1.event_names == old(
                        self,
                    ).channel_events@[pos0].1.event_names
                } else {
                    final(self).channel_events@[pos].1.event_names@.len() == 0
                }
            }),
    {
        let ghost channels0 = self.channel_events@;
        let ghost ts0 = self.conn_timestamps;
        let ghost pos0 = key_pos(channels0, channel_id);
        let idx: usize = match self.find_channel(channel_id) {
            Some(i) => {
                proof {
                    lemma_key_pos_found(channels0, channel_id, i as int);
                }
                i
            },
            None => {
                proof {
                    lemma_key_pos_missing(channels0, channel_id);
                }
                let i = self.channel_events.len();
                self.channel_events.push((channel_id, ChannelEventsStorage::new()));
                i
            },
        };
        let ghost base = channel_model(&self.channel_events@[idx as int].1);
        let ghost names0 = self.channel_events@[idx as int].1.event_names;
        let ghost cstart = self.channel_events@;
        let mut min_acc: Option<u64> = None;
        let mut max_acc: Option<u64> = None;
        let mut i: usize = 0;
        let n = events.len();
        proof {
            assert(events@.skip(0) =~= events@);
            if pos0 >= 0 {
                assert(cstart == channels0);
            } else {
                assert(cstart == channels0.push((channel_id, self.channel_events@[idx as int].1)));
            }
        }
        while i < n
            invariant
                0 <= i <= n == events@.len(),
                forall|k: int| 0 <= k < events@.len() ==> (#[trigger] events@[k]).wf(),
                idx < self.channel_events@.len() == cstart.len(),
                forall|a: int|
                    0 <= a < self.channel_events@.len() && a != idx ==> #[trigger] self
                        .channel_events@[a] == cstart[a],
                self.channel_events@[idx as int].0 == channel_id,
                self.channel_events@[idx as int].1.wf(),
                self.channel_events@[idx as int].1.event_names == names0,
                self.channel_names@ == old(self).channel_names@,
                self.channel_names == old(self).channel_names,
                self.conn_timestamps == ts0,
                apply_events(base, events@) == apply_events(
                    channel_model(&self.channel_events@[idx as int].1),
                    events@.skip(i as int),
                ),
                batch_min(None, events@) == batch_min(min_acc, events@.skip(i as int)),
                batch_max(None, events@) == batch_max(max_acc, events@.skip(i as int)),
                min_acc is Some <==> max_acc is Some,
                match (min_acc, max_acc) {
                    (Some(a), Some(b)) => a <= b,
                    _ => true,
                },
                ({
                    let m = channel_model(&self.channel_events@[idx as int].1);
                    &&& forall|j: int|
                        0 <= j < m.0.len() ==> within_or_batch(
                            ts0,
                            min_acc,
                            max_acc,
                            (#[trigger] m.0[j]).tm,
                            m.0[j].tm,
                        )
                    &&& forall|j: int|
                        0 <= j < m.1.len() ==> within_or_batch(
                            ts0,
                            min_acc,
                            max_acc,
                            (#[trigger] m.1[j]).start,
                            m.1[j].end,
                        )
                    &&& forall|j: int|
                        0 <= j < m.2.len() ==> within_or_batch(
                            ts0,
                            min_acc,
                            max_acc,
                            (#[trigger] m.2[j]).start,
                            m.2[j].end,
                        )
                }),
            decreases n - i,
        {
            let ghost m_pre = channel_model(&self.channel_events@[idx as int].1);
            let ghost rest = events@.skip(i as int);
            proof {
                assert(rest[0] == events@[i as int]);
                assert(rest.drop_first() =~= events@.skip(i as int + 1));
            }
            let ev = events[i];
            let ghost min_pre = min_acc;
            let ghost max_pre = max_acc;
            let (emin, emax): (u64, u64) = match ev {
                IngestEvent::Instant { tm, name_id } => {
                    self.channel_events[idx].1.insert_instant_event(tm, name_id);
                    (tm, tm)
                },
                IngestEvent::Range { start, end, name_id, end_name_id, start_thread_ord_id } => {
                    self.channel_events[idx].1.insert_range_event(
                        start,
                        end,
                        name_id,
                        end_name_id,
                        start_thread_ord_id,
                    );
                    (start, end)
                },
            };
            min_acc = match min_acc {
                None => Some(emin),
                Some(m) => Some(
                    if m <= emin {
                        m
                    } else {
                        emin
                    },
                ),
            };
            max_acc = match max_acc {
                None => Some(emax),
                Some(m) => Some(
                    if m >= emax {
                        m
                    } else {
                        emax
                    },
                ),
            };
            proof {
                let m_post = channel_model(&self.channel_events@[idx as int].1);
                assert(emin == event_min_tm(events@[i as int]));
                assert(emax == event_max_tm(events@[i as int]));
                assert(m_post == apply_event(m_pre, events@[i as int]));
                // Interval coverage survives because the batch bounds only widen.
                assert forall|lo: u64, hi: u64|
                    within_or_batch(ts0, min_pre, max_pre, lo, hi) implies within_or_batch(
                    ts0,
                    min_acc,
                    max_acc,
                    lo,
                    hi,
                ) by {}
                match events@[i as int] {
                    IngestEvent::Instant { tm, name_id } => {
                        let evs = StoredInstantEvent { tm, name_id };
                        let p = instant_insert_pos(m_pre.0, tm);
                        crate::storage::lemma_instant_insert_pos_bounds(m_pre.0, tm);
                        assert forall|j: int| 0 <= j < m_post.0.len() implies within_or_batch(
                            ts0,
                            min_acc,
                            max_acc,
                            (#[trigger] m_post.0[j]).tm,
                            m_post.0[j].tm,
                        ) by {
                            if j < p {
                                assert(m_post.0[j] == m_pre.0[j]);
                            } else if j == p {
                                assert(m_post.0[j] == evs);
                            } else {
                                assert(m_post.0[j] == m_pre.0[j - 1]);
                            }
                        }
                    },
                    IngestEvent::Range { start, end, name_id, end_name_id, start_thread_ord_id } => {
                        match start_thread_ord_id {
                            Some(origin) => {
                                assert forall|j: int|
                                    0 <= j < m_post.2.len() implies within_or_batch(
                                    ts0,
                                    min_acc,
                                    max_acc,
                                    (#[trigger] m_post.2[j]).start,
                                    m_post.2[j].end,
                                ) by {
                                    if j < m_pre.2.len() {
                                        assert(m_post.2[j] == m_pre.2[j]);
                                    }
                                }
                            },
                            None => {
                                assert forall|j: int|
                                    0 <= j < m_post.1.len() implies within_or_batch(
                                    ts0,
                                    min_acc,
                                    max_acc,
                                    (#[trigger] m_post.1[j]).start,
                                    m_post.1[j].end,
                                ) by {
                                    if j < m_pre.1.len() {
                                        assert(m_post.1[j] == m_pre.1[j]);
                                    }
                                }
                            },
                        }
                    },
                }
            }
            i = i + 1;
        }
        proof {
            assert(events@.skip(n as int) =~= Seq::<IngestEvent>::empty());
        }
        let ghost pre_ts = self.channel_events@;
        self.update_conn_timestamps(min_acc, max_acc, now_ns);
        proof {
            assert(self.channel_events@ == pre_ts);
            let tsf = self.conn_timestamps;
            // Well-formedness of the final state: the widened bounds cover
            // the old bounds and the whole batch.
            assert forall|a: int, b: int|
                0 <= a < b < self.channel_events@.len() implies (
            #[trigger] self.channel_events@[a]).0 != (#[trigger] self.channel_events@[b]).0 by {
                if a == idx || b == idx {
                    let w = if a == idx {
                        b
                    } else {
                        a
                    };
                    assert(self.channel_events@[w] == cstart[w]);
                    assert(self.channel_events@[idx as int].0 == channel_id);
                    if pos0 >= 0 {
                        assert(cstart[w] == channels0[w]);
                        assert(channels0[idx as int].0 == channel_id);
                        assert(old(self).channel_events@[w] == channels0[w]);
                        if w < idx {
                            assert(channels0[w].0 != channels0[idx as int].0);
                        } else {
                            assert(channels0[idx as int].0 != channels0[w].0);
                        }
                    } else {
                        assert(w < channels0.len());
                        assert(cstart[w] == channels0[w]);
                        if channels0[w].0 == channel_id {
                            lemma_key_pos_present(channels0, channel_id, w);
                            assert(false);
                        }
                    }
                } else {
                    assert(self.channel_events@[a] == cstart[a]);
                    assert(self.channel_events@[b] == cstart[b]);
                    if pos0 >= 0 {
                        assert(cstart[a] == channels0[a]);
                        assert(cstart[b] == channels0[b]);
                        assert(channels0[a].0 != channels0[b].0);
                    } else {
                        assert(a < channels0.len() && b < channels0.len());
                        assert(cstart[a] == channels0[a]);
                        assert(cstart[b] == channels0[b]);
                        assert(channels0[a].0 != channels0[b].0);
                    }
                }
            }
            if pos0 < 0 {
                assert(base.0 =~= Seq::<StoredInstantEvent>::empty());
                assert(base.1 =~= Seq::<StoredRangeEvent<()>>::empty());
                assert(base.2 =~= Seq::<StoredRangeEvent<u64>>::empty());
            }
            assert(channel_model(&self.channel_events@[idx as int].1) == apply_events(
                base,
                events@,
            ));
            match tsf {
                Some(ts) => {
                    assert forall|lo: u64, hi: u64|
                        #[trigger] within_or_batch(ts0, min_acc, max_acc, lo, hi) implies ts.min_tm
                        <= lo && hi <= ts.max_tm by {}
                    assert forall|a: int|
                        0 <= a < self.channel_events@.len() implies channel_within(
                        &(#[trigger] self.channel_events@[a]).1,
                        ts.min_tm,
                        ts.max_tm,
                    ) by {
                        if a == idx {
                            let m = channel_model(&self.channel_events@[idx as int].1);
                            let ch = &self.channel_events@[a].1;
                            assert forall|j: int|
                                0 <= j < ch.instant_events@.len() implies ts.min_tm <= (
                            #[trigger] ch.instant_events@[j]).tm <= ts.max_tm by {
                                assert(within_or_batch(ts0, min_acc, max_acc, m.0[j].tm, m.0[j].tm));
                            }
                            assert forall|j: int|
                                0 <= j < ch.range_events.events@.len() implies ts.min_tm <= (
                            #[trigger] ch.range_events.events@[j]).start
                                && ch.range_events.events@[j].end <= ts.max_tm by {
                                assert(within_or_batch(
                                    ts0,
                                    min_acc,
                                    max_acc,
                                    m.1[j].start,
                                    m.1[j].end,
                                ));
                            }
                            assert forall|j: int|
                                0 <= j < ch.cross_thread_range_events.events@.len() implies ts.min_tm
                                <= (#[trigger] ch.cross_thread_range_events.events@[j]).start
                                && ch.cross_thread_range_events.events@[j].end <= ts.max_tm by {
                                assert(within_or_batch(
                                    ts0,
                                    min_acc,
                                    max_acc,
                                    m.2[j].start,
                                    m.2[j].end,
                                ));
                            }
                            assert(channel_within(ch, ts.min_tm, ts.max_tm));
                        } else {
                            assert(self.channel_events@[a] == cstart[a]);
                            assert(cstart[a] == channels0[a]);
                            assert(old(self).channel_events@[a] == channels0[a]);
                            let ch = &self.channel_events@[a].1;
                            match ts0 {
                                Some(t0) => {
                                    assert(channel_within(&channels0[a].1, t0.min_tm, t0.max_tm));
                                    assert(ts.min_tm <= t0.min_tm && t0.max_tm <= ts.max_tm);
                                    assert forall|j: int|
                                        0 <= j < ch.instant_events@.len() implies ts.min_tm <= (
                                    #[trigger] ch.instant_events@[j]).tm <= ts.max_tm by {}
                                    assert forall|j: int|
                                        0 <= j < ch.range_events.events@.len() implies ts.min_tm
                                        <= (#[trigger] ch.range_events.events@[j]).start
                                        && ch.range_events.events@[j].end <= ts.max_tm by {}
                                    assert forall|j: int|
                                        0 <= j < ch.cross_thread_range_events.events@.len() implies ts.min_tm
                                        <= (#[trigger] ch.cross_thread_range_events.events@[j]).start
                                        && ch.cross_thread_range_events.events@[j].end
                                        <= ts.max_tm by {}
                                },
                                None => {
                                    assert(channel_empty(&channels0[a].1));
                                },
                            }
                        }
                    }
                },
                None => {
                    assert(min_acc is None);
                    assert forall|a: int|
                        0 <= a < self.channel_events@.len() implies channel_empty(
                        &(#[trigger] self.channel_events@[a]).1,
                    ) by {
                        if a != idx {
                            assert(self.channel_events@[a] == cstart[a]);
                            if a < channels0.len() {
                                assert(cstart[a] == channels0[a]);
                            }
                        } else {
                            let m = channel_model(&self.channel_events@[idx as int].1);
                            assert(m.0.len() == 0) by {
                                if m.0.len() > 0 {
                                    assert(within_or_batch(
                                        ts0,
                                        min_acc,
                                        max_acc,
                                        m.0[0].tm,
                                        m.0[0].tm,
                                    ));
                                }
                            }
                            assert(m.1.len() == 0) by {
                                if m.1.len() > 0 {
                                    assert(within_or_batch(
                                        ts0,
                                        min_acc,
                                        max_acc,
                                        m.1[0].start,
                                        m.1[0].end,
                                    ));
                                }
                            }
                            assert(m.2.len() == 0) by {
                                if m.2.len() > 0 {
                                    assert(within_or_batch(
                                        ts0,
                                        min_acc,
                                        max_acc,
                                        m.2[0].start,
                                        m.2[0].end,
                                    ));
                                }
                            }
                        }
                    }
                },
            }
        }
    }
}

/// The per-channel stored-event ceiling the frame producer accepts, chosen
/// so each encoded section's byte length fits the `u32` prefix.
pub const MAX_CHANNEL_EVENTS: usize = 70_000_000;

/// An external range whose end name repeats its start name is stored with
/// the end name absent.
pub open spec fn canon_external(ev: IngestEvent) -> IngestEvent {
    match ev {
        IngestEvent::Instant { .. } => ev,
        IngestEvent::Range { start, end, name_id, end_name_id, .. } => IngestEvent::Range {
            start,
            end,
            name_id,
            end_name_id: match end_name_id {
                Some(id) => if id == name_id {
                    None
                } else {
                    Some(id)
                },
                None => None,
            },
            start_thread_ord_id: None,
        },
    }
}

/// What one channel answers for the window `[qs, qe)`: the encoded frame and
/// the decimation statistics.
pub open spec fn spec_channel_frame(ch: &ChannelEventsStorage, qs: u64, qe: u64) -> (
    Seq<u8>,
    crate::skipper::EventsSkipStats,
) {
    let instants = crate::storage::instants_in_window(ch.instant_events@, qs, qe);
    let local = crate::storage::window_ids(
        ch.range_events.events@,
        ch.range_events.starts_index@,
        qs,
        qe,
    ).map(|_i: int, s: int| ch.range_events.events@[s]);
    let cross = crate::storage::window_ids(
        ch.cross_thread_range_events.events@,
        ch.cross_thread_range_events.starts_index@,
        qs,
        qe,
    ).map(|_i: int, s: int| ch.cross_thread_range_events.events@[s]);
    let thr = ((qe - qs) / 2000) as u64;
    let rsk = crate::skipper::fresh_skipper(
        thr,
        crate::MAX_EV_CNT,
        (local.len() + cross.len()) as usize,
    );
    let isk = crate::skipper::fresh_skipper(thr, crate::MAX_EV_CNT, instants.len() as usize);
    let merged = crate::decimate::spec_merge(
        local.map(|_i: int, e: StoredRangeEvent<()>| crate::decimate::to_local_event(e)),
        cross.map(|_i: int, e: StoredRangeEvent<u64>| crate::decimate::to_cross_event(e)),
    );
    let placed = crate::decimate::spec_place(merged, rsk, None, Seq::empty());
    let kept = crate::decimate::spec_decimate_instants(instants, isk);
    let maxy = crate::decimate::spec_max_y(placed.0);
    let iy: u8 = if maxy < 255 {
        (maxy + 1) as u8
    } else {
        255
    };
    let frame = crate::frame::frame_bytes(
        crate::frame::instants_bytes(kept.0, iy),
        crate::frame::ranges_bytes(placed.0, false),
        crate::frame::ranges_bytes(placed.0, true),
    );
    // The statistics count events in the window. Every range receives its
    // own skipper decision, so the range skipper's counters already count
    // events; on the instant side the first instant is buffered past the
    // skipper, so the totals are taken from the window and the kept run.
    let stats = crate::skipper::EventsSkipStats {
        skipped_instant: (instants.len() - kept.0.len()) as usize,
        skipped_range: placed.1.skipped_count,
        total_instant: instants.len() as usize,
        total_range: placed.1.total_count,
    };
    (frame, stats)
}

proof fn lemma_instants_in_window_len(s: Seq<StoredInstantEvent>, qs: u64, qe: u64)
    ensures
        crate::storage::instants_in_window(s, qs, qe).len() <= s.len(),
    decreases s.len(),
{
    reveal(Seq::filter);
    if s.len() > 0 {
        lemma_instants_in_window_len(s.drop_last(), qs, qe);
    }
}

proof fn lemma_window_ids_len<T>(
    events: Seq<StoredRangeEvent<T>>,
    index: Seq<(u64, usize)>,
    qs: u64,
    qe: u64,
)
    ensures
        crate::storage::window_ids(events, index, qs, qe).len() <= index.len(),
    decreases index.len(),
{
    if index.len() > 0 && index[0].0 < qe {
        lemma_window_ids_len(events, index.drop_first(), qs, qe);
    }
}

proof fn lemma_spec_merge_len(
    a: Seq<crate::decimate::RangeEventType>,
    b: Seq<crate::decimate::RangeEventType>,
)
    ensures
        crate::decimate::spec_merge(a, b).len() == a.len() + b.len(),
    decreases a.len() + b.len(),
{
    if a.len() == 0 || b.len() == 0 {
    } else if a[0].spec_start_time() <= b[0].spec_start_time() {
        lemma_spec_merge_len(a.drop_first(), b);
    } else {
        lemma_spec_merge_len(a, b.drop_first());
    }
}

proof fn lemma_instants_bytes_len(evs: Seq<StoredInstantEvent>, y: u8)
    ensures
        crate::frame::instants_bytes(evs, y).len() == 11 * evs.len(),
    decreases evs.len(),
{
    vstd::bytes::lemma_auto_spec_u64_to_from_le_bytes();
    vstd::bytes::lemma_auto_spec_u16_to_from_le_bytes();
    if evs.len() > 0 {
        lemma_instants_bytes_len(evs.drop_first(), y);
    }
}

proof fn lemma_ranges_bytes_len(placed: Seq<crate::decimate::PlacedRange>, cross: bool)
    ensures
        crate::frame::ranges_bytes(placed, cross).len() <= 29 * placed.len(),
    decreases placed.len(),
{
    vstd::bytes::lemma_auto_spec_u64_to_from_le_bytes();
    vstd::bytes::lemma_auto_spec_u16_to_from_le_bytes();
    if placed.len() > 0 {
        lemma_ranges_bytes_len(placed.drop_first(), cross);
    }
}

/// Runs one channel's decimation pipeline for the window `[qs, qe)` and
/// encodes the frame, exactly as `spec_channel_frame` describes.
pub fn channel_frame(ch: &ChannelEventsStorage, qs: u64, qe: u64) -> (r: (
    Vec<u8>,
    crate::skipper::EventsSkipStats,
))
    requires
        ch.wf(),
        qs <= qe,
        ch.instant_events@.len() <= MAX_CHANNEL_EVENTS,
        ch.range_events.events@.len() <= MAX_CHANNEL_EVENTS,
        ch.cross_thread_range_events.events@.len() <= MAX_CHANNEL_EVENTS,
    ensures
        r.0@ == spec_channel_frame(ch, qs, qe).0,
        r.1 == spec_channel_frame(ch, qs, qe).1,
{
    let instants = ch.request_instant_events(qs, qe);
    let local = ch.request_range_events(qs, qe);
    let cross = ch.request_cross_thread_range_events(qs, qe);
    proof {
        lemma_instants_in_window_len(ch.instant_events@, qs, qe);
        lemma_window_ids_len(ch.range_events.events@, ch.range_events.starts_index@, qs, qe);
        lemma_window_ids_len(
            ch.cross_thread_range_events.events@,
            ch.cross_thread_range_events.starts_index@,
            qs,
            qe,
        );
        crate::storage::lemma_range_query_completeness(&ch.range_events, qs, qe);
        crate::storage::lemma_range_query_completeness(&ch.cross_thread_range_events, qs, qe);
        let lids = crate::storage::window_ids(
            ch.range_events.events@,
            ch.range_events.starts_index@,
            qs,
            qe,
        );
        assert forall|a: int, b: int| 0 <= a <= b < local@.len() implies (
        #[trigger] local@[a]).start <= (#[trigger] local@[b]).start by {
            if a < b {
                assert(local@[a] == ch.range_events.events@[lids[a]]);
                assert(local@[b] == ch.range_events.events@[lids[b]]);
            }
        }
        assert forall|a: int| 0 <= a < local@.len() implies (#[trigger] local@[a]).start
            <= local@[a].end by {
            assert(local@[a] == ch.range_events.events@[lids[a]]);
        }
        let cids = crate::storage::window_ids(
            ch.cross_thread_range_events.events@,
            ch.cross_thread_range_events.starts_index@,
            qs,
            qe,
        );
        assert forall|a: int, b: int| 0 <= a <= b < cross@.len() implies (
        #[trigger] cross@[a]).start <= (#[trigger] cross@[b]).start by {
            if a < b {
                assert(cross@[a] == ch.cross_thread_range_events.events@[cids[a]]);
                assert(cross@[b] == ch.cross_thread_range_events.events@[cids[b]]);
            }
        }
        assert forall|a: int| 0 <= a < cross@.len() implies (#[trigger] cross@[a]).start
            <= cross@[a].end by {
            assert(cross@[a] == ch.cross_thread_range_events.events@[cids[a]]);
        }
    }
    let skip_thr = (qe - qs) / 2000;
    let range_count = local.len() + cross.len();
    let mut processor = crate::skipper::EventSkippingProcessor::new(
        skip_thr,
        crate::MAX_EV_CNT,
        instants.len(),
        range_count,
    );
    let (local_buf, cross_buf, max_y) = crate::decimate::process_range_events(
        &local,
        &cross,
        &mut processor,
        skip_thr,
    );
    let instant_y: u8 = if max_y < 255 {
        max_y + 1
    } else {
        255
    };
    let kept = crate::decimate::decimate_instants(&instants, &mut processor);
    let instants_buf = crate::frame::encode_instant_section(&kept, instant_y);
    proof {
        let merged = crate::decimate::spec_merge(
            local@.map(|_i: int, e: StoredRangeEvent<()>| crate::decimate::to_local_event(e)),
            cross@.map(|_i: int, e: StoredRangeEvent<u64>| crate::decimate::to_cross_event(e)),
        );
        lemma_spec_merge_len(
            local@.map(|_i: int, e: StoredRangeEvent<()>| crate::decimate::to_local_event(e)),
            cross@.map(|_i: int, e: StoredRangeEvent<u64>| crate::decimate::to_cross_event(e)),
        );
        crate::decimate::lemma_spec_place_len(
            merged,
            crate::skipper::fresh_skipper(skip_thr, crate::MAX_EV_CNT, range_count),
            None,
            Seq::empty(),
        );
        crate::decimate::lemma_decimate_instants_len(
            instants@,
            crate::skipper::fresh_skipper(skip_thr, crate::MAX_EV_CNT, instants@.len() as usize),
        );
        lemma_instants_bytes_len(kept@, instant_y);
        let placed = crate::decimate::spec_place(
            merged,
            crate::skipper::fresh_skipper(skip_thr, crate::MAX_EV_CNT, range_count),
            None,
            Seq::empty(),
        );
        lemma_ranges_bytes_len(placed.0, false);
        lemma_ranges_bytes_len(placed.0, true);
    }
    let frame = crate::frame::build_frame(&instants_buf, &local_buf, &cross_buf);
    let (_, skipped_range, _, total_range) = processor.get_stats();
    let total_instant = instants.len();
    let skipped_instant = total_instant - kept.len();
    let stats = crate::skipper::EventsSkipStats {
        skipped_instant,
        skipped_range,
        total_instant,
        total_range,
    };
    (frame, stats)
}

impl ClientStorage {
    /// Ingests a batch parsed from a worker thread's stream.
    pub fn handle_events(&mut self, thread_ord_id: u64, events: &Vec<IngestEvent>, now_ns: u64)
        requires
            old(self).wf(),
            forall|i: int| 0 <= i < events@.len() ==> (#[trigger] events@[i]).wf(),
        ensures
            final(self).wf(),
            final(self).channel_names == old(self).channel_names,
            final(self).conn_timestamps == spec_update_ts(
                old(self).conn_timestamps,
                batch_min(None, events@),
                batch_max(None, events@),
                now_ns,
            ),
            ({
                let pos0 = key_pos(old(self).channel_events@, ChannelId::Thread(thread_ord_id));
                let base = if pos0 >= 0 {
                    channel_model(&old(self).channel_events@[pos0].1)
                } else {
                    (
                        Seq::<StoredInstantEvent>::empty(),
                        Seq::<StoredRangeEvent<()>>::empty(),
                        Seq::<StoredRangeEvent<u64>>::empty(),
                    )
                };
                let pos = if pos0 >= 0 {
                    pos0
                } else {
                    old(self).channel_events@.len() as int
                };
                &&& final(self).channel_events@.len() == old(self).channel_events@.len() + (
                    if pos0 >= 0 {
                        0int
                    } else {
                        1int
                    })
                &&& forall|a: int|
                    0 <= a < final(self).channel_events@.len() && a != pos
                        ==> (#[trigger] final(self).channel_events@[a]) == old(
                        self,
                    ).channel_events@[a]
                &&& final(self).channel_events@[pos].0 == ChannelId::Thread(thread_ord_id)
                &&& channel_model(&final(self).channel_events@[pos].1) == apply_events(
                    base,
                    events@,
                )
            }),
    {
        self.ingest_batch(ChannelId::Thread(thread_ord_id), events, now_ns)
    }

    /// Ingests a batch from an external channel; end names equal to the
    /// start name are canonicalized to absent, and the events are stored as
    /// local ranges.
    pub fn handle_external_events(&mut self, ext_ord_id: u32, events: &Vec<IngestEvent>, now_ns: u64)
        requires
            old(self).wf(),
            forall|i: int| 0 <= i < events@.len() ==> (#[trigger] events@[i]).wf(),
        ensures
            final(self).wf(),
            final(self).channel_names == old(self).channel_names,
            ({
                let canon = events@.map(|_i: int, e: IngestEvent| canon_external(e));
                let pos0 = key_pos(old(self).channel_events@, ChannelId::External(ext_ord_id));
                let base = if pos0 >= 0 {
                    channel_model(&old(self).channel_events@[pos0].1)
                } else {
                    (
                        Seq::<StoredInstantEvent>::empty(),
                        Seq::<StoredRangeEvent<()>>::empty(),
                        Seq::<StoredRangeEvent<u64>>::empty(),
                    )
                };
                let pos = if pos0 >= 0 {
                    pos0
                } else {
                    old(self).channel_events@.len() as int
                };
                &&& final(self).conn_timestamps == spec_update_ts(
                    old(self).conn_timestamps,
                    batch_min(None, canon),
                    batch_max(None, canon),
                    now_ns,
                )
                &&& final(self).channel_events@.len() == old(self).channel_events@.len() + (
                    if pos0 >= 0 {
                        0int
                    } else {
                        1int
                    })
                &&& forall|a: int|
                    0 <= a < final(self).channel_events@.len() && a != pos
                        ==> (#[trigger] final(self).channel_events@[a]) == old(
                        self,
                    ).channel_events@[a]
                &&& final(self).channel_events@[pos].0 == ChannelId::External(ext_ord_id)
                &&& channel_model(&final(self).channel_events@[pos].1) == apply_events(base, canon)
            }),
    {
        let ghost canon = events@.map(|_i: int, e: IngestEvent| canon_external(e));
        let mut canonical: Vec<IngestEvent> = Vec::new();
        let mut i: usize = 0;
        let n = events.len();
        while i < n
            invariant
                0 <= i <= n == events@.len(),
                forall|k: int| 0 <= k < events@.len() ==> (#[trigger] events@[k]).wf(),
                canonical@.len() == i,
                forall|k: int|
                    0 <= k < i ==> (#[trigger] canonical@[k]) == canon_external(events@[k]),
            decreases n - i,
        {
            let ev = events[i];
            let c = match ev {
                IngestEvent::Instant { tm, name_id } => IngestEvent::Instant { tm, name_id },
                IngestEvent::Range { start, end, name_id, end_name_id, start_thread_ord_id: _ } => {
                    let canon_end = match end_name_id {
                        Some(id) => if id == name_id {
                            None
                        } else {
                            Some(id)
                        },
                        None => None,
                    };
                    IngestEvent::Range {
                        start,
                        end,
                        name_id,
                        end_name_id: canon_end,
                        start_thread_ord_id: None,
                    }
                },
            };
            canonical.push(c);
            i = i + 1;
        }
        proof {
            assert(canonical@ =~= canon);
            assert forall|k: int| 0 <= k < canonical@.len() implies (
            #[trigger] canonical@[k]).wf() by {
                assert(canonical@[k] == canon_external(events@[k]));
                assert(events@[k].wf());
            }
        }
        self.ingest_batch(ChannelId::External(ext_ord_id), &canonical, now_ns)
    }

    /// Replaces one channel's event-name table wholesale, creating the
    /// channel on first use.
    pub fn update_event_names(&mut self, channel_id: ChannelId, names: Vec<(u16, String)>)
        requires
            old(self).wf(),
        ensures
            final(self).wf(),
            final(self).channel_names == old(self).channel_names,
            final(self).conn_timestamps == old(self).conn_timestamps,
            ({
                let pos0 = key_pos(old(self).channel_events@, channel_id);
                let pos = if pos0 >= 0 {
                    pos0
                } else {
                    old(self).channel_events@.len() as int
                };
                &&& final(self).channel_events@.len() == old(self).channel_events@.len() + (
                    if pos0 >= 0 {
                        0int
                    } else {
                        1int
                    })
                &&& forall|a: int|
                    0 <= a < final(self).channel_events@.len() && a != pos
                        ==> (#[trigger] final(self).channel_events@[a]) == old(
                        self,
                    ).channel_events@[a]
                &&& final(self).channel_events@[pos].0 == channel_id
                &&& final(self).channel_events@[pos].1.event_names == names
                &&& channel_model(&final(self).channel_events@[pos].1) == (if pos0 >= 0 {
                    channel_model(&old(self).channel_events@[pos0].1)
                } else {
                    (
                        Seq::<StoredInstantEvent>::empty(),
                        Seq::<StoredRangeEvent<()>>::empty(),
                        Seq::<StoredRangeEvent<u64>>::empty(),
                    )
                })
            }),
    {
        let ghost channels0 = self.channel_events@;
        let ghost pos0 = key_pos(channels0, channel_id);
        let idx: usize = match self.find_channel(channel_id) {
            Some(i) => {
                proof {
                    lemma_key_pos_found(channels0, channel_id, i as int);
                }
                i
            },
            None => {
                proof {
                    lemma_key_pos_missing(channels0, channel_id);
                }
                let i = self.channel_events.len();
                self.channel_events.push((channel_id, ChannelEventsStorage::new()));
                i
            },
        };
        self.channel_events[idx].1.update_event_names(names);
        proof {
            if pos0 < 0 {
                let m = channel_model(&self.channel_events@[idx as int].1);
                assert(m.0 =~= Seq::<StoredInstantEvent>::empty());
                assert(m.1 =~= Seq::<StoredRangeEvent<()>>::empty());
                assert(m.2 =~= Seq::<StoredRangeEvent<u64>>::empty());
            }
            assert forall|a: int, b: int|
                0 <= a < b < self.channel_events@.len() implies (
            #[trigger] self.channel_events@[a]).0 != (#[trigger] self.channel_events@[b]).0 by {
                if a == idx || b == idx {
                    let w = if a == idx {
                        b
                    } else {
                        a
                    };
                    if pos0 >= 0 {
                        assert(self.channel_events@[w] == channels0[w]);
                        assert(channels0[idx as int].0 == channel_id);
                    } else {
                        assert(w < channels0.len());
                        assert(self.channel_events@[w] == channels0[w]);
                        if channels0[w].0 == channel_id {
                            lemma_key_pos_present(channels0, channel_id, w);
                            assert(false);
                        }
                    }
                } else {
                    assert(self.channel_events@[a] == channels0[a]);
                    assert(self.channel_events@[b] == channels0[b]);
                }
            }
            match self.conn_timestamps {
                Some(ts) => {
                    assert forall|a: int|
                        0 <= a < self.channel_events@.len() implies channel_within(
                        &(#[trigger] self.channel_events@[a]).1,
                        ts.min_tm,
                        ts.max_tm,
                    ) by {
                        if a != idx {
                            assert(self.channel_events@[a] == channels0[a]);
                        } else if pos0 >= 0 {
                            assert(channel_within(&channels0[pos0].1, ts.min_tm, ts.max_tm));
                        }
                    }
                },
                None => {
                    assert forall|a: int|
                        0 <= a < self.channel_events@.len() implies channel_empty(
                        &(#[trigger] self.channel_events@[a]).1,
                    ) by {
                        if a != idx {
                            assert(self.channel_events@[a] == channels0[a]);
                        } else if pos0 >= 0 {
                            assert(channel_empty(&channels0[pos0].1));
                        }
                    }
                },
            }
        }
    }

    /// Answers a range request: one decimated frame with statistics per
    /// channel, in store order.
    pub fn produce_range_frames(&self, qs: u64, qe: u64) -> (r: Vec<
        (ChannelId, Vec<u8>, crate::skipper::EventsSkipStats),
    >)
        requires
            self.wf(),
            qs <= qe,
            forall|a: int|
                0 <= a < self.channel_events@.len() ==> {
                    let ch = (#[trigger] self.channel_events@[a]).1;
                    &&& ch.instant_events@.len() <= MAX_CHANNEL_EVENTS
                    &&& ch.range_events.events@.len() <= MAX_CHANNEL_EVENTS
                    &&& ch.cross_thread_range_events.events@.len() <= MAX_CHANNEL_EVENTS
                },
        ensures
            r@.len() == self.channel_events@.len(),
            forall|a: int|
                0 <= a < r@.len() ==> {
                    let (id, frame, stats) = #[trigger] r@[a];
                    &&& id == self.channel_events@[a].0
                    &&& frame@ == spec_channel_frame(&self.channel_events@[a].1, qs, qe).0
                    &&& stats == spec_channel_frame(&self.channel_events@[a].1, qs, qe).1
                },
    {
        let mut r: Vec<(ChannelId, Vec<u8>, crate::skipper::EventsSkipStats)> = Vec::new();
        let mut i: usize = 0;
        let n = self.channel_events.len();
        while i < n
            invariant
                0 <= i <= n == self.channel_events@.len(),
                self.wf(),
                qs <= qe,
                forall|a: int|
                    0 <= a < self.channel_events@.len() ==> {
                        let ch = (#[trigger] self.channel_events@[a]).1;
                        &&& ch.instant_events@.len() <= MAX_CHANNEL_EVENTS
                        &&& ch.range_events.events@.len() <= MAX_CHANNEL_EVENTS
                        &&& ch.cross_thread_range_events.events@.len() <= MAX_CHANNEL_EVENTS
                    },
                r@.len() == i,
                forall|a: int|
                    0 <= a < i ==> {
                        let (id, frame, stats) = #[trigger] r@[a];
                        &&& id == self.channel_events@[a].0
                        &&& frame@ == spec_channel_frame(&self.channel_events@[a].1, qs, qe).0
                        &&& stats == spec_channel_frame(&self.channel_events@[a].1, qs, qe).1
                    },
            decreases n - i,
        {
            let (frame, stats) = channel_frame(&self.channel_events[i].1, qs, qe);
            r.push((self.channel_events[i].0, frame, stats));
            i = i + 1;
        }
        r
    }
}

/// One queued range request per browser session: a later request from the
/// same session replaces the earlier one.
pub struct PendingRequests {
    pub entries: Vec<(u32, u64, u64)>,
}

impl PendingRequests {
    /// Session ids appear at most once.
    pub open spec fn wf(&self) -> bool {
        forall|a: int, b: int|
            0 <= a < b < self.entries@.len() ==> (#[trigger] self.entries@[a]).0 != (
            #[trigger] self.entries@[b]).0
    }

    pub fn new() -> (r: Self)
        ensures
            r.wf(),
            r.entries@.len() == 0,
    {
        PendingRequests { entries: Vec::new() }
    }

    /// Queues a request; a pending request from the same session is
    /// overwritten in place (last write wins per session).
    pub fn insert_request(&mut self, ws_id: u32, qs: u64, qe: u64)
        requires
            old(self).wf(),
        ensures
            final(self).wf(),
            ({
                let entries0 = old(self).entries@;
                exists|i: int|
                    0 <= i < final(self).entries@.len() && final(self).entries@[i] == (
                        ws_id,
                        qs,
                        qe,
                    ) && final(self).entries@ == (if i < entries0.len() {
                        entries0.update(i, (ws_id, qs, qe))
                    } else {
                        entries0.push((ws_id, qs, qe))
                    }) && (i < entries0.len() ==> entries0[i].0 == ws_id)
            }),
    {
        let mut i: usize = 0;
        let n = self.entries.len();
        let mut found: Option<usize> = None;
        while i < n && found.is_none()
            invariant
                0 <= i <= n == self.entries@.len(),
                *self == *old(self),
                match found {
                    Some(f) => f < self.entries@.len() && self.entries@[f as int].0 == ws_id,
                    None => forall|a: int|
                        0 <= a < i ==> (#[trigger] self.entries@[a]).0 != ws_id,
                },
            decreases n - i + (if found.is_none() { 1int } else { 0int }),
        {
            if self.entries[i].0 == ws_id {
                found = Some(i);
            } else {
                i = i + 1;
            }
        }
        let ghost entries0 = self.entries@;
        match found {
            Some(f) => {
                self.entries.set(f, (ws_id, qs, qe));
                proof {
                    assert(self.entries@ == entries0.update(f as int, (ws_id, qs, qe)));
                    assert(self.entries@[f as int] == (ws_id, qs, qe));
                    assert forall|a: int, b: int|
                        0 <= a < b < self.entries@.len() implies (#[trigger] self.entries@[a]).0
                        != (#[trigger] self.entries@[b]).0 by {
                        if a != f {
                            assert(self.entries@[a] == entries0[a]);
                        }
                        if b != f {
                            assert(self.entries@[b] == entries0[b]);
                        }
                        assert(entries0[f as int].0 == ws_id);
                        assert(entries0[a].0 != entries0[b].0);
                    }
                }
            },
            None => {
                self.entries.push((ws_id, qs, qe));
                proof {
                    assert(self.entries@[n as int] == (ws_id, qs, qe));
                    assert forall|a: int, b: int|
                        0 <= a < b < self.entries@.len() implies (#[trigger] self.entries@[a]).0
                        != (#[trigger] self.entries@[b]).0 by {
                        if b < n {
                            assert(self.entries@[a] == entries0[a]);
                            assert(self.entries@[b] == entries0[b]);
                        } else {
                            assert(self.entries@[a] == entries0[a]);
                            assert(entries0[a].0 != ws_id);
                        }
                    }
                }
            },
        }
    }

    /// Takes the request that will be served this turn, if any.
    pub fn take_next(&mut self) -> (r: Option<(u32, u64, u64)>)
        requires
            old(self).wf(),
        ensures
            final(self).wf(),
            match r {
                Some(e) => old(self).entries@.len() > 0 && e == old(self).entries@[0]
                    && final(self).entries@ == old(self).entries@.drop_first(),
                None => old(self).entries@.len() == 0 && *final(self) == *old(self),
            },
    {
        if self.entries.len() == 0 {
            None
        } else {
            let e = self.entries.remove(0);
            proof {
                assert(self.entries@ =~= old(self).entries@.drop_first());
                assert forall|a: int, b: int|
                    0 <= a < b < self.entries@.len() implies (#[trigger] self.entries@[a]).0 != (
                #[trigger] self.entries@[b]).0 by {
                    assert(self.entries@[a] == old(self).entries@[a + 1]);
                    assert(self.entries@[b] == old(self).entries@[b + 1]);
                }
            }
            Some(e)
        }
    }

    /// Puts a request back (the reply channel had no free permits); it will
    /// be retried on a later turn.
    pub fn push_back_retry(&mut self, ws_id: u32, qs: u64, qe: u64)
        requires
            old(self).wf(),
            forall|a: int| 0 <= a < old(self).entries@.len() ==> (#[trigger] old(self).entries@[a]).0 != ws_id,
        ensures
            final(self).wf(),
            final(self).entries@ == old(self).entries@.push((ws_id, qs, qe)),
    {
        self.entries.push((ws_id, qs, qe));
        proof {
            assert(self.entries@[old(self).entries@.len() as int] == (ws_id, qs, qe));
        }
    }
}

/// Position of the first entry with the given key, or -1.
pub open spec fn key_pos<V>(names: Seq<(ChannelId, V)>, id: ChannelId) -> int
    decreases names.len(),
{
    if names.len() == 0 {
        -1
    } else if names[0].0 == id {
        0
    } else {
        let r = key_pos(names.drop_first(), id);
        if r < 0 {
            -1
        } else {
            1 + r
        }
    }
}

proof fn lemma_key_pos_found<V>(names: Seq<(ChannelId, V)>, id: ChannelId, i: int)
    requires
        0 <= i < names.len(),
        names[i].0 == id,
        forall|a: int| 0 <= a < i ==> (#[trigger] names[a]).0 != id,
    ensures
        key_pos(names, id) == i,
    decreases names.len(),
{
    if names[0].0 == id {
        assert(i == 0);
    } else {
        let rest = names.drop_first();
        assert(rest[i - 1] == names[i]);
        assert forall|a: int| 0 <= a < i - 1 implies (#[trigger] rest[a]).0 != id by {
            assert(rest[a] == names[a + 1]);
        }
        lemma_key_pos_found(rest, id, i - 1);
    }
}

proof fn lemma_key_pos_missing<V>(names: Seq<(ChannelId, V)>, id: ChannelId)
    requires
        forall|a: int| 0 <= a < names.len() ==> (#[trigger] names[a]).0 != id,
    ensures
        key_pos(names, id) == -1,
    decreases names.len(),
{
    if names.len() > 0 {
        let rest = names.drop_first();
        assert forall|a: int| 0 <= a < rest.len() implies (#[trigger] rest[a]).0 != id by {
            assert(rest[a] == names[a + 1]);
        }
        lemma_key_pos_missing(rest, id);
    }
}

proof fn lemma_key_pos_present<V>(names: Seq<(ChannelId, V)>, id: ChannelId, i: int)
    requires
        0 <= i < names.len(),
        names[i].0 == id,
    ensures
        key_pos(names, id) >= 0,
    decreases names.len(),
{
    if names[0].0 == id {
    } else {
        let rest = names.drop_first();
        assert(rest[i - 1] == names[i]);
        lemma_key_pos_present(rest, id, i - 1);
    }
}

proof fn lemma_stats_model_nonneg(channels: Seq<(ChannelId, ChannelEventsStorage)>)
    ensures
        ClientStorage::stats_model(channels).0 >= 0,
        ClientStorage::stats_model(channels).1 >= 0,
    decreases channels.len(),
{
    if channels.len() > 0 {
        lemma_stats_model_nonneg(channels.drop_first());
    }
}

} // verus!
