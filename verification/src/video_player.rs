//! The viewer's video player: it queues the announcements of new segments,
//! fetches them, keeps the fetched segments in a buffer ordered by segment
//! number, and plays one segment per tick, stopping to rebuffer when the
//! buffer runs dry and skipping ahead when it lags too far behind.
use vstd::prelude::*;
use crate::block::Cid;
use crate::params::TestCaseParams;
use std::collections::{HashSet, VecDeque};

verus! {

broadcast use {vstd::std_specs::hash::group_hash_axioms, vstd::std_specs::vecdeque::group_vec_dequeue_axioms};

/// The announcement of a segment: its number, the time it was produced (in
/// milliseconds) and the identifiers of its blocks.
pub struct StreamerMessage {
    pub count: u64,
    pub timestamp: u64,
    pub cids: Vec<Cid>,
}

/// An announcement, by value.
pub type MessageView = (u64, u64, Seq<Seq<u8>>);

impl View for StreamerMessage {
    type V = MessageView;

    open spec fn view(&self) -> MessageView {
        (self.count, self.timestamp, self.cids@.map_values(|c: Cid| c@))
    }
}

/// The measurements taken when an announcement or a segment arrives.
#[derive(PartialEq, Eq, Structural, Debug, Clone, Copy)]
pub struct ArrivalMetrics {
    /// Milliseconds between production and arrival.
    pub latency: u64,
    /// How much later than one segment length after the previous arrival
    /// this one came, in milliseconds (0 for the first arrival).
    pub jitter: i64,
}

/// The measurements taken at each tick of the player.
#[derive(PartialEq, Eq, Structural, Debug, Clone, Copy)]
pub struct StreamReport {
    /// Announcements waiting to be fetched.
    pub gossips: u64,
    /// Segments being fetched.
    pub fetch: u64,
    /// Segments in the buffer.
    pub buffer: u64,
    /// For how many ticks in a row playback has stopped.
    pub stop: u64,
    /// Milliseconds between the production of the segment played and now.
    pub latency: Option<u64>,
    /// How many segments were skipped to catch up.
    pub skip: Option<u64>,
}

/// What one tick of the player does.
pub struct PlayStep {
    /// The announcement whose blocks are to be fetched now.
    pub fetch: Option<StreamerMessage>,
    /// The measurements of the tick.
    pub report: StreamReport,
}

/// The player, by value.
pub struct VideoView {
    pub params: TestCaseParams,
    pub sim_id: u64,
    pub last_gossip_time: u64,
    pub gossips: Seq<MessageView>,
    /// The segments being fetched.
    pub fetching: Set<u64>,
    pub last_segment_time: u64,
    /// (segment number, production time) of the buffered segments.
    pub buffer: Seq<(u64, u64)>,
    pub current_segment: u64,
    pub stopped: u64,
    pub buffering: u64,
    pub buffer_size: u64,
}

/// The segments are in non-decreasing order of their numbers.
pub open spec fn buffer_sorted(b: Seq<(u64, u64)>) -> bool {
    forall|i: int, j: int| 0 <= i <= j < b.len() ==> (#[trigger] b[i]).0 <= (#[trigger] b[j]).0
}

/// The length of a segment in milliseconds, as the `i64` that
/// `(segment_length * 1000) as i64` gives.
pub open spec fn period_spec(segment_length: usize) -> int {
    ((segment_length * 1000) as i64) as int
}

/// The jitter of an arrival at `receive` after one at `last` (none when
/// `last` is 0), for segments of `segment_length` seconds.
pub open spec fn jitter_spec(receive: int, last: int, segment_length: usize) -> int {
    if last == 0 {
        0
    } else {
        (receive - last) - period_spec(segment_length)
    }
}

/// The position where a segment numbered `v` goes: after every segment
/// numbered `v` or less.
pub open spec fn insert_pos(s: Seq<(u64, u64)>, v: u64) -> int
    decreases s.len(),
{
    if s.len() == 0 || s.last().0 <= v {
        s.len() as int
    } else {
        insert_pos(s.drop_last(), v)
    }
}

/// The buffer with one more segment, in its place.
pub open spec fn insert_sorted(s: Seq<(u64, u64)>, x: (u64, u64)) -> Seq<(u64, u64)> {
    s.insert(insert_pos(s, x.0), x)
}

/// The state of the viewer's video player.
pub struct VideoStream {
    params: TestCaseParams,
    sim_id: u64,
    last_gossip_time: u64,
    gossips: VecDeque<StreamerMessage>,
    fetching: HashSet<u64>,
    last_segment_time: u64,
    timestamps: VecDeque<u64>,
    segments: VecDeque<u64>,
    current_segment: u64,
    stopped: u64,
    buffering: u64,
    buffer_size: u64,
}

/// The views of queued announcements.
pub open spec fn message_views(s: Seq<StreamerMessage>) -> Seq<MessageView> {
    s.map_values(|m: StreamerMessage| m@)
}

/// The buffer described by parallel vectors of numbers and times.
pub open spec fn zip_buffer(segments: Seq<u64>, timestamps: Seq<u64>) -> Seq<(u64, u64)> {
    Seq::new(segments.len(), |i: int| (segments[i], timestamps[i]))
}

impl View for VideoStream {
    type V = VideoView;

    closed spec fn view(&self) -> VideoView {
        VideoView {
            params: self.params,
            sim_id: self.sim_id,
            last_gossip_time: self.last_gossip_time,
            gossips: message_views(self.gossips@),
            fetching: self.fetching@,
            last_segment_time: self.last_segment_time,
            buffer: zip_buffer(self.segments@, self.timestamps@),
            current_segment: self.current_segment,
            stopped: self.stopped,
            buffering: self.buffering,
            buffer_size: self.buffer_size,
        }
    }
}

impl VideoStream {
    /// The internal invariant: the buffer is ordered by segment number, and
    /// times of arrival fit an `i64`.
    pub closed spec fn wf(&self) -> bool {
        &&& self.segments@.len() == self.timestamps@.len()
        &&& buffer_sorted(self@.buffer)
        &&& self.last_gossip_time <= i64::MAX
        &&& self.last_segment_time <= i64::MAX
    }

    /// A player for instance `sim_id`, with an empty buffer of 30 segments.
    pub fn new(params: TestCaseParams, sim_id: u64) -> (out: VideoStream)
        ensures
            out.wf(),
            out@ == (VideoView {
                params,
                sim_id,
                last_gossip_time: 0,
                gossips: Seq::empty(),
                fetching: Set::empty(),
                last_segment_time: 0,
                buffer: Seq::empty(),
                current_segment: 0,
                stopped: 0,
                buffering: 0,
                buffer_size: 30,
            }),
    {
        let out = VideoStream {
            params,
            sim_id,
            last_gossip_time: 0,
            gossips: VecDeque::new(),
            fetching: HashSet::new(),
            last_segment_time: 0,
            timestamps: VecDeque::new(),
            segments: VecDeque::new(),
            current_segment: 0,
            stopped: 0,
            buffering: 0,
            buffer_size: 30,
        };
        proof {
            assert(out@.gossips =~= Seq::<MessageView>::empty());
            assert(out@.buffer =~= Seq::<(u64, u64)>::empty());
        }
        out
    }

    /// The time of arrival of the last announcement (0 before the first).
    pub fn last_gossip_time(&self) -> (out: u64)
        ensures
            out == self@.last_gossip_time,
    {
        self.last_gossip_time
    }

    /// The time of arrival of the last segment (0 before the first).
    pub fn last_segment_time(&self) -> (out: u64)
        ensures
            out == self@.last_segment_time,
    {
        self.last_segment_time
    }

    /// The segment last played.
    pub fn current_segment(&self) -> (out: u64)
        ensures
            out == self@.current_segment,
    {
        self.current_segment
    }

    /// For how many ticks in a row playback has stopped.
    pub fn stopped(&self) -> (out: u64)
        ensures
            out == self@.stopped,
    {
        self.stopped
    }

    /// The measurements of an arrival at `receive_time` of something produced
    /// at `timestamp`, after a previous arrival at `last`.
    fn arrival(&self, receive_time: u64, timestamp: u64, last: u64) -> (out: ArrivalMetrics)
        requires
            self.wf(),
            last <= i64::MAX,
            arrival_ok(timestamp, receive_time, last, self@.params.segment_length),
        ensures
            out.latency == receive_time - timestamp,
            out.jitter == jitter_spec(receive_time as int, last as int, self@.params.segment_length),
    {
        let latency = receive_time - timestamp;
        let jitter: i64 = if last == 0 {
            0
        } else {
            let period = (self.params.segment_length * 1000) as i64;
            (receive_time as i64 - last as i64) - period
        };
        ArrivalMetrics { latency, jitter }
    }

    /// Queues the announcement `msg`, received at `receive_time` (in
    /// milliseconds), and returns its measurements.
    pub fn add_gossip(&mut self, msg: StreamerMessage, receive_time: u64) -> (out: ArrivalMetrics)
        requires
            old(self).wf(),
            arrival_ok(msg.timestamp, receive_time, old(self)@.last_gossip_time, old(self)@.params.segment_length),
        ensures
            final(self).wf(),
            out.latency == receive_time - msg.timestamp,
            out.jitter == jitter_spec(
                receive_time as int,
                old(self)@.last_gossip_time as int,
                old(self)@.params.segment_length,
            ),
            final(self)@ == (VideoView {
                last_gossip_time: receive_time,
                gossips: old(self)@.gossips.push(msg@),
                ..old(self)@
            }),
    {
        let metrics = self.arrival(receive_time, msg.timestamp, self.last_gossip_time);
        self.last_gossip_time = receive_time;
        let ghost g = message_views(self.gossips@);
        self.gossips.push_back(msg);
        proof {
            assert(message_views(self.gossips@) =~= g.push(msg@));
        }
        metrics
    }
}

impl VideoStream {
    /// Drops `segment_index` from the segments being fetched.
    fn stop_fetching(&mut self, segment_index: u64)
        requires
            old(self).wf(),
        ensures
            final(self).wf(),
            final(self)@ == (VideoView { fetching: old(self)@.fetching.remove(segment_index), ..old(self)@ }),
    {
        self.fetching.remove(&segment_index);
    }

    /// Stores the segment `segment_index`, produced at `timestamp` and fetched
    /// at `receive_time` (in milliseconds), in its place in the buffer, and
    /// returns its measurements.
    pub fn add_segment(&mut self, segment_index: u64, timestamp: u64, receive_time: u64) -> (out: ArrivalMetrics)
        requires
            old(self).wf(),
            arrival_ok(timestamp, receive_time, old(self)@.last_segment_time, old(self)@.params.segment_length),
        ensures
            final(self).wf(),
            out.latency == receive_time - timestamp,
            out.jitter == jitter_spec(
                receive_time as int,
                old(self)@.last_segment_time as int,
                old(self)@.params.segment_length,
            ),
            final(self)@ == (VideoView {
                fetching: old(self)@.fetching.remove(segment_index),
                last_segment_time: receive_time,
                buffer: insert_sorted(old(self)@.buffer, (segment_index, timestamp)),
                ..old(self)@
            }),
    {
        self.stop_fetching(segment_index);
        let metrics = self.arrival(receive_time, timestamp, self.last_segment_time);
        self.last_segment_time = receive_time;
        let ghost b0 = self@.buffer;
        let ghost x = (segment_index, timestamp);
        let mut j: usize = self.segments.len();
        proof {
            assert(b0.take(j as int) =~= b0);
        }
        while j > 0 && self.segments[j - 1] > segment_index
            invariant
                self.segments@.len() == self.timestamps@.len(),
                self.segments@.len() == b0.len(),
                b0 == zip_buffer(self.segments@, self.timestamps@),
                x == (segment_index, timestamp),
                j <= b0.len(),
                forall|k: int| j <= k < b0.len() ==> b0[k].0 > x.0,
                insert_pos(b0, x.0) == insert_pos(b0.take(j as int), x.0),
            decreases j,
        {
            proof {
                assert(b0[j - 1] == (self.segments@[j - 1], self.timestamps@[j - 1]));
                assert(b0.take(j as int).drop_last() =~= b0.take(j - 1));
                assert(b0.take(j as int).last() == b0[j - 1]);
            }
            j = j - 1;
        }
        proof {
            if j > 0 {
                assert(b0[j - 1] == (self.segments@[j - 1], self.timestamps@[j - 1]));
                assert(b0.take(j as int).last() == b0[j - 1]);
            }
        }
        let ghost p = j as int;
        proof {
            assert(insert_pos(b0, x.0) == p);
        }
        self.segments.insert(j, segment_index);
        self.timestamps.insert(j, timestamp);
        proof {
            let nb = self@.buffer;
            assert(nb =~= b0.insert(p, x));
            assert forall|a: int, c: int| 0 <= a <= c < nb.len() implies (#[trigger] nb[a]).0 <= (#[trigger] nb[c]).0 by {
                if p > 0 {
                    assert(b0[p - 1].0 <= x.0);
                }
                if a < p && c < p {
                    assert(nb[a] == b0[a] && nb[c] == b0[c]);
                } else if a < p && c == p {
                    assert(nb[a] == b0[a]);
                    assert(b0[a].0 <= b0[p - 1].0);
                } else if a < p {
                    assert(nb[a] == b0[a] && nb[c] == b0[c - 1]);
                } else if a == p && c == p {
                } else if a == p {
                    assert(nb[c] == b0[c - 1]);
                } else {
                    assert(nb[a] == b0[a - 1] && nb[c] == b0[c - 1]);
                }
            }
        }
        metrics
    }
}

/// Skipping ahead in the buffer: while the newest buffered segment is more
/// than `gap` segments ahead of `seg`, the next buffered segment replaces
/// it. Gives (segment, time, what stays buffered, segments skipped).
pub open spec fn skip_ahead(seg: u64, ts: u64, rest: Seq<(u64, u64)>, gap: u64) -> (u64, u64, Seq<(u64, u64)>, nat)
    decreases rest.len(),
{
    if rest.len() > 0 && seg + gap < rest.last().0 {
        let r = skip_ahead(rest[0].0, rest[0].1, rest.drop_first(), gap);
        (r.0, r.1, r.2, r.3 + 1)
    } else {
        (seg, ts, rest, 0)
    }
}

/// The segment that a tick plays from a non-empty buffer: the oldest one,
/// unless the buffer holds a segment more than `buffer_size` ahead of it,
/// in which case playback skips to the middle of the buffer (to within
/// `buffer_size / 2` of the newest segment). Playback computes the test as
/// `oldest < newest - buffer_size` on `u64`, which `advance_ok` keeps from
/// going below zero; there it is the same as `oldest + buffer_size < newest`.
pub open spec fn play_choice(buffer: Seq<(u64, u64)>, buffer_size: u64) -> (u64, u64, Seq<(u64, u64)>, nat) {
    let rest = buffer.drop_first();
    if rest.len() > 0 && buffer[0].0 + buffer_size < rest.last().0 {
        skip_ahead(buffer[0].0, buffer[0].1, rest, buffer_size / 2)
    } else {
        (buffer[0].0, buffer[0].1, rest, 0)
    }
}

/// What one tick of playback needs to proceed without overflow: a counter
/// of stopped ticks that can grow; when a segment is played with others
/// buffered behind it, a newest segment number from which `buffer_size` can
/// be subtracted; and a segment produced no later than now.
pub open spec fn advance_ok(v: VideoView, now: u64) -> bool {
    &&& (v.buffering > 0 || v.buffer.len() == 0) ==> v.stopped < u64::MAX
    &&& (v.buffering == 0 && v.buffer.len() > 1) ==> v.buffer.last().0 >= v.buffer_size
    &&& (v.buffering == 0 && v.buffer.len() > 0) ==> play_choice(v.buffer, v.buffer_size).1 <= now
}

/// The player and the report after one tick of playback at `now`: while
/// rebuffering, or when the buffer is empty (which starts two ticks of
/// rebuffering), playback stops; otherwise the segment chosen by
/// `play_choice` is played and the fetches of older segments are dropped.
pub open spec fn advance_model(v: VideoView, now: u64) -> (VideoView, StreamReport) {
    let gossips = v.gossips.len() as u64;
    let fetch = v.fetching.len() as u64;
    let buffer = v.buffer.len() as u64;
    if v.buffering > 0 {
        let stopped = (v.stopped + 1) as u64;
        (
            VideoView { buffering: (v.buffering - 1) as u64, stopped, ..v },
            StreamReport { gossips, fetch, buffer, stop: stopped, latency: None, skip: None },
        )
    } else if v.buffer.len() == 0 {
        let stopped = (v.stopped + 1) as u64;
        (
            VideoView { stopped, buffering: 2, ..v },
            StreamReport { gossips, fetch, buffer, stop: stopped, latency: None, skip: None },
        )
    } else {
        let c = play_choice(v.buffer, v.buffer_size);
        (
            VideoView {
                buffer: c.2,
                stopped: 0,
                current_segment: c.0,
                fetching: v.fetching.filter(|x: u64| x >= c.0),
                ..v
            },
            StreamReport {
                gossips,
                fetch,
                buffer,
                stop: 0,
                latency: Some((now - c.1) as u64),
                skip: Some(c.3 as u64),
            },
        )
    }
}

impl VideoStream {
    /// Whether the newest buffered segment is more than `gap` segments ahead
    /// of `seg`, computed as `seg < newest - gap`.
    fn lags_behind(&self, seg: u64, gap: u64) -> (out: bool)
        requires
            self.segments@.len() == self.timestamps@.len(),
            self@.buffer.len() > 0 ==> self@.buffer.last().0 >= gap,
        ensures
            out == (self@.buffer.len() > 0 && seg + gap < self@.buffer.last().0),
    {
        let n = self.segments.len();
        if n == 0 {
            return false;
        }
        let back = self.segments[n - 1];
        proof {
            assert(self@.buffer.last() == (self.segments@[n - 1], self.timestamps@[n - 1]));
        }
        seg < back - gap
    }

    /// Drops the fetches of segments older than `min`.
    fn drop_fetches_below(&mut self, min: u64)
        requires
            old(self).wf(),
        ensures
            final(self).wf(),
            final(self)@ == (VideoView { fetching: old(self)@.fetching.filter(|x: u64| x >= min), ..old(self)@ }),
    {
        let ghost f = self.fetching@;
        let mut kept: HashSet<u64> = HashSet::new();
        for index in it: self.fetching.iter()
            invariant
                f == self.fetching@,
                it.seq().unref().to_set() == f,
                forall|x: u64|
                    #[trigger] kept@.contains(x) <==> (x >= min && exists|k: int|
                        0 <= k < it.index() && *it.seq()[k] == x),
                it.index() == it.seq().len() ==> kept@ == f.filter(|x: u64| x >= min),
        {
            assert(*index == *it.seq()[it.index() as int]);
            if *index >= min {
                kept.insert(*index);
            }
            assert(forall|k: int|
                #![trigger it.seq().unref()[k]]
                #![trigger it.seq()[k]]
                0 <= k < it.seq().len() ==> it.seq().unref()[k] == *it.seq()[k]);
            assert forall|x: u64|
                it.index() + 1 == it.seq().len() implies #[trigger] kept@.contains(x) == f.filter(
                    |y: u64| y >= min,
                ).contains(x) by {
                assert(it.seq().unref().to_set().contains(x) == it.seq().unref().contains(x));
                if x >= min && f.contains(x) {
                    assert(it.seq().unref().contains(x));
                    assert(exists|k: int| 0 <= k < it.seq().len() && it.seq().unref()[k] == x);
                    if x != *index {
                        assert(exists|k: int| 0 <= k < it.index() && *it.seq()[k] == x);
                    }
                }
                if kept@.contains(x) {
                    if x != *index {
                        assert(exists|k: int| 0 <= k < it.index() && *it.seq()[k] == x);
                    } else {
                        assert(it.seq().unref()[it.index() as int] == x);
                    }
                    assert(exists|k: int| 0 <= k < it.seq().len() && it.seq().unref()[k] == x);
                    assert(it.seq().unref().contains(x));
                }
            }
            assert(it.index() + 1 == it.seq().len() ==> kept@ =~= f.filter(|x: u64| x >= min));
        }
        self.fetching = kept;
    }

    /// One tick of playback at `now` (in milliseconds): plays the next
    /// segment, or stops to rebuffer, and returns the measurements.
    pub fn advance_stream(&mut self, now: u64) -> (report: StreamReport)
        requires
            old(self).wf(),
            advance_ok(old(self)@, now),
        ensures
            final(self).wf(),
            (final(self)@, report) == advance_model(old(self)@, now),
    {
        let gossips = self.gossips.len() as u64;
        let fetch = self.fetching.len() as u64;
        let buffer = self.segments.len() as u64;
        if self.buffering > 0 {
            self.buffering = self.buffering - 1;
            self.stopped = self.stopped + 1;
            return StreamReport { gossips, fetch, buffer, stop: self.stopped, latency: None, skip: None };
        }
        if self.segments.len() == 0 {
            self.stopped = self.stopped + 1;
            self.buffering = 2;
            return StreamReport { gossips, fetch, buffer, stop: self.stopped, latency: None, skip: None };
        }
        let ghost v0 = self@;
        let ghost b0 = self@.buffer;
        let ghost choice = play_choice(b0, v0.buffer_size);
        proof {
            assert(b0[0] == (self.segments@[0], self.timestamps@[0]));
        }
        let mut segment_idx = self.segments.pop_front().unwrap();
        let mut timestamp = self.timestamps.pop_front().unwrap();
        proof {
            assert(self@.buffer =~= b0.drop_first());
            assert(self@ == (VideoView { buffer: self@.buffer, ..v0 }));
            if self@.buffer.len() > 0 {
                assert(self@.buffer.last() == b0.last());
            }
        }
        let mut skipped: u64 = 0;
        if self.lags_behind(segment_idx, self.buffer_size) {
            let half = self.buffer_size / 2;
            let ghost rest0 = self@.buffer;
            while self.lags_behind(segment_idx, half)
                invariant
                    self.wf(),
                    self@ == (VideoView { buffer: self@.buffer, ..v0 }),
                    self.segments@.len() == self.timestamps@.len(),
                    self@.buffer.len() <= rest0.len(),
                    skipped <= rest0.len() - self@.buffer.len(),
                    rest0.len() < b0.len(),
                    b0.len() <= usize::MAX,
                    choice == ({
                        let r = skip_ahead(segment_idx, timestamp, self@.buffer, half);
                        (r.0, r.1, r.2, (r.3 + skipped) as nat)
                    }),
                    half == v0.buffer_size / 2,
                    self.buffer_size == v0.buffer_size,
                    self@.buffer.len() > 0 ==> self@.buffer.last().0 >= v0.buffer_size,
                decreases self@.buffer.len(),
            {
                let ghost cur = self@.buffer;
                proof {
                    assert(cur[0] == (self.segments@[0], self.timestamps@[0]));
                }
                segment_idx = self.segments.pop_front().unwrap();
                timestamp = self.timestamps.pop_front().unwrap();
                skipped = skipped + 1;
                proof {
                    assert(self@.buffer =~= cur.drop_first());
                    if self@.buffer.len() > 0 {
                        assert(self@.buffer.last() == cur.last());
                    }
                }
            }
        }
        proof {
            assert(choice == (segment_idx, timestamp, self@.buffer, skipped as nat));
        }
        let latency = now - timestamp;
        self.stopped = 0;
        self.current_segment = segment_idx;
        self.drop_fetches_below(segment_idx);
        StreamReport { gossips, fetch, buffer, stop: 0, latency: Some(latency), skip: Some(skipped) }
    }
}

/// The player after the fetch step of a tick: the oldest announcement, if
/// any, leaves the queue and its segment is being fetched.
pub open spec fn fetch_model(v: VideoView) -> (VideoView, Option<MessageView>) {
    if v.gossips.len() > 0 {
        (
            VideoView {
                gossips: v.gossips.drop_first(),
                fetching: v.fetching.insert(v.gossips[0].0),
                ..v
            },
            Some(v.gossips[0]),
        )
    } else {
        (v, None)
    }
}

/// The number of buffer places that are neither filled nor being fetched.
pub open spec fn buffer_space_spec(v: VideoView) -> int {
    let size = v.buffer_size as usize as int;
    let used = v.buffer.len() + v.fetching.len();
    if used >= size {
        0
    } else {
        size - used
    }
}

impl VideoStream {
    /// One tick of the player at `now` (in milliseconds): the oldest
    /// announcement, if any, is handed out to be fetched, then playback
    /// advances.
    pub fn play(&mut self, now: u64) -> (step: PlayStep)
        requires
            old(self).wf(),
            advance_ok(old(self)@, now),
        ensures
            final(self).wf(),
            match step.fetch {
                Some(m) => fetch_model(old(self)@).1 == Some(m@),
                None => fetch_model(old(self)@).1 is None,
            },
            (final(self)@, step.report) == advance_model(fetch_model(old(self)@).0, now),
    {
        let ghost v0 = self@;
        let fetch = if self.gossips.len() > 0 {
            let msg = self.gossips.pop_front().unwrap();
            let count = msg.count;
            self.fetching.insert(count);
            proof {
                assert(message_views(self.gossips@) =~= v0.gossips.drop_first());
                assert(v0.gossips[0] == msg@);
                assert(self@ == fetch_model(v0).0);
            }
            Some(msg)
        } else {
            None
        };
        let report = self.advance_stream(now);
        PlayStep { fetch, report }
    }

    /// The number of buffer places that are neither filled nor being fetched.
    pub fn _buffer_space(&self) -> (out: usize)
        requires
            self@.buffer.len() + self@.fetching.len() <= usize::MAX,
        ensures
            out == buffer_space_spec(self@),
    {
        (self.buffer_size as usize).saturating_sub(self.segments.len() + self.fetching.len())
    }
}

proof fn lemma_skip_ahead(seg: u64, ts: u64, rest: Seq<(u64, u64)>, gap: u64)
    ensures
        skip_ahead(seg, ts, rest, gap).2.len() + skip_ahead(seg, ts, rest, gap).3 == rest.len(),
        skip_ahead(seg, ts, rest, gap).2.len() == 0 || skip_ahead(seg, ts, rest, gap).0 + gap
            >= skip_ahead(seg, ts, rest, gap).2.last().0,
    decreases rest.len(),
{
    if rest.len() > 0 && seg + gap < rest.last().0 {
        let t = rest.drop_first();
        lemma_skip_ahead(rest[0].0, rest[0].1, t, gap);
        if t.len() > 0 {
            assert(t.last() == rest.last());
        }
    }
}

/// The buffer of a player is always ordered by segment number.
pub proof fn law_buffer_sorted(stream: &VideoStream)
    requires
        stream.wf(),
    ensures
        buffer_sorted(stream@.buffer),
{
}

/// After a tick that plays a segment, no segment older than the one played
/// is still being fetched.
pub proof fn law_no_stale_fetches(v: VideoView, now: u64)
    requires
        v.buffering == 0,
        v.buffer.len() > 0,
    ensures
        forall|x: u64|
            #[trigger] advance_model(v, now).0.fetching.contains(x) ==> x >= advance_model(v, now).0.current_segment,
{
}

/// A tick that plays consumes the segment played and the segments skipped,
/// and after a skip the segment played is within half a buffer of the newest
/// segment still buffered.
pub proof fn law_play_consumes(v: VideoView, now: u64)
    requires
        v.buffering == 0,
        v.buffer.len() > 0,
    ensures
        advance_model(v, now).0.buffer.len() + play_choice(v.buffer, v.buffer_size).3 + 1 == v.buffer.len(),
        play_choice(v.buffer, v.buffer_size).3 > 0 ==> (advance_model(v, now).0.buffer.len() == 0
            || advance_model(v, now).0.current_segment + v.buffer_size / 2
                >= advance_model(v, now).0.buffer.last().0),
        advance_model(v, now).1.stop == 0,
{
    let rest = v.buffer.drop_first();
    lemma_skip_ahead(v.buffer[0].0, v.buffer[0].1, rest, v.buffer_size / 2);
}

/// When the buffer runs dry, playback stops for that tick and for the next
/// two, counting the stopped ticks, and then rebuffering is over.
pub proof fn law_rebuffer(v: VideoView, now1: u64, now2: u64, now3: u64)
    requires
        v.buffering == 0,
        v.buffer.len() == 0,
        v.stopped + 3 <= u64::MAX,
    ensures
        advance_model(v, now1).1.stop == v.stopped + 1,
        advance_model(v, now1).0.buffering == 2,
        advance_model(advance_model(v, now1).0, now2).1.stop == v.stopped + 2,
        advance_model(advance_model(advance_model(v, now1).0, now2).0, now3).1.stop == v.stopped + 3,
        advance_model(advance_model(advance_model(v, now1).0, now2).0, now3).0.buffering == 0,
{
}

/// Whether an arrival at `receive_time` of something produced at
/// `timestamp`, after one at `last`, can be measured without overflow: the
/// latency is not negative, and, after a previous arrival, the segment
/// length in milliseconds fits a `usize` and the jitter an `i64`.
pub open spec fn arrival_ok(timestamp: u64, receive_time: u64, last: u64, segment_length: usize) -> bool {
    &&& timestamp <= receive_time <= i64::MAX
    &&& last != 0 ==> {
        &&& segment_length * 1000 <= usize::MAX
        &&& i64::MIN <= jitter_spec(receive_time as int, last as int, segment_length) <= i64::MAX
    }
}

/// Skipping ahead, followed on the indices of the buffer: the index that
/// `skip_ahead` stops at when it starts from index `i`.
proof fn lemma_skip_index(b: Seq<(u64, u64)>, i: int, gap: u64)
    requires
        0 <= i < b.len(),
    ensures
        skip_ahead(b[i].0, b[i].1, b.subrange(i + 1, b.len() as int), gap).1 == b[skip_stop(b, i, gap)].1,
        i <= skip_stop(b, i, gap) < b.len(),
    decreases b.len() - i,
{
    let rest = b.subrange(i + 1, b.len() as int);
    if rest.len() > 0 && b[i].0 + gap < rest.last().0 {
        assert(rest[0] == b[i + 1]);
        assert(rest.drop_first() =~= b.subrange(i + 2, b.len() as int));
        assert(rest.last() == b.last());
        lemma_skip_index(b, i + 1, gap);
    }
}

/// The index of the buffer that skipping ahead from index `i` stops at.
pub open spec fn skip_stop(b: Seq<(u64, u64)>, i: int, gap: u64) -> int
    decreases b.len() - i,
{
    if 0 <= i < b.len() - 1 && b[i].0 + gap < b.last().0 {
        skip_stop(b, i + 1, gap)
    } else {
        i
    }
}

impl VideoStream {
    /// Whether an announcement produced at `timestamp` and received at
    /// `receive_time` can be queued (see `add_gossip`).
    pub fn gossip_arrival_ok(&self, timestamp: u64, receive_time: u64) -> (ok: bool)
        requires
            self.wf(),
        ensures
            ok == arrival_ok(timestamp, receive_time, self@.last_gossip_time, self@.params.segment_length),
    {
        self.arrival_check(timestamp, receive_time, self.last_gossip_time)
    }

    /// Whether a segment produced at `timestamp` and fetched at
    /// `receive_time` can be stored (see `add_segment`).
    pub fn segment_arrival_ok(&self, timestamp: u64, receive_time: u64) -> (ok: bool)
        requires
            self.wf(),
        ensures
            ok == arrival_ok(timestamp, receive_time, self@.last_segment_time, self@.params.segment_length),
    {
        self.arrival_check(timestamp, receive_time, self.last_segment_time)
    }

    fn arrival_check(&self, timestamp: u64, receive_time: u64, last: u64) -> (ok: bool)
        requires
            self.wf(),
            last <= i64::MAX,
        ensures
            ok == arrival_ok(timestamp, receive_time, last, self@.params.segment_length),
    {
        if !(timestamp <= receive_time && receive_time <= i64::MAX as u64) {
            return false;
        }
        if last == 0 {
            return true;
        }
        let product = match self.params.segment_length.checked_mul(1000) {
            Some(p) => p,
            None => return false,
        };
        let period = product as i64;
        let jitter: i128 = (receive_time as i128 - last as i128) - period as i128;
        i64::MIN as i128 <= jitter && jitter <= i64::MAX as i128
    }

    /// Whether a tick of playback at `now` can proceed (see `advance_ok`).
    pub fn can_advance(&self, now: u64) -> (ok: bool)
        requires
            self.wf(),
        ensures
            ok == advance_ok(self@, now),
    {
        let n = self.segments.len();
        if self.buffering > 0 || n == 0 {
            return self.stopped < u64::MAX;
        }
        let ghost b = self@.buffer;
        let back = self.segments[n - 1];
        let mut i: usize = 0;
        proof {
            assert(b.last() == (self.segments@[n - 1], self.timestamps@[n - 1]));
            assert(b[0] == (self.segments@[0], self.timestamps@[0]));
            assert(b.drop_first() =~= b.subrange(1, b.len() as int));
        }
        if n > 1 && back < self.buffer_size {
            return false;
        }
        if n > 1 && self.segments[0] < back - self.buffer_size {
            let half = self.buffer_size / 2;
            while i + 1 < n && self.segments[i] < back - half
                invariant
                    b == self@.buffer,
                    n == b.len(),
                    n == self.segments@.len(),
                    n == self.timestamps@.len(),
                    back == b.last().0,
                    half == self.buffer_size / 2,
                    back >= self.buffer_size,
                    0 <= i < n,
                    skip_stop(b, 0, half) == skip_stop(b, i as int, half),
                decreases n - i,
            {
                assert(b[i as int] == (self.segments@[i as int], self.timestamps@[i as int]));
                i = i + 1;
            }
            proof {
                assert(b[i as int] == (self.segments@[i as int], self.timestamps@[i as int]));
                lemma_skip_index(b, 0, half);
            }
        }
        proof {
            assert(b[i as int] == (self.segments@[i as int], self.timestamps@[i as int]));
        }
        self.timestamps[i] <= now
    }
}

/// What a tick does to the fetches: a tick that plays a segment keeps the
/// fetches of every segment not older than the one played and drops exactly
/// the older ones; a tick that stops keeps every fetch.
pub proof fn law_tick_fetches(v: VideoView, now: u64)
    ensures
        (v.buffering == 0 && v.buffer.len() > 0) ==> forall|x: u64|
            #[trigger] advance_model(v, now).0.fetching.contains(x) <==> (v.fetching.contains(x) && x
                >= advance_model(v, now).0.current_segment),
        (v.buffering > 0 || v.buffer.len() == 0) ==> advance_model(v, now).0.fetching == v.fetching,
{
}

/// Announcements are handed out in the order they arrived: a tick hands out
/// the oldest queued announcement, starts fetching its segment and leaves the
/// others queued in order; an announcement queued behind others does not
/// change what the next tick hands out, and one queued alone is handed out
/// next.
pub proof fn law_fetch_oldest_first(v: VideoView, m: MessageView)
    ensures
        v.gossips.len() > 0 ==> {
            &&& fetch_model(v).1 == Some(v.gossips[0])
            &&& fetch_model(v).0.gossips == v.gossips.drop_first()
            &&& fetch_model(v).0.fetching == v.fetching.insert(v.gossips[0].0)
        },
        v.gossips.len() == 0 ==> fetch_model(v) == (v, None::<MessageView>),
        v.gossips.len() > 0 ==> fetch_model(VideoView { gossips: v.gossips.push(m), ..v }).1 == fetch_model(v).1,
        v.gossips.len() == 0 ==> fetch_model(VideoView { gossips: v.gossips.push(m), ..v }).1 == Some(m),
{
    let w = VideoView { gossips: v.gossips.push(m), ..v };
    if v.gossips.len() > 0 {
        assert(w.gossips[0] == v.gossips[0]);
    } else {
        assert(w.gossips[0] == m);
    }
}

} // verus!
