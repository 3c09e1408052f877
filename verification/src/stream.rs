//! One sliding window over a stream, with a report on every slide.
//!
//! The buffer holds the samples of the last `window_size_ms` milliseconds
//! in order of arrival. Each call hands back the samples that fell out,
//! oldest first, so that a caller can retract them from running
//! statistics, and a stamp whenever a slide step has passed.

use crate::window::{Sample, WindowStamp};
use std::collections::VecDeque;
use vstd::prelude::*;

verus! {

/// The state of a stream aggregator as contracts see it.
pub struct StreamView {
    pub window_size_ms: i64,
    pub slide_size_ms: i64,
    /// The samples held, oldest first.
    pub buffer: Seq<Sample>,
    /// The timestamp of the last report; 0 before the first sample.
    pub last_emit_time: i64,
}

/// The length of the longest prefix whose timestamps all lie below the
/// cutoff.
pub open spec fn stale_prefix(buffer: Seq<Sample>, cutoff: int) -> nat
    decreases buffer.len(),
{
    if buffer.len() > 0 && buffer[0].0 < cutoff {
        1 + stale_prefix(buffer.skip(1), cutoff)
    } else {
        0
    }
}

/// Timestamps never decrease from front to back.
pub open spec fn in_time_order(buffer: Seq<Sample>) -> bool {
    forall|i: int, j: int|
        0 <= i <= j < buffer.len() ==> (#[trigger] buffer[i]).0 <= (#[trigger] buffer[j]).0
}

impl StreamView {
    /// Samples older than this leave the front of the buffer.
    pub open spec fn cutoff(self, timestamp: i64) -> int {
        timestamp - self.window_size_ms
    }

    /// The buffer with the new sample at its back.
    pub open spec fn grown(self, timestamp: i64, value: u64) -> Seq<Sample> {
        self.buffer.push((timestamp, value))
    }

    /// How many samples leave the front when the sample arrives.
    pub open spec fn evicted_count(self, timestamp: i64, value: u64) -> nat {
        stale_prefix(self.grown(timestamp, value), self.cutoff(timestamp))
    }

    /// The time of the last report as this call sees it: the first sample
    /// stands in where there was none.
    pub open spec fn emit_base(self, timestamp: i64) -> i64 {
        if self.last_emit_time == 0 {
            timestamp
        } else {
            self.last_emit_time
        }
    }

    /// Whether this call reports: a slide step has passed since the last
    /// report.
    pub open spec fn emits(self, timestamp: i64) -> bool {
        timestamp - self.emit_base(timestamp) >= self.slide_size_ms
    }

    /// The state after the sample arrived.
    pub open spec fn step(self, timestamp: i64, value: u64) -> StreamView {
        StreamView {
            window_size_ms: self.window_size_ms,
            slide_size_ms: self.slide_size_ms,
            buffer: self.grown(timestamp, value).skip(
                self.evicted_count(timestamp, value) as int,
            ),
            last_emit_time: if self.emits(timestamp) {
                timestamp
            } else {
                self.emit_base(timestamp)
            },
        }
    }
}

/// What one call of `process` did.
#[derive(Debug, Clone, PartialEq, Eq)]
pub struct StreamStep {
    /// The samples that left the buffer, oldest first.
    pub evicted: Vec<Sample>,
    /// The stamp of the window `[timestamp - size, timestamp]`, where a
    /// slide step has passed.
    pub emitted: Option<WindowStamp>,
}

/// The stale prefix is never longer than the buffer; the samples in it lie
/// below the cutoff, and the sample behind it, if there is one, does not.
pub proof fn lemma_stale_prefix(buffer: Seq<Sample>, cutoff: int)
    ensures
        stale_prefix(buffer, cutoff) <= buffer.len(),
        forall|i: int| 0 <= i < stale_prefix(buffer, cutoff) ==> (#[trigger] buffer[i]).0 < cutoff,
        stale_prefix(buffer, cutoff) < buffer.len() ==> buffer[stale_prefix(buffer, cutoff) as int].0
            >= cutoff,
    decreases buffer.len(),
{
    if buffer.len() > 0 && buffer[0].0 < cutoff {
        let rest = buffer.skip(1);
        lemma_stale_prefix(rest, cutoff);
        let n = stale_prefix(rest, cutoff) as int;
        assert forall|i: int| 0 <= i < n + 1 implies (#[trigger] buffer[i]).0 < cutoff by {
            if i > 0 {
                assert(buffer[i] == rest[i - 1]);
            }
        }
        if n < rest.len() {
            assert(buffer[n + 1] == rest[n]);
        }
    }
}

/// Where samples arrive in time order, the buffer stays in time order and
/// holds nothing older than the cutoff.
pub proof fn lemma_step_keeps_recent(v: StreamView, timestamp: i64, value: u64)
    requires
        in_time_order(v.buffer),
        v.buffer.len() > 0 ==> v.buffer.last().0 <= timestamp,
    ensures
        in_time_order(v.step(timestamp, value).buffer),
        forall|i: int|
            0 <= i < v.step(timestamp, value).buffer.len() ==> (#[trigger] v.step(
                timestamp,
                value,
            ).buffer[i]).0 >= v.cutoff(timestamp),
{
    let grown = v.grown(timestamp, value);
    let cutoff = v.cutoff(timestamp);
    lemma_stale_prefix(grown, cutoff);
    let gone = v.evicted_count(timestamp, value) as int;
    let kept = v.step(timestamp, value).buffer;
    assert forall|i: int, j: int| 0 <= i <= j < grown.len() implies (#[trigger] grown[i]).0 <= (
    #[trigger] grown[j]).0 by {
        if j < v.buffer.len() {
            assert(grown[i] == v.buffer[i] && grown[j] == v.buffer[j]);
        } else if i < v.buffer.len() {
            assert(grown[i] == v.buffer[i]);
            assert(v.buffer[i].0 <= v.buffer[v.buffer.len() - 1].0);
        }
    }
    assert forall|i: int, j: int| 0 <= i <= j < kept.len() implies (#[trigger] kept[i]).0 <= (
    #[trigger] kept[j]).0 by {
        assert(kept[i] == grown[i + gone] && kept[j] == grown[j + gone]);
    }
    assert forall|i: int| 0 <= i < kept.len() implies (#[trigger] kept[i]).0 >= cutoff by {
        assert(kept[i] == grown[i + gone]);
        assert(grown[gone].0 <= grown[i + gone].0);
    }
}

/// A single sliding window that reports on every slide step.
pub struct StreamAggregator {
    window_size_ms: i64,
    slide_size_ms: i64,
    buffer: VecDeque<Sample>,
    last_emit_time: i64,
}

impl View for StreamAggregator {
    type V = StreamView;

    closed spec fn view(&self) -> StreamView {
        StreamView {
            window_size_ms: self.window_size_ms,
            slide_size_ms: self.slide_size_ms,
            buffer: self.buffer@,
            last_emit_time: self.last_emit_time,
        }
    }
}

impl StreamAggregator {
    /// An aggregator with an empty buffer.
    pub fn new(window_size_ms: i64, slide_size_ms: i64) -> (r: Self)
        ensures
            r@ == (StreamView {
                window_size_ms,
                slide_size_ms,
                buffer: Seq::<Sample>::empty(),
                last_emit_time: 0,
            }),
    {
        StreamAggregator { window_size_ms, slide_size_ms, buffer: VecDeque::new(), last_emit_time: 0 }
    }

    /// Whether `process` may be called with this timestamp: the start of
    /// the window that it would report is a 64-bit value.
    pub fn can_process(&self, timestamp: i64) -> (r: bool)
        ensures
            r == (i64::MIN <= self@.cutoff(timestamp) <= i64::MAX),
    {
        let cutoff: i128 = (timestamp as i128) - (self.window_size_ms as i128);
        (i64::MIN as i128) <= cutoff && cutoff <= (i64::MAX as i128)
    }

    /// Takes one sample: puts it at the back of the buffer, removes from
    /// the front every sample older than the window, and reports where a
    /// slide step has passed since the last report. The first sample sets
    /// the time from which slide steps are counted.
    pub fn process(&mut self, timestamp: i64, value: u64) -> (r: StreamStep)
        requires
            i64::MIN <= old(self)@.cutoff(timestamp) <= i64::MAX,
        ensures
            final(self)@ == old(self)@.step(timestamp, value),
            r.evicted@ == old(self)@.grown(timestamp, value).take(
                old(self)@.evicted_count(timestamp, value) as int,
            ),
            r.emitted == if old(self)@.emits(timestamp) {
                Some(
                    WindowStamp {
                        window_start: old(self)@.cutoff(timestamp) as i64,
                        window_end: timestamp,
                        count: final(self)@.buffer.len() as usize,
                    },
                )
            } else {
                None
            },
    {
        let ghost before = self@;
        let ghost grown = before.grown(timestamp, value);
        self.buffer.push_back((timestamp, value));
        let cutoff: i64 = timestamp - self.window_size_ms;
        let mut evicted: Vec<Sample> = Vec::new();
        proof {
            assert(grown.skip(0) =~= grown);
            assert(grown.take(0) =~= evicted@);
        }
        while self.buffer.len() > 0 && self.buffer[0].0 < cutoff
            invariant
                self.buffer@ == grown.skip(evicted@.len() as int),
                evicted@.len() <= grown.len(),
                evicted@ == grown.take(evicted@.len() as int),
                evicted@.len() + stale_prefix(self.buffer@, cutoff as int) == stale_prefix(
                    grown,
                    cutoff as int,
                ),
                self.window_size_ms == before.window_size_ms,
                self.slide_size_ms == before.slide_size_ms,
                self.last_emit_time == before.last_emit_time,
            decreases self.buffer@.len(),
        {
            let ghost held = self.buffer@;
            let ghost n = evicted@.len() as int;
            let sample = self.buffer.pop_front().unwrap();
            evicted.push(sample);
            proof {
                assert(self.buffer@ =~= held.skip(1));
                assert(self.buffer@ =~= grown.skip(n + 1));
                assert(evicted@ =~= grown.take(n + 1));
            }
        }
        if self.last_emit_time == 0 {
            self.last_emit_time = timestamp;
        }
        let emitted = if (timestamp as i128) - (self.last_emit_time as i128) >= (
        self.slide_size_ms as i128) {
            self.last_emit_time = timestamp;
            Some(WindowStamp { window_start: cutoff, window_end: timestamp, count: self.buffer.len() })
        } else {
            None
        };
        StreamStep { evicted, emitted }
    }

    /// The stamp of the buffer as it stands, with no bounds; the buffer is
    /// then emptied.
    pub fn flush(&mut self) -> (r: WindowStamp)
        ensures
            r == (WindowStamp {
                window_start: 0,
                window_end: 0,
                count: old(self)@.buffer.len() as usize,
            }),
            final(self)@ == (StreamView { buffer: Seq::<Sample>::empty(), ..old(self)@ }),
    {
        let count = self.buffer.len();
        self.buffer.clear();
        WindowStamp { window_start: 0, window_end: 0, count }
    }

    /// The number of samples held.
    pub fn buffer_size(&self) -> (r: usize)
        ensures
            r == self@.buffer.len(),
    {
        self.buffer.len()
    }
}

} // verus!
