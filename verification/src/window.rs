//! Routing of timestamps into time windows.
//!
//! The aggregator keeps the windows of one stream in ascending order of
//! start. A sample is a timestamp in milliseconds and an opaque 64-bit
//! pattern; what the pattern means, and the statistics taken over it, are
//! the caller's. Each admission reports where the sample went and which
//! windows left, so that a caller can keep per-window state in step.

use crate::config::{WindowConfig, WindowType};
use crate::error::AggregatorError;
use vstd::arithmetic::div_mod::*;
use vstd::arithmetic::mul::*;
use vstd::prelude::*;

verus! {

/// One sample: its timestamp and its pattern.
pub type Sample = (i64, u64);

/// A window as contracts see it.
pub struct WindowView {
    pub start: int,
    pub end: int,
    pub samples: Seq<Sample>,
}

/// The bounds of a window and the number of samples in it.
#[derive(Debug, Clone, Copy, PartialEq, Eq, Structural)]
pub struct WindowStamp {
    pub window_start: i64,
    pub window_end: i64,
    pub count: usize,
}

/// The stamp of a window.
pub open spec fn stamp_of(w: WindowView) -> WindowStamp {
    WindowStamp {
        window_start: w.start as i64,
        window_end: w.end as i64,
        count: w.samples.len() as usize,
    }
}

/// Strictly ascending by start.
pub open spec fn ascending(ws: Seq<WindowView>) -> bool {
    forall|i: int, j: int| 0 <= i < j < ws.len() ==> (#[trigger] ws[i]).start < (#[trigger] ws[j]).start
}

/// How many windows start below the bound. In an ascending list these are
/// its first windows.
pub open spec fn position(ws: Seq<WindowView>, bound: int) -> nat
    decreases ws.len(),
{
    if ws.len() == 0 {
        0
    } else {
        position(ws.drop_last(), bound) + if ws.last().start < bound {
            1nat
        } else {
            0nat
        }
    }
}

/// The start of the step-aligned bucket that holds the timestamp: the
/// greatest multiple of `step` that is `<=` the timestamp.
pub open spec fn aligned_start(timestamp: int, step: int) -> int {
    timestamp - timestamp % step
}

/// The windows after a sample went to the window that starts at `start`:
/// that window gains the sample and takes the given end; where there was
/// none, one is made in its place in the order.
pub open spec fn upsert(ws: Seq<WindowView>, start: int, end: int, sample: Sample) -> Seq<
    WindowView,
> {
    let i = position(ws, start) as int;
    if i < ws.len() && ws[i].start == start {
        ws.update(i, WindowView { start, end, samples: ws[i].samples.push(sample) })
    } else {
        ws.insert(i, WindowView { start, end, samples: seq![sample] })
    }
}

/// The windows whose start lies in `[lo, hi)`.
pub open spec fn in_range(ws: Seq<WindowView>, lo: int, hi: int) -> Seq<WindowView> {
    let a = position(ws, lo) as int;
    let b = position(ws, hi) as int;
    if a <= b {
        ws.subrange(a, b)
    } else {
        ws.subrange(a, a)
    }
}

/// The state of an aggregator as contracts see it.
pub struct AggregatorView {
    pub config: WindowConfig,
    /// The windows, ascending by start.
    pub windows: Seq<WindowView>,
    /// The start of the running session; 0 while there is none.
    pub current_window_start: i64,
    /// The timestamp admitted last.
    pub last_timestamp: Option<i64>,
    /// The greatest start among the windows that were evicted.
    pub evicted_high: Option<i64>,
}

impl AggregatorView {
    /// The state of an aggregator that has seen no sample.
    pub open spec fn fresh(config: WindowConfig) -> AggregatorView {
        AggregatorView {
            config,
            windows: Seq::<WindowView>::empty(),
            current_window_start: 0,
            last_timestamp: None,
            evicted_high: None,
        }
    }

    /// Whether the sample can be offered: it would be dropped, or the
    /// bounds of its window are 64-bit values.
    pub open spec fn admits(self, timestamp: i64) -> bool {
        self.drops(timestamp) || self.representable(timestamp)
    }

    /// Whether `r` is the report of offering the sample in this state.
    pub open spec fn reports(self, timestamp: i64, value: u64, r: Admission) -> bool {
        match r {
            Admission::Dropped => self.drops(timestamp),
            Admission::Admitted { window_start, window_end, created, evicted } => {
                &&& !self.drops(timestamp)
                &&& window_start == self.route(timestamp)
                &&& window_end == self.end_for(timestamp)
                &&& created == !exists|i: int|
                    0 <= i < self.windows.len() && (#[trigger] self.windows[i]).start
                        == window_start
                &&& evicted@.len() == self.evicted_count(timestamp, value)
                &&& forall|j: int|
                    0 <= j < evicted@.len() ==> #[trigger] evicted@[j] == self.placed(
                        timestamp,
                        value,
                    )[j].start
            },
        }
    }

    /// The state after the samples were offered one after the other.
    pub open spec fn after(self, samples: Seq<Sample>) -> AggregatorView
        decreases samples.len(),
    {
        if samples.len() == 0 {
            self
        } else {
            self.after(samples.drop_last()).step(samples.last().0, samples.last().1)
        }
    }

    /// Whether the sample at `i` can be offered once those in front of it
    /// were.
    pub open spec fn admits_at(self, samples: Seq<Sample>, i: int) -> bool {
        self.after(samples.take(i)).admits(samples[i].0)
    }

    /// A sample older than the start of an evicted window is dropped.
    pub open spec fn drops(self, timestamp: i64) -> bool {
        match self.evicted_high {
            Some(h) => timestamp < h,
            None => false,
        }
    }

    /// Whether the running session takes the timestamp: there is a
    /// session, and the timestamp is no more than the gap behind the one
    /// admitted last.
    pub open spec fn continues_session(self, timestamp: i64) -> bool {
        &&& self.current_window_start != 0
        &&& self.last_timestamp is Some
        &&& self.config.session_gap_ms is Some
        &&& timestamp - self.last_timestamp->Some_0 <= self.config.session_gap_ms->Some_0
    }

    /// The start of the window that takes the timestamp.
    pub open spec fn route(self, timestamp: i64) -> int {
        match self.config.window_type {
            WindowType::Session => if self.continues_session(timestamp) {
                self.current_window_start as int
            } else {
                timestamp as int
            },
            _ => aligned_start(timestamp as int, self.config.step()),
        }
    }

    /// The end that the window takes on this admission: the timestamp for
    /// a session, else the start plus the window size.
    pub open spec fn end_for(self, timestamp: i64) -> int {
        match self.config.window_type {
            WindowType::Session => timestamp as int,
            _ => self.route(timestamp) + self.config.window_size_ms,
        }
    }

    /// Whether both bounds of the window for this timestamp are 64-bit
    /// values.
    pub open spec fn representable(self, timestamp: i64) -> bool {
        &&& i64::MIN <= self.route(timestamp)
        &&& self.end_for(timestamp) <= i64::MAX
    }

    /// Windows that start below this bound leave when the timestamp is
    /// admitted.
    pub open spec fn cutoff(self, timestamp: i64) -> int {
        timestamp - self.config.max_window_count * self.config.window_size_ms
    }

    /// The windows after the sample was placed, before any leaves.
    pub open spec fn placed(self, timestamp: i64, value: u64) -> Seq<WindowView> {
        upsert(self.windows, self.route(timestamp), self.end_for(timestamp), (timestamp, value))
    }

    /// How many windows leave when the sample is admitted.
    pub open spec fn evicted_count(self, timestamp: i64, value: u64) -> nat {
        position(self.placed(timestamp, value), self.cutoff(timestamp))
    }

    /// The state after the sample was offered.
    pub open spec fn step(self, timestamp: i64, value: u64) -> AggregatorView {
        if self.drops(timestamp) {
            self
        } else {
            let placed = self.placed(timestamp, value);
            let gone = self.evicted_count(timestamp, value) as int;
            AggregatorView {
                config: self.config,
                windows: placed.skip(gone),
                current_window_start: match self.config.window_type {
                    WindowType::Session => self.route(timestamp) as i64,
                    _ => self.current_window_start,
                },
                last_timestamp: Some(timestamp),
                evicted_high: if gone == 0 {
                    self.evicted_high
                } else {
                    match self.evicted_high {
                        Some(h) if h >= placed[gone - 1].start => Some(h),
                        _ => Some(placed[gone - 1].start as i64),
                    }
                },
            }
        }
    }
}

/// What became of a sample that was offered.
#[derive(Debug, Clone, PartialEq, Eq)]
pub enum Admission {
    /// The sample was older than an evicted window and left no trace.
    Dropped,
    /// The sample went into the window with these bounds.
    Admitted {
        window_start: i64,
        window_end: i64,
        /// Whether the window was made for this sample.
        created: bool,
        /// The starts of the windows that left, ascending.
        evicted: Vec<i64>,
    },
}

/// In an ascending list the windows below a bound form a prefix, and
/// `position` is its length.
pub proof fn lemma_position_is_prefix_length(ws: Seq<WindowView>, bound: int, i: int)
    requires
        0 <= i <= ws.len(),
        forall|j: int| 0 <= j < i ==> (#[trigger] ws[j]).start < bound,
        forall|j: int| i <= j < ws.len() ==> (#[trigger] ws[j]).start >= bound,
    ensures
        position(ws, bound) == i,
    decreases ws.len(),
{
    if ws.len() > 0 {
        let t = ws.drop_last();
        if i == ws.len() {
            lemma_position_is_prefix_length(t, bound, i - 1);
        } else {
            lemma_position_is_prefix_length(t, bound, i);
        }
    }
}

/// In an ascending list, the windows in front of `position` start below
/// the bound and the windows from `position` on do not.
pub proof fn lemma_position_splits(ws: Seq<WindowView>, bound: int)
    requires
        ascending(ws),
    ensures
        position(ws, bound) <= ws.len(),
        forall|j: int| 0 <= j < position(ws, bound) ==> (#[trigger] ws[j]).start < bound,
        forall|j: int| position(ws, bound) <= j < ws.len() ==> (#[trigger] ws[j]).start >= bound,
    decreases ws.len(),
{
    if ws.len() > 0 {
        let t = ws.drop_last();
        assert forall|i: int, j: int| 0 <= i < j < t.len() implies (#[trigger] t[i]).start < (
        #[trigger] t[j]).start by {
            assert(t[i] == ws[i] && t[j] == ws[j]);
        }
        lemma_position_splits(t, bound);
        let r = position(t, bound) as int;
        assert forall|j: int| 0 <= j < t.len() implies t[j] == ws[j] by {}
        if ws.last().start < bound {
            assert forall|j: int| 0 <= j < t.len() implies (#[trigger] ws[j]).start < bound by {
                assert(ws[j].start < ws[ws.len() - 1].start);
            }
            if r < t.len() {
                assert(t[r].start >= bound);
                assert(false);
            }
        }
    }
}

/// Placing a sample keeps the windows ascending.
pub proof fn lemma_upsert_ascending(ws: Seq<WindowView>, start: int, end: int, sample: Sample)
    requires
        ascending(ws),
    ensures
        ascending(upsert(ws, start, end, sample)),
{
    lemma_position_splits(ws, start);
    let i = position(ws, start) as int;
    let t = upsert(ws, start, end, sample);
    if i < ws.len() && ws[i].start == start {
        assert forall|a: int, b: int| 0 <= a < b < t.len() implies (#[trigger] t[a]).start < (
        #[trigger] t[b]).start by {
            assert(t[a].start == ws[a].start && t[b].start == ws[b].start);
        }
    } else {
        assert forall|a: int, b: int| 0 <= a < b < t.len() implies (#[trigger] t[a]).start < (
        #[trigger] t[b]).start by {
            if b == i {
                assert(t[a] == ws[a]);
            } else if a == i {
                assert(t[b] == ws[b - 1]);
            } else if b < i {
                assert(t[a] == ws[a] && t[b] == ws[b]);
            } else if a < i {
                assert(t[a] == ws[a] && t[b] == ws[b - 1]);
            } else {
                assert(t[a] == ws[a - 1] && t[b] == ws[b - 1]);
            }
        }
    }
}

/// In an ascending list, `in_range` holds the windows whose start lies in
/// `[lo, hi)` and no others.
pub proof fn lemma_in_range_members(ws: Seq<WindowView>, lo: int, hi: int)
    requires
        ascending(ws),
    ensures
        forall|w: WindowView|
            in_range(ws, lo, hi).contains(w) <==> ws.contains(w) && lo <= w.start < hi,
{
    lemma_position_splits(ws, lo);
    lemma_position_splits(ws, hi);
    let a = position(ws, lo) as int;
    let b = position(ws, hi) as int;
    let r = in_range(ws, lo, hi);
    assert forall|w: WindowView| r.contains(w) <==> ws.contains(w) && lo <= w.start < hi by {
        if r.contains(w) {
            let k = choose|k: int| 0 <= k < r.len() && r[k] == w;
            assert(ws[a + k] == w);
        }
        if ws.contains(w) && lo <= w.start < hi {
            let k = choose|k: int| 0 <= k < ws.len() && ws[k] == w;
            assert(a <= k < b);
            assert(r[k - a] == w);
        }
    }
}

/// Every window that is left after an admission starts at or after the
/// cutoff of the admitted timestamp.
pub proof fn lemma_step_respects_cutoff(v: AggregatorView, timestamp: i64, value: u64)
    requires
        ascending(v.windows),
        !v.drops(timestamp),
    ensures
        ascending(v.step(timestamp, value).windows),
        forall|i: int|
            0 <= i < v.step(timestamp, value).windows.len() ==> (#[trigger] v.step(
                timestamp,
                value,
            ).windows[i]).start >= v.cutoff(timestamp),
{
    let placed = v.placed(timestamp, value);
    lemma_upsert_ascending(
        v.windows,
        v.route(timestamp),
        v.end_for(timestamp),
        (timestamp, value),
    );
    lemma_position_splits(placed, v.cutoff(timestamp));
    let gone = v.evicted_count(timestamp, value) as int;
    let after = v.step(timestamp, value).windows;
    assert forall|i: int| 0 <= i < after.len() implies (#[trigger] after[i]).start >= v.cutoff(
        timestamp,
    ) by {
        assert(after[i] == placed[i + gone]);
    }
    assert forall|a: int, b: int| 0 <= a < b < after.len() implies (#[trigger] after[a]).start < (
    #[trigger] after[b]).start by {
        assert(after[a] == placed[a + gone] && after[b] == placed[b + gone]);
    }
}

/// Every window starts on a multiple of `size`, is `size` long, and holds
/// only samples whose timestamp lies inside it.
pub open spec fn partitions(ws: Seq<WindowView>, size: int) -> bool {
    forall|i: int|
        0 <= i < ws.len() ==> {
            &&& (#[trigger] ws[i]).start % size == 0
            &&& ws[i].end == ws[i].start + size
            &&& forall|k: int|
                0 <= k < ws[i].samples.len() ==> ws[i].start <= (#[trigger] ws[i].samples[k]).0
                    < ws[i].end
        }
}

/// Tumbling windows stay a partition of time: an admission leaves every
/// window aligned, of the configured size, and holding only its own
/// samples.
pub proof fn lemma_tumbling_step_partitions(v: AggregatorView, timestamp: i64, value: u64)
    requires
        v.config.is_valid(),
        v.config.window_type is Tumbling,
        ascending(v.windows),
        partitions(v.windows, v.config.window_size_ms as int),
    ensures
        partitions(v.step(timestamp, value).windows, v.config.window_size_ms as int),
{
    if !v.drops(timestamp) {
        let size = v.config.window_size_ms as int;
        let start = v.route(timestamp);
        let end = v.end_for(timestamp);
        let ws = v.windows;
        let placed = v.placed(timestamp, value);
        let gone = v.evicted_count(timestamp, value) as int;
        let after = v.step(timestamp, value).windows;
        lemma_position_splits(ws, start);
        lemma_upsert_ascending(ws, start, end, (timestamp, value));
        lemma_position_splits(placed, v.cutoff(timestamp));
        lemma_fundamental_div_mod(timestamp as int, size);
        lemma_mod_multiples_basic((timestamp as int) / size, size);
        assert(start == size * ((timestamp as int) / size));
        lemma_mul_is_commutative(size, (timestamp as int) / size);
        assert(start % size == 0);
        lemma_mod_bound(timestamp as int, size);
        let p = position(ws, start) as int;
        assert forall|i: int| 0 <= i < placed.len() implies {
            &&& (#[trigger] placed[i]).start % size == 0
            &&& placed[i].end == placed[i].start + size
            &&& forall|k: int|
                0 <= k < placed[i].samples.len() ==> placed[i].start <= (
                #[trigger] placed[i].samples[k]).0 < placed[i].end
        } by {
            if p < ws.len() && ws[p].start == start {
                if i != p {
                    assert(placed[i] == ws[i]);
                } else {
                    assert forall|k: int| 0 <= k < placed[i].samples.len() implies placed[i].start
                        <= (#[trigger] placed[i].samples[k]).0 < placed[i].end by {
                        if k < ws[p].samples.len() {
                            assert(placed[i].samples[k] == ws[p].samples[k]);
                        }
                    }
                }
            } else {
                if i < p {
                    assert(placed[i] == ws[i]);
                } else if i > p {
                    assert(placed[i] == ws[i - 1]);
                }
            }
        }
        assert forall|i: int| 0 <= i < after.len() implies {
            &&& (#[trigger] after[i]).start % size == 0
            &&& after[i].end == after[i].start + size
            &&& forall|k: int|
                0 <= k < after[i].samples.len() ==> after[i].start <= (
                #[trigger] after[i].samples[k]).0 < after[i].end
        } by {
            assert(after[i] == placed[i + gone]);
        }
    }
}

/// In a partition no two windows overlap: a window ends where the next
/// one starts, or before.
pub proof fn lemma_partition_disjoint(ws: Seq<WindowView>, size: int, i: int, j: int)
    requires
        size > 0,
        ascending(ws),
        partitions(ws, size),
        0 <= i < j < ws.len(),
    ensures
        ws[i].end <= ws[j].start,
{
    let a = ws[i].start;
    let b = ws[j].start;
    lemma_fundamental_div_mod(a, size);
    lemma_fundamental_div_mod(b, size);
    assert(b >= a + size) by (nonlinear_arith)
        requires
            a == size * (a / size),
            b == size * (b / size),
            a < b,
            size > 0,
    ;
}

/// In a partition the starts lie at least one window size apart, so `n`
/// windows span at least `n - 1` sizes.
pub proof fn lemma_partition_span(ws: Seq<WindowView>, size: int)
    requires
        size > 0,
        ascending(ws),
        partitions(ws, size),
        ws.len() > 0,
    ensures
        (ws.len() - 1) * size <= ws.last().start - ws[0].start,
    decreases ws.len(),
{
    if ws.len() > 1 {
        let t = ws.drop_last();
        assert forall|i: int, j: int| 0 <= i < j < t.len() implies (#[trigger] t[i]).start < (
        #[trigger] t[j]).start by {
            assert(t[i] == ws[i] && t[j] == ws[j]);
        }
        assert forall|i: int| 0 <= i < t.len() implies {
            &&& (#[trigger] t[i]).start % size == 0
            &&& t[i].end == t[i].start + size
            &&& forall|k: int|
                0 <= k < t[i].samples.len() ==> t[i].start <= (#[trigger] t[i].samples[k]).0
                    < t[i].end
        } by {
            assert(t[i] == ws[i]);
        }
        lemma_partition_span(t, size);
        lemma_partition_disjoint(ws, size, ws.len() - 2, ws.len() - 1);
        assert(t.last() == ws[ws.len() - 2]);
        assert(t[0] == ws[0]);
        assert(ws[ws.len() - 2].end == ws[ws.len() - 2].start + size);
        assert((ws.len() - 1) * size == (t.len() - 1) * size + size) by (nonlinear_arith)
            requires
                t.len() == ws.len() - 1,
        ;
    } else {
        assert((ws.len() - 1) * size == 0) by (nonlinear_arith)
            requires
                ws.len() == 1,
        ;
    }
}

/// Tumbling windows that all start between the cutoff of a timestamp and
/// the timestamp itself are at most one more than the configured count.
pub proof fn lemma_tumbling_window_count(v: AggregatorView, timestamp: i64)
    requires
        v.config.is_valid(),
        v.config.window_type is Tumbling,
        ascending(v.windows),
        partitions(v.windows, v.config.window_size_ms as int),
        forall|i: int|
            0 <= i < v.windows.len() ==> v.cutoff(timestamp) <= (#[trigger] v.windows[i]).start
                <= timestamp,
    ensures
        v.windows.len() <= v.config.max_window_count + 1,
{
    let ws = v.windows;
    let size = v.config.window_size_ms as int;
    let count = v.config.max_window_count as int;
    if ws.len() > 0 {
        lemma_partition_span(ws, size);
        assert(ws[0].start >= v.cutoff(timestamp));
        assert(ws[ws.len() - 1].start <= timestamp);
        assert(ws.len() - 1 <= count) by (nonlinear_arith)
            requires
                (ws.len() - 1) * size <= count * size,
                size > 0,
        ;
    }
}

/// The remainder of the floor division of `a` by a positive `b`.
pub fn floor_rem(a: i64, b: i64) -> (r: i64)
    requires
        b > 0,
    ensures
        r == a % b,
        0 <= r < b,
{
    if a >= 0 {
        a % b
    } else {
        let m: i64 = -(a + 1);
        let s: i64 = m % b;
        proof {
            lemma_fundamental_div_mod(m as int, b as int);
            let q = (m as int) / (b as int);
            assert(a == b * (-q - 1) + (b - 1 - s)) by (nonlinear_arith)
                requires
                    m == b * q + s,
                    m == -(a + 1),
            ;
            lemma_fundamental_div_mod_converse(a as int, b as int, -q - 1, b - 1 - s);
        }
        b - 1 - s
    }
}

/// One window: its bounds and the samples it took, in order of arrival.
#[derive(Debug, Clone, PartialEq, Eq)]
pub struct WindowBatch {
    pub window_start: i64,
    pub window_end: i64,
    pub samples: Vec<Sample>,
}

impl View for WindowBatch {
    type V = WindowView;

    open spec fn view(&self) -> WindowView {
        WindowView {
            start: self.window_start as int,
            end: self.window_end as int,
            samples: self.samples@,
        }
    }
}

/// The windows of a vector of batches.
pub open spec fn views(ws: Seq<WindowBatch>) -> Seq<WindowView> {
    ws.map_values(|w: WindowBatch| w@)
}

/// The number of windows that start below the bound.
fn count_below(ws: &Vec<WindowBatch>, bound: i128) -> (r: usize)
    requires
        ascending(views(ws@)),
    ensures
        r == position(views(ws@), bound as int),
        r <= ws@.len(),
{
    let mut i: usize = 0;
    while i < ws.len() && (ws[i].window_start as i128) < bound
        invariant
            i <= ws@.len(),
            forall|j: int| 0 <= j < i ==> (#[trigger] views(ws@)[j]).start < bound,
        decreases ws@.len() - i,
    {
        i += 1;
    }
    proof {
        let v = views(ws@);
        assert forall|j: int| i <= j < v.len() implies (#[trigger] v[j]).start >= bound by {
            assert(v[i as int].start >= bound);
            if j > i {
                assert(v[i as int].start < v[j].start);
            }
        }
        lemma_position_is_prefix_length(v, bound as int, i as int);
    }
    i
}

/// Puts the sample into the window that starts at `start`, which is made
/// where it is missing; says whether it was made.
fn place(ws: &mut Vec<WindowBatch>, start: i64, end: i64, sample: Sample) -> (created: bool)
    requires
        ascending(views(old(ws)@)),
    ensures
        views(final(ws)@) == upsert(views(old(ws)@), start as int, end as int, sample),
        ascending(views(final(ws)@)),
        created == !exists|i: int|
            0 <= i < old(ws)@.len() && (#[trigger] views(old(ws)@)[i]).start == start,
{
    let ghost before = views(ws@);
    let i = count_below(ws, start as i128);
    proof {
        lemma_position_splits(before, start as int);
        lemma_upsert_ascending(before, start as int, end as int, sample);
    }
    if i < ws.len() && ws[i].window_start == start {
        ws[i].window_end = end;
        ws[i].samples.push(sample);
        assert(views(ws@) =~= upsert(before, start as int, end as int, sample));
        false
    } else {
        let mut samples: Vec<Sample> = Vec::new();
        samples.push(sample);
        ws.insert(i, WindowBatch { window_start: start, window_end: end, samples });
        assert(views(ws@) =~= upsert(before, start as int, end as int, sample));
        assert forall|j: int| 0 <= j < before.len() implies (#[trigger] before[j]).start
            != start by {}
        true
    }
}

/// Takes out the windows that start below the bound and hands back their
/// starts.
fn evict_below(ws: &mut Vec<WindowBatch>, bound: i128) -> (gone: Vec<i64>)
    requires
        ascending(views(old(ws)@)),
    ensures
        views(final(ws)@) == views(old(ws)@).skip(position(views(old(ws)@), bound as int) as int),
        ascending(views(final(ws)@)),
        gone@.len() == position(views(old(ws)@), bound as int),
        forall|j: int| 0 <= j < gone@.len() ==> #[trigger] gone@[j] == views(old(ws)@)[j].start,
{
    let ghost before = views(ws@);
    let k = count_below(ws, bound);
    let mut gone: Vec<i64> = Vec::new();
    let mut n: usize = 0;
    assert(before.skip(0) =~= before);
    while n < k
        invariant
            n <= k <= before.len(),
            views(ws@) == before.skip(n as int),
            ascending(before),
            gone@.len() == n,
            forall|j: int| 0 <= j < n ==> #[trigger] gone@[j] == before[j].start,
        decreases k - n,
    {
        let ghost held = ws@;
        assert(views(held).len() == held.len());
        let w = ws.remove(0);
        assert(w@ == views(held)[0]);
        gone.push(w.window_start);
        assert forall|j: int| 0 <= j < ws@.len() implies #[trigger] views(ws@)[j] == before.skip(
            n + 1,
        )[j] by {
            assert(ws@[j] == held[j + 1]);
            assert(views(held)[j + 1] == before.skip(n as int)[j + 1]);
        }
        assert(views(ws@) =~= before.skip(n + 1));
        n += 1;
    }
    proof {
        let after = before.skip(k as int);
        assert forall|a: int, b: int| 0 <= a < b < after.len() implies (#[trigger] after[a]).start
            < (#[trigger] after[b]).start by {
            assert(after[a] == before[a + k] && after[b] == before[b + k]);
        }
    }
    gone
}

/// The windows of one stream.
pub struct TimeWindowAggregator {
    config: WindowConfig,
    windows: Vec<WindowBatch>,
    current_window_start: i64,
    last_timestamp: Option<i64>,
    evicted_high: Option<i64>,
}

impl View for TimeWindowAggregator {
    type V = AggregatorView;

    closed spec fn view(&self) -> AggregatorView {
        AggregatorView {
            config: self.config,
            windows: views(self.windows@),
            current_window_start: self.current_window_start,
            last_timestamp: self.last_timestamp,
            evicted_high: self.evicted_high,
        }
    }
}

impl TimeWindowAggregator {
    /// The configuration keeps its rules, the windows ascend by start, and
    /// tumbling windows partition time.
    #[verifier::type_invariant]
    spec fn well_formed(self) -> bool {
        &&& self.config.is_valid()
        &&& ascending(views(self.windows@))
        &&& self.config.window_type is Tumbling ==> partitions(
            views(self.windows@),
            self.config.window_size_ms as int,
        )
    }

    /// An aggregator without windows.
    pub fn new(config: WindowConfig) -> (r: Self)
        requires
            config.is_valid(),
        ensures
            r@ == AggregatorView::fresh(config),
    {
        let r = TimeWindowAggregator {
            config,
            windows: Vec::new(),
            current_window_start: 0,
            last_timestamp: None,
            evicted_high: None,
        };
        assert(r@.windows =~= Seq::<WindowView>::empty());
        r
    }

    /// An aggregator without windows, or `InvalidWindowConfig` where the
    /// configuration breaks its rules.
    pub fn try_new(config: WindowConfig) -> (r: Result<Self, AggregatorError>)
        ensures
            r is Ok <==> config.is_valid(),
            r is Ok ==> r->Ok_0@ == AggregatorView::fresh(config),
            r is Err ==> r->Err_0 is InvalidWindowConfig,
    {
        match config.validate() {
            Ok(()) => Ok(TimeWindowAggregator::new(config)),
            Err(e) => Err(e),
        }
    }

    /// The start of the window that takes the timestamp, in 128 bits.
    fn route_wide(&self, timestamp: i64) -> (r: i128)
        ensures
            r == self@.route(timestamp),
            i64::MIN - i64::MAX <= r <= i64::MAX,
    {
        proof {
            use_type_invariant(self);
        }
        match self.config.window_type {
            WindowType::Session => {
                let continues = self.current_window_start != 0 && match (
                    self.last_timestamp,
                    self.config.session_gap_ms,
                ) {
                    (Some(p), Some(g)) => (timestamp as i128) - (p as i128) <= (g as i128),
                    _ => false,
                };
                if continues {
                    self.current_window_start as i128
                } else {
                    timestamp as i128
                }
            },
            WindowType::Tumbling => {
                (timestamp as i128) - (floor_rem(timestamp, self.config.window_size_ms) as i128)
            },
            WindowType::Sliding => {
                let step: i64 = match self.config.slide_size_ms {
                    Some(s) => s,
                    None => self.config.window_size_ms,
                };
                (timestamp as i128) - (floor_rem(timestamp, step) as i128)
            },
        }
    }

    /// The end that the window takes on this admission, in 128 bits.
    fn end_wide(&self, timestamp: i64) -> (r: i128)
        ensures
            r == self@.end_for(timestamp),
    {
        match self.config.window_type {
            WindowType::Session => timestamp as i128,
            _ => self.route_wide(timestamp) + (self.config.window_size_ms as i128),
        }
    }

    /// Whether `add_value` may be called with this timestamp: the sample
    /// would be dropped, or the bounds of its window are 64-bit values.
    pub fn can_admit(&self, timestamp: i64) -> (r: bool)
        ensures
            r == self@.admits(timestamp),
    {
        let dropped = match self.evicted_high {
            Some(h) => timestamp < h,
            None => false,
        };
        dropped || ((i64::MIN as i128) <= self.route_wide(timestamp) && self.end_wide(timestamp) <= (
        i64::MAX as i128))
    }

    /// Offers one sample. A sample older than the start of an evicted
    /// window is dropped. Any other goes to the window that `route`
    /// names, which is made where it is missing; then every window that
    /// starts below `cutoff` leaves.
    pub fn add_value(&mut self, timestamp: i64, value: u64) -> (r: Admission)
        requires
            old(self)@.admits(timestamp),
        ensures
            final(self)@ == old(self)@.step(timestamp, value),
            old(self)@.reports(timestamp, value, r),
    {
        proof {
            use_type_invariant(&*self);
        }
        if let Some(h) = self.evicted_high {
            if timestamp < h {
                return Admission::Dropped;
            }
        }
        let start: i64 = self.route_wide(timestamp) as i64;
        let end: i64 = self.end_wide(timestamp) as i64;
        let is_session = match self.config.window_type {
            WindowType::Session => true,
            _ => false,
        };
        let count: i128 = self.config.max_window_count as i128;
        let size: i128 = self.config.window_size_ms as i128;
        assert(-0x8000_0000_0000_0000 * 0xFFFF_FFFF_FFFF_FFFF <= count * size
            <= 0x7FFF_FFFF_FFFF_FFFF * 0xFFFF_FFFF_FFFF_FFFF) by (nonlinear_arith)
            requires
                0 <= count <= 0xFFFF_FFFF_FFFF_FFFF,
                -0x8000_0000_0000_0000 <= size <= 0x7FFF_FFFF_FFFF_FFFF,
        ;
        let cutoff: i128 = (timestamp as i128) - count * size;
        let ghost before = self@;
        let mut windows: Vec<WindowBatch> = Vec::new();
        assert(views(windows@) =~= Seq::<WindowView>::empty());
        core::mem::swap(&mut self.windows, &mut windows);
        let created = place(&mut windows, start, end, (timestamp, value));
        let ghost placed = views(windows@);
        let evicted = evict_below(&mut windows, cutoff);
        proof {
            assert(placed == before.placed(timestamp, value));
            assert(views(windows@) == before.step(timestamp, value).windows);
            if self.config.window_type is Tumbling {
                lemma_tumbling_step_partitions(before, timestamp, value);
            }
        }
        core::mem::swap(&mut self.windows, &mut windows);
        if evicted.len() > 0 {
            let top: i64 = evicted[evicted.len() - 1];
            let keep = match self.evicted_high {
                Some(h) => h >= top,
                None => false,
            };
            if !keep {
                self.evicted_high = Some(top);
            }
        }
        if is_session {
            self.current_window_start = start;
        }
        self.last_timestamp = Some(timestamp);
        proof {
            lemma_position_splits(placed, cutoff as int);
            assert(placed == before.placed(timestamp, value));
            assert(self@.windows == before.step(timestamp, value).windows);
            assert(self@ == before.step(timestamp, value));
        }
        Admission::Admitted { window_start: start, window_end: end, created, evicted }
    }

    /// Offers one sample where `add_value` may be called, and answers
    /// `InvalidTimestamp` and changes nothing where it may not.
    pub fn try_add_value(&mut self, timestamp: i64, value: u64) -> (r: Result<
        Admission,
        AggregatorError,
    >)
        ensures
            old(self)@.admits(timestamp) ==> r is Ok && final(self)@ == old(self)@.step(
                timestamp,
                value,
            ) && old(self)@.reports(timestamp, value, r->Ok_0),
            !old(self)@.admits(timestamp) ==> r == Err::<Admission, AggregatorError>(
                AggregatorError::InvalidTimestamp(timestamp),
            ) && final(self)@ == old(self)@,
    {
        if self.can_admit(timestamp) {
            Ok(self.add_value(timestamp, value))
        } else {
            Err(AggregatorError::InvalidTimestamp(timestamp))
        }
    }

    /// The stamp of the window with the greatest start.
    pub fn get_current_aggregate(&self) -> (r: Option<WindowStamp>)
        ensures
            r == if self@.windows.len() == 0 {
                None
            } else {
                Some(stamp_of(self@.windows.last()))
            },
    {
        let n = self.windows.len();
        if n == 0 {
            None
        } else {
            let w = &self.windows[n - 1];
            assert(w@ == self@.windows.last());
            Some(
                WindowStamp {
                    window_start: w.window_start,
                    window_end: w.window_end,
                    count: w.samples.len(),
                },
            )
        }
    }

    /// The stamps of the windows at the places `lo..hi`.
    fn stamps_between(&self, lo: usize, hi: usize) -> (r: Vec<WindowStamp>)
        requires
            lo <= hi <= self@.windows.len(),
        ensures
            r@ == self@.windows.subrange(lo as int, hi as int).map_values(|w: WindowView| stamp_of(w)),
    {
        let mut out: Vec<WindowStamp> = Vec::new();
        let mut i: usize = lo;
        let ghost all = self@.windows;
        while i < hi
            invariant
                lo <= i <= hi <= all.len(),
                all == self@.windows,
                all.len() == self.windows@.len(),
                out@ == all.subrange(lo as int, i as int).map_values(|w: WindowView| stamp_of(w)),
            decreases hi - i,
        {
            let w = &self.windows[i];
            assert(w@ == all[i as int]);
            out.push(
                WindowStamp {
                    window_start: w.window_start,
                    window_end: w.window_end,
                    count: w.samples.len(),
                },
            );
            assert(all.subrange(lo as int, i + 1) =~= all.subrange(lo as int, i as int).push(
                all[i as int],
            ));
            assert(out@ =~= all.subrange(lo as int, i + 1).map_values(|w: WindowView| stamp_of(w)));
            i += 1;
        }
        out
    }

    /// The stamps of all windows, ascending by start.
    pub fn get_all_aggregates(&self) -> (r: Vec<WindowStamp>)
        ensures
            r@ == self@.windows.map_values(|w: WindowView| stamp_of(w)),
            ascending(self@.windows),
            self@.config.window_type is Tumbling ==> partitions(
                self@.windows,
                self@.config.window_size_ms as int,
            ),
    {
        proof {
            use_type_invariant(self);
        }
        let n = self.windows.len();
        assert(self@.windows.subrange(0, n as int) =~= self@.windows);
        self.stamps_between(0, n)
    }

    /// The stamps of the windows whose start lies in `[start, end)`,
    /// ascending by start.
    pub fn get_aggregates_in_range(&self, start: i64, end: i64) -> (r: Vec<WindowStamp>)
        ensures
            r@ == in_range(self@.windows, start as int, end as int).map_values(
                |w: WindowView| stamp_of(w),
            ),
    {
        proof {
            use_type_invariant(self);
        }
        let lo = count_below(&self.windows, start as i128);
        let hi = count_below(&self.windows, end as i128);
        if lo <= hi {
            self.stamps_between(lo, hi)
        } else {
            self.stamps_between(lo, lo)
        }
    }

    /// Hands the windows over, ascending by start, each with its samples.
    pub fn into_batches(self) -> (r: Vec<WindowBatch>)
        ensures
            views(r@) == self@.windows,
            ascending(self@.windows),
            self@.config.window_type is Tumbling ==> partitions(
                self@.windows,
                self@.config.window_size_ms as int,
            ),
    {
        proof {
            use_type_invariant(&self);
        }
        self.windows
    }

    /// Forgets every window and the running session.
    pub fn reset(&mut self)
        ensures
            final(self)@ == AggregatorView::fresh(old(self)@.config),
    {
        proof {
            use_type_invariant(&*self);
        }
        self.windows = Vec::new();
        self.current_window_start = 0;
        self.last_timestamp = None;
        self.evicted_high = None;
        assert(self@.windows =~= Seq::<WindowView>::empty());
    }

    /// The configuration.
    pub fn config(&self) -> (r: WindowConfig)
        ensures
            r == self@.config,
            r.is_valid(),
    {
        proof {
            use_type_invariant(self);
        }
        self.config
    }

    /// The number of windows held.
    pub fn window_count(&self) -> (r: usize)
        ensures
            r == self@.windows.len(),
            ascending(self@.windows),
    {
        proof {
            use_type_invariant(self);
        }
        self.windows.len()
    }

    /// The samples of the window that starts at `window_start`, in order
    /// of arrival.
    pub fn window_samples(&self, window_start: i64) -> (r: Option<&Vec<Sample>>)
        ensures
            match r {
                Some(samples) => exists|i: int|
                    0 <= i < self@.windows.len() && (#[trigger] self@.windows[i]).start
                        == window_start && self@.windows[i].samples == samples@,
                None => forall|i: int|
                    0 <= i < self@.windows.len() ==> (#[trigger] self@.windows[i]).start
                        != window_start,
            },
    {
        proof {
            use_type_invariant(self);
            lemma_position_splits(self@.windows, window_start as int);
        }
        let i = count_below(&self.windows, window_start as i128);
        if i < self.windows.len() && self.windows[i].window_start == window_start {
            let samples = &self.windows[i].samples;
            assert(self@.windows.len() == self.windows@.len());
            assert(self@.windows[i as int] == self.windows@[i as int]@);
            assert(self@.windows[i as int].start == window_start && self@.windows[i as int].samples
                == samples@);
            Some(samples)
        } else {
            proof {
                let ws = self@.windows;
                assert(ws.len() == self.windows@.len());
                assert forall|j: int| 0 <= j < ws.len() implies (#[trigger] ws[j]).start
                    != window_start by {
                    if j >= i {
                        assert(ws[i as int] == self.windows@[i as int]@);
                        if j > i {
                            assert(ws[i as int].start < ws[j].start);
                        }
                    }
                }
            }
            None
        }
    }
}

/// What routing a whole sequence comes to: windows, or a failure.
pub type Outcome = Result<Seq<WindowView>, AggregatorError>;

/// The outcome of a call as contracts see it.
pub open spec fn outcome_of(r: Result<Vec<WindowBatch>, AggregatorError>) -> Outcome {
    match r {
        Ok(batches) => Ok(views(batches@)),
        Err(e) => Err(e),
    }
}

/// Whether `r` is the outcome of routing the samples, one after the other,
/// through a fresh aggregator: its windows where every sample could be
/// offered; `InvalidWindowConfig` where the configuration breaks its
/// rules; `InvalidTimestamp`, with the timestamp, at the first sample that
/// cannot be placed.
pub open spec fn routes_to(config: WindowConfig, samples: Seq<Sample>, r: Outcome) -> bool {
    let fresh = AggregatorView::fresh(config);
    if !config.is_valid() {
        r is Err && r->Err_0 is InvalidWindowConfig
    } else {
        match r {
            Ok(windows) => {
                &&& forall|i: int| 0 <= i < samples.len() ==> fresh.admits_at(samples, i)
                &&& windows == fresh.after(samples).windows
            },
            Err(e) => exists|i: int|
                {
                    &&& 0 <= i < samples.len()
                    &&& !#[trigger] fresh.admits_at(samples, i)
                    &&& forall|j: int| 0 <= j < i ==> fresh.admits_at(samples, j)
                    &&& e == AggregatorError::InvalidTimestamp(samples[i].0)
                },
        }
    }
}

/// Routes a sequence of samples through a fresh aggregator and hands back
/// its windows, ascending by start, each with its samples.
/// `InvalidWindowConfig` where the configuration breaks its rules;
/// `InvalidTimestamp`, with the timestamp, at the first sample that cannot
/// be placed.
pub fn window_batches(config: WindowConfig, samples: &Vec<Sample>) -> (r: Result<
    Vec<WindowBatch>,
    AggregatorError,
>)
    ensures
        routes_to(config, samples@, outcome_of(r)),
{
    let mut aggregator = match TimeWindowAggregator::try_new(config) {
        Ok(a) => a,
        Err(e) => {
            return Err(e);
        },
    };
    let ghost start = AggregatorView::fresh(config);
    let mut i: usize = 0;
    assert(samples@.take(0) =~= Seq::<Sample>::empty());
    while i < samples.len()
        invariant
            i <= samples@.len(),
            config.is_valid(),
            start == AggregatorView::fresh(config),
            aggregator@ == start.after(samples@.take(i as int)),
            forall|j: int| 0 <= j < i ==> start.admits_at(samples@, j),
        decreases samples@.len() - i,
    {
        let (timestamp, value) = samples[i];
        assert(samples@.take(i + 1).drop_last() =~= samples@.take(i as int));
        match aggregator.try_add_value(timestamp, value) {
            Ok(_) => {},
            Err(e) => {
                assert(!start.admits_at(samples@, i as int));
                return Err(e);
            },
        }
        i += 1;
    }
    assert(samples@.take(i as int) =~= samples@);
    Ok(aggregator.into_batches())
}

} // verus!
