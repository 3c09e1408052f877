//! One window aggregator per tag key.
//!
//! Samples carry tags; the key of the tags picks the stream that a sample
//! belongs to, and each stream has windows of its own. The streams live in
//! a `DashMap`, which this module reaches only through the few calls
//! below.

use crate::config::WindowConfig;
use crate::dimension::{key_of, tag_pairs, DimensionKey, Pairs};
use crate::error::AggregatorError;
use crate::window::{
    stamp_of, Admission, AggregatorView, TimeWindowAggregator, WindowStamp, WindowView,
};
use dashmap::DashMap;
use std::collections::HashMap;
use vstd::prelude::*;

verus! {

/// `dashmap::DashMap`, a hash map that may be shared between threads.
#[verifier::external_type_specification]
#[verifier::external_body]
#[verifier::reject_recursive_types(K)]
#[verifier::reject_recursive_types(V)]
#[verifier::reject_recursive_types(S)]
pub struct ExDashMap<K, V, S>(DashMap<K, V, S>);

/// What the map holds: for each key, by its pairs, the state of its
/// aggregator.
pub uninterp spec fn streams(m: DashMap<DimensionKey, TimeWindowAggregator>) -> Map<
    Pairs,
    AggregatorView,
>;

/// No stream at all.
pub open spec fn no_streams() -> Map<Pairs, AggregatorView> {
    Map::empty()
}

/// No tag at all.
pub open spec fn no_tags() -> Set<(Seq<char>, Seq<char>)> {
    Set::empty()
}

/// `DashMap::new`: a map that holds nothing.
#[verifier::external_body]
fn streams_new() -> (m: DashMap<DimensionKey, TimeWindowAggregator>)
    ensures
        streams(m) == no_streams(),
{
    DashMap::new()
}

/// `DashMap::remove`: takes the entry of the key out of the map and hands
/// its aggregator over; a map without the key is left as it is. Keys are
/// equal where their pairs are.
#[verifier::external_body]
fn streams_take(m: &mut DashMap<DimensionKey, TimeWindowAggregator>, key: &DimensionKey) -> (r:
    Option<TimeWindowAggregator>)
    ensures
        r is Some <==> streams(*old(m)).contains_key(key@),
        r is Some ==> r->Some_0@ == streams(*old(m))[key@],
        streams(*final(m)) == streams(*old(m)).remove(key@),
{
    m.remove(key).map(|entry| entry.1)
}

/// `DashMap::insert`: the map afterwards holds the aggregator under the
/// key, in place of what it held there, and every other entry as before.
#[verifier::external_body]
fn streams_put(
    m: &mut DashMap<DimensionKey, TimeWindowAggregator>,
    key: DimensionKey,
    aggregator: TimeWindowAggregator,
)
    ensures
        streams(*final(m)) == streams(*old(m)).insert(key@, aggregator@),
{
    m.insert(key, aggregator);
}

/// `DashMap::get`, read through to the stamps of the aggregator under the
/// key; `None` where the map has no such key.
#[verifier::external_body]
fn streams_stamps(m: &DashMap<DimensionKey, TimeWindowAggregator>, key: &DimensionKey) -> (r:
    Option<Vec<WindowStamp>>)
    ensures
        r is Some <==> streams(*m).contains_key(key@),
        r is Some ==> r->Some_0@ == stamps_of(streams(*m)[key@]),
{
    m.get(key).map(|entry| entry.get_all_aggregates())
}

/// `DashMap::iter`, each key copied out: every key that the map holds,
/// once, in an order of the map's choosing.
#[verifier::external_body]
fn streams_keys(m: &DashMap<DimensionKey, TimeWindowAggregator>) -> (r: Vec<DimensionKey>)
    ensures
        forall|i: int| 0 <= i < r@.len() ==> streams(*m).contains_key(#[trigger] r@[i]@),
        forall|k: Pairs|
            streams(*m).contains_key(k) ==> exists|i: int| 0 <= i < r@.len() && #[trigger] r@[i]@ == k,
        forall|i: int, j: int| 0 <= i < j < r@.len() ==> r@[i]@ != r@[j]@,
{
    m.iter().map(|entry| entry.key().clone()).collect()
}

/// `DashMap::clear`: the map afterwards holds nothing.
#[verifier::external_body]
fn streams_clear(m: &mut DashMap<DimensionKey, TimeWindowAggregator>)
    ensures
        streams(*final(m)) == no_streams(),
{
    m.clear();
}

/// The stamps of all windows of a stream, ascending by start.
pub open spec fn stamps_of(v: AggregatorView) -> Seq<WindowStamp> {
    v.windows.map_values(|w: WindowView| stamp_of(w))
}

/// The stamp of the window of a stream with the greatest start.
pub open spec fn current_of(v: AggregatorView) -> Option<WindowStamp> {
    if v.windows.len() == 0 {
        None
    } else {
        Some(stamp_of(v.windows.last()))
    }
}

/// One sample of a tagged stream: its timestamp, its pattern, its tags.
#[derive(Debug, Clone)]
pub struct DataPoint {
    pub timestamp: i64,
    pub value: u64,
    pub tags: HashMap<String, String>,
}

/// `HashMap::insert` for tags: the map afterwards holds the value under
/// the name, in place of what it held there, and every other pair as
/// before.
#[verifier::external_body]
fn tags_insert(tags: &mut HashMap<String, String>, name: String, value: String)
    ensures
        tag_pairs(final(tags)@) == tag_pairs(old(tags)@).filter(
            |p: (Seq<char>, Seq<char>)| p.0 != name@,
        ).insert((name@, value@)),
{
    tags.insert(name, value);
}

impl DataPoint {
    /// A sample without tags.
    pub fn new(timestamp: i64, value: u64) -> (r: Self)
        ensures
            r.timestamp == timestamp,
            r.value == value,
            tag_pairs(r.tags@) == no_tags(),
    {
        let tags: HashMap<String, String> = HashMap::new();
        assert(tag_pairs(tags@) =~= no_tags());
        DataPoint { timestamp, value, tags }
    }

    /// The sample with one more tag; a tag of the same name is replaced.
    pub fn with_tag(self, key: &str, value: &str) -> (r: Self)
        ensures
            r.timestamp == self.timestamp,
            r.value == self.value,
            tag_pairs(r.tags@) == tag_pairs(self.tags@).filter(
                |p: (Seq<char>, Seq<char>)| p.0 != key@,
            ).insert((key@, value@)),
    {
        let mut tags = self.tags;
        tags_insert(&mut tags, key.to_owned(), value.to_owned());
        DataPoint { timestamp: self.timestamp, value: self.value, tags }
    }
}

/// The state of a multi-dimension aggregator as contracts see it.
pub struct MultiView {
    pub config: WindowConfig,
    /// The streams that have taken a sample, by key.
    pub streams: Map<Pairs, AggregatorView>,
}

impl MultiView {
    /// The stream of a key: the one held, or a fresh one.
    pub open spec fn stream(self, key: Pairs) -> AggregatorView {
        if self.streams.contains_key(key) {
            self.streams[key]
        } else {
            AggregatorView::fresh(self.config)
        }
    }

    /// Whether a sample can be taken: the configuration keeps its rules and
    /// the stream of the key admits the timestamp.
    pub open spec fn admits(self, key: Pairs, timestamp: i64) -> bool {
        self.config.is_valid() && self.stream(key).admits(timestamp)
    }

    /// The state after a sample was offered: the stream of its key has
    /// taken it, and no other stream has changed. A sample that cannot be
    /// taken changes nothing.
    pub open spec fn step(self, key: Pairs, timestamp: i64, value: u64) -> MultiView {
        if self.admits(key, timestamp) {
            MultiView {
                config: self.config,
                streams: self.streams.insert(key, self.stream(key).step(timestamp, value)),
            }
        } else {
            self
        }
    }

    /// Whether `r` is the answer to offering the sample in this state:
    /// the report of its stream where the sample can be taken,
    /// `InvalidWindowConfig` where the configuration breaks its rules,
    /// `InvalidTimestamp` where the stream cannot place the timestamp.
    pub open spec fn answers(self, point: DataPoint, r: Result<Admission, AggregatorError>) -> bool {
        let key = key_of(point.tags@);
        match r {
            Ok(admission) => self.admits(key, point.timestamp) && self.stream(key).reports(
                point.timestamp,
                point.value,
                admission,
            ),
            Err(e) => !self.admits(key, point.timestamp) && if self.config.is_valid() {
                e == AggregatorError::InvalidTimestamp(point.timestamp)
            } else {
                e is InvalidWindowConfig
            },
        }
    }

    /// The state after the samples were offered one after the other.
    pub open spec fn after(self, points: Seq<DataPoint>) -> MultiView
        decreases points.len(),
    {
        if points.len() == 0 {
            self
        } else {
            let p = points.last();
            self.after(points.drop_last()).step(key_of(p.tags@), p.timestamp, p.value)
        }
    }
}

/// A sample changes the stream of its own key and no other.
pub proof fn lemma_streams_are_isolated(
    v: MultiView,
    key: Pairs,
    timestamp: i64,
    value: u64,
    other: Pairs,
)
    requires
        other != key,
    ensures
        v.step(key, timestamp, value).streams.contains_key(other) == v.streams.contains_key(other),
        v.step(key, timestamp, value).stream(other) == v.stream(other),
{
}

/// Window aggregators by tag key.
pub struct MultiDimensionAggregator {
    config: WindowConfig,
    aggregators: DashMap<DimensionKey, TimeWindowAggregator>,
}

impl View for MultiDimensionAggregator {
    type V = MultiView;

    closed spec fn view(&self) -> MultiView {
        MultiView { config: self.config, streams: streams(self.aggregators) }
    }
}

impl MultiDimensionAggregator {
    /// An aggregator without streams.
    pub fn new(config: WindowConfig) -> (r: Self)
        ensures
            r@ == (MultiView { config, streams: no_streams() }),
    {
        MultiDimensionAggregator { config, aggregators: streams_new() }
    }

    /// Offers one sample to the stream of its tags, which is made where it
    /// is missing. `InvalidWindowConfig` where the configuration breaks
    /// its rules, `InvalidTimestamp` where the stream cannot place the
    /// timestamp; neither changes anything.
    pub fn add_point(&mut self, point: &DataPoint) -> (r: Result<Admission, AggregatorError>)
        ensures
            final(self)@ == old(self)@.step(key_of(point.tags@), point.timestamp, point.value),
            old(self)@.answers(*point, r),
    {
        let ghost before = self@;
        let key = DimensionKey::from_tags(&point.tags);
        if let Err(e) = self.config.validate() {
            return Err(e);
        }
        let (mut aggregator, held) = match streams_take(&mut self.aggregators, &key) {
            Some(a) => (a, true),
            None => (TimeWindowAggregator::new(self.config), false),
        };
        let r = aggregator.try_add_value(point.timestamp, point.value);
        if r.is_ok() || held {
            streams_put(&mut self.aggregators, key, aggregator);
        }
        proof {
            let k = key_of(point.tags@);
            if before.admits(k, point.timestamp) {
                assert(self@.streams =~= before.step(
                    k,
                    point.timestamp,
                    point.value,
                ).streams);
            } else {
                assert(self@.streams =~= before.streams);
            }
        }
        r
    }

    /// Offers the samples one after the other, and reports on each.
    pub fn add_points(&mut self, points: &Vec<DataPoint>) -> (r: Vec<
        Result<Admission, AggregatorError>,
    >)
        ensures
            final(self)@ == old(self)@.after(points@),
            r@.len() == points@.len(),
            forall|i: int|
                0 <= i < points@.len() ==> old(self)@.after(points@.take(i)).answers(
                    points@[i],
                    #[trigger] r@[i],
                ),
    {
        let mut out: Vec<Result<Admission, AggregatorError>> = Vec::new();
        let mut i: usize = 0;
        let ghost before = self@;
        while i < points.len()
            invariant
                i <= points@.len(),
                out@.len() == i,
                self@ == before.after(points@.take(i as int)),
                forall|k: int|
                    0 <= k < i ==> before.after(points@.take(k)).answers(
                        points@[k],
                        #[trigger] out@[k],
                    ),
            decreases points@.len() - i,
        {
            let r = self.add_point(&points[i]);
            out.push(r);
            assert(points@.take(i + 1).drop_last() =~= points@.take(i as int));
            i += 1;
        }
        assert(points@.take(i as int) =~= points@);
        out
    }

    /// The stamp of the latest window of the stream of the key; `None`
    /// where the key has no stream.
    pub fn get_aggregate(&self, key: &DimensionKey) -> (r: Option<WindowStamp>)
        ensures
            r == if self@.streams.contains_key(key@) {
                current_of(self@.streams[key@])
            } else {
                None
            },
    {
        match streams_stamps(&self.aggregators, key) {
            Some(stamps) => {
                let n = stamps.len();
                if n == 0 {
                    None
                } else {
                    Some(stamps[n - 1])
                }
            },
            None => None,
        }
    }

    /// The keys that have a stream, each once.
    pub fn get_dimensions(&self) -> (r: Vec<DimensionKey>)
        ensures
            forall|i: int| 0 <= i < r@.len() ==> self@.streams.contains_key(#[trigger] r@[i]@),
            forall|k: Pairs|
                self@.streams.contains_key(k) ==> exists|i: int|
                    0 <= i < r@.len() && #[trigger] r@[i]@ == k,
            forall|i: int, j: int| 0 <= i < j < r@.len() ==> r@[i]@ != r@[j]@,
    {
        streams_keys(&self.aggregators)
    }

    /// The stamps of all windows of every stream, each key once.
    pub fn get_all_aggregates(&self) -> (r: Vec<(DimensionKey, Vec<WindowStamp>)>)
        ensures
            forall|i: int|
                0 <= i < r@.len() ==> self@.streams.contains_key((#[trigger] r@[i]).0@) && r@[i].1@
                    == stamps_of(self@.streams[r@[i].0@]),
            forall|k: Pairs|
                self@.streams.contains_key(k) ==> exists|i: int|
                    0 <= i < r@.len() && (#[trigger] r@[i]).0@ == k,
            forall|i: int, j: int| 0 <= i < j < r@.len() ==> r@[i].0@ != r@[j].0@,
    {
        let keys = streams_keys(&self.aggregators);
        let mut out: Vec<(DimensionKey, Vec<WindowStamp>)> = Vec::new();
        let mut i: usize = 0;
        let n = keys.len();
        while i < n
            invariant
                i <= n,
                n == keys@.len(),
                out@.len() == i,
                forall|k: int| 0 <= k < n ==> self@.streams.contains_key(#[trigger] keys@[k]@),
                forall|k: int|
                    0 <= k < i ==> (#[trigger] out@[k]).0@ == keys@[k]@ && out@[k].1@ == stamps_of(
                        self@.streams[keys@[k]@],
                    ),
            decreases n - i,
        {
            let stamps = match streams_stamps(&self.aggregators, &keys[i]) {
                Some(s) => s,
                None => Vec::new(),
            };
            out.push((keys[i].clone(), stamps));
            i += 1;
        }
        proof {
            assert forall|k: Pairs| self@.streams.contains_key(k) implies exists|i: int|
                0 <= i < out@.len() && (#[trigger] out@[i]).0@ == k by {
                let j = choose|j: int| 0 <= j < keys@.len() && #[trigger] keys@[j]@ == k;
                assert(out@[j].0@ == k);
            }
        }
        out
    }

    /// Forgets every stream.
    pub fn reset(&mut self)
        ensures
            final(self)@ == (MultiView {
                config: old(self)@.config,
                streams: no_streams(),
            }),
    {
        streams_clear(&mut self.aggregators);
    }
}

} // verus!
