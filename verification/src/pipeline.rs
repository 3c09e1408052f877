//! Stages applied to a batch of samples.
//!
//! A pipeline is a list of stages. Filters and transforms change the
//! samples in flight; a reduction adds one batch, which holds all of them,
//! to the pending results; a window stage routes them through a fresh
//! window aggregator, whose windows take the place of the pending results;
//! a grouping splits them by key, runs the stages behind it on each part,
//! and puts the results of the parts one after the other, in ascending
//! order of key. The statistics of a batch are for the caller to take.

use crate::config::{AggregationType, WindowConfig};
use crate::dimension::DimensionKey;
use crate::error::AggregatorError;
use crate::grouping::{group_by_key, group_views, is_grouping, key_views, lemma_places_of, GroupView};
use crate::multidim::DataPoint;
use crate::window::{
    outcome_of, routes_to, views, window_batches, Outcome, Sample, WindowBatch, WindowView,
};
use vstd::prelude::*;

verus! {

/// One stage of a pipeline.
pub enum AggregateOp<F, M, G> {
    /// Keeps the samples for which the predicate answers `true`.
    Filter { predicate: F },
    /// Puts the transform of each sample in its place.
    Transform { transform: M },
    /// Splits the samples by the key that the function gives each.
    GroupBy { key_fn: G },
    /// Adds one batch that holds all samples to the pending results.
    Aggregate { aggregation: AggregationType },
    /// Puts the windows of the samples in place of the pending results.
    Window { config: WindowConfig },
}

/// The timestamp and the pattern of each sample.
pub open spec fn samples_of(points: Seq<DataPoint>) -> Seq<Sample> {
    points.map_values(|p: DataPoint| (p.timestamp, p.value))
}

/// The batch of a reduction: all samples, without bounds.
pub open spec fn whole(points: Seq<DataPoint>) -> WindowView {
    WindowView { start: 0, end: 0, samples: samples_of(points) }
}

/// Whether `output` holds, in order, the samples of `input` for which the
/// predicate answered `true`.
pub open spec fn kept<F: Fn(&DataPoint) -> bool>(
    predicate: F,
    input: Seq<DataPoint>,
    output: Seq<DataPoint>,
) -> bool
    decreases input.len(),
{
    if input.len() == 0 {
        output.len() == 0
    } else {
        let p = input.last();
        ||| call_ensures(predicate, (&p,), true) && output.len() > 0 && output.last() == p && kept(
            predicate,
            input.drop_last(),
            output.drop_last(),
        )
        ||| call_ensures(predicate, (&p,), false) && kept(predicate, input.drop_last(), output)
    }
}

/// Whether `output` holds, place by place, what the transform made of
/// `input`.
pub open spec fn mapped<M: Fn(&DataPoint) -> DataPoint>(
    transform: M,
    input: Seq<DataPoint>,
    output: Seq<DataPoint>,
) -> bool {
    &&& output.len() == input.len()
    &&& forall|i: int|
        0 <= i < input.len() ==> #[trigger] call_ensures(transform, (&input[i],), output[i])
}

/// Whether `keys` holds, place by place, the key that the function gave
/// each sample of `input`.
pub open spec fn keyed<G: Fn(&DataPoint) -> DimensionKey>(
    key_fn: G,
    input: Seq<DataPoint>,
    keys: Seq<DimensionKey>,
) -> bool {
    &&& keys.len() == input.len()
    &&& forall|i: int|
        0 <= i < input.len() ==> #[trigger] call_ensures(key_fn, (&input[i],), keys[i])
}

/// The samples at the given places.
pub open spec fn part_of(points: Seq<DataPoint>, places: Seq<usize>) -> Seq<DataPoint> {
    places.map_values(|j: usize| points[j as int])
}

/// The pending results followed by the results of each part in turn, or
/// the first failure among the parts.
pub open spec fn gathers(pending: Seq<WindowView>, subs: Seq<Outcome>) -> Outcome
    decreases subs.len(),
{
    if subs.len() == 0 {
        Ok(pending)
    } else {
        match gathers(pending, subs.drop_last()) {
            Ok(done) => match subs.last() {
                Ok(out) => Ok(done + out),
                Err(e) => Err(e),
            },
            Err(e) => Err(e),
        }
    }
}

/// Whether the outcomes are those of a run over `parts` parts that ends at
/// its first failure: every part has an outcome, or the last outcome is
/// the only failure.
pub open spec fn stops_at_failure(subs: Seq<Outcome>, parts: nat) -> bool {
    &&& subs.len() <= parts
    &&& forall|g: int| 0 <= g < subs.len() - 1 ==> (#[trigger] subs[g]) is Ok
    &&& subs.len() == parts || (subs.len() > 0 && subs.last() is Err)
}

/// Whether running the stages over the samples, with these results
/// pending, comes to `r`. A grouping runs the stages behind it over each
/// part, in ascending order of key and with no results pending, up to the
/// first failure.
pub open spec fn runs<F, M, G>(
    ops: Seq<AggregateOp<F, M, G>>,
    current: Seq<DataPoint>,
    pending: Seq<WindowView>,
    r: Outcome,
) -> bool where
    F: Fn(&DataPoint) -> bool,
    M: Fn(&DataPoint) -> DataPoint,
    G: Fn(&DataPoint) -> DimensionKey,

    decreases ops.len(),
{
    if ops.len() == 0 {
        r == Ok::<Seq<WindowView>, AggregatorError>(pending)
    } else {
        let rest = ops.drop_first();
        match ops[0] {
            AggregateOp::Filter { predicate } => exists|next: Seq<DataPoint>| #[trigger]
                kept(predicate, current, next) && runs(rest, next, pending, r),
            AggregateOp::Transform { transform } => exists|next: Seq<DataPoint>| #[trigger]
                mapped(transform, current, next) && runs(rest, next, pending, r),
            AggregateOp::GroupBy { key_fn } => exists|
                keys: Seq<DimensionKey>,
                groups: Seq<GroupView>,
                subs: Seq<Outcome>,
            |
                #![trigger keyed(key_fn, current, keys), is_grouping(key_views(keys), groups), gathers(pending, subs)]
                {
                    &&& keyed(key_fn, current, keys)
                    &&& is_grouping(key_views(keys), groups)
                    &&& stops_at_failure(subs, groups.len())
                    &&& forall|g: int|
                        #![trigger subs[g]]
                        0 <= g < subs.len() ==> runs(
                            rest,
                            part_of(current, groups[g].1),
                            Seq::<WindowView>::empty(),
                            subs[g],
                        )
                    &&& r == gathers(pending, subs)
                },
            AggregateOp::Aggregate { aggregation } => runs(
                rest,
                current,
                pending.push(whole(current)),
                r,
            ),
            AggregateOp::Window { config } => exists|w: Outcome| #[trigger]
                routes_to(config, samples_of(current), w) && match w {
                    Ok(windows) => runs(rest, current, windows, r),
                    Err(e) => r == Err::<Seq<WindowView>, AggregatorError>(e),
                },
        }
    }
}

/// Whether every function of the stages can be called on every sample.
pub open spec fn callable<F, M, G>(ops: Seq<AggregateOp<F, M, G>>) -> bool where
    F: Fn(&DataPoint) -> bool,
    M: Fn(&DataPoint) -> DataPoint,
    G: Fn(&DataPoint) -> DimensionKey,
 {
    forall|i: int|
        0 <= i < ops.len() ==> match #[trigger] ops[i] {
            AggregateOp::Filter { predicate } => forall|p: DataPoint|
                call_requires(predicate, (&p,)),
            AggregateOp::Transform { transform } => forall|p: DataPoint|
                call_requires(transform, (&p,)),
            AggregateOp::GroupBy { key_fn } => forall|p: DataPoint| call_requires(key_fn, (&p,)),
            _ => true,
        }
}

/// Whether every place lies inside a store of this length.
spec fn inside(places: Seq<usize>, len: nat) -> bool {
    forall|j: int| 0 <= j < places.len() ==> places[j] < len
}

/// The timestamps and patterns of the samples at the given places.
fn collect_samples(store: &Vec<DataPoint>, places: &Vec<usize>) -> (r: Vec<Sample>)
    requires
        inside(places@, store@.len()),
    ensures
        r@ == samples_of(part_of(store@, places@)),
{
    let mut out: Vec<Sample> = Vec::new();
    let mut j: usize = 0;
    while j < places.len()
        invariant
            j <= places@.len(),
            inside(places@, store@.len()),
            out@ == samples_of(part_of(store@, places@)).take(j as int),
        decreases places@.len() - j,
    {
        let p = &store[places[j]];
        out.push((p.timestamp, p.value));
        assert(out@ =~= samples_of(part_of(store@, places@)).take(j + 1));
        j += 1;
    }
    assert(out@ =~= samples_of(part_of(store@, places@)));
    out
}

/// The places of the samples for which the predicate answers `true`.
fn filter_stage<F: Fn(&DataPoint) -> bool>(
    predicate: &F,
    store: &Vec<DataPoint>,
    places: &Vec<usize>,
) -> (r: Vec<usize>)
    requires
        inside(places@, store@.len()),
        forall|p: DataPoint| call_requires(*predicate, (&p,)),
    ensures
        inside(r@, store@.len()),
        kept(*predicate, part_of(store@, places@), part_of(store@, r@)),
{
    let mut out: Vec<usize> = Vec::new();
    let mut j: usize = 0;
    assert(part_of(store@, places@.take(0)) =~= Seq::<DataPoint>::empty());
    while j < places.len()
        invariant
            j <= places@.len(),
            inside(places@, store@.len()),
            inside(out@, store@.len()),
            forall|p: DataPoint| call_requires(*predicate, (&p,)),
            kept(*predicate, part_of(store@, places@.take(j as int)), part_of(store@, out@)),
        decreases places@.len() - j,
    {
        let place = places[j];
        let ghost before = out@;
        let keep = predicate(&store[place]);
        if keep {
            out.push(place);
        }
        proof {
            let input = part_of(store@, places@.take(j + 1));
            assert(input.drop_last() =~= part_of(store@, places@.take(j as int)));
            assert(input.last() == store@[place as int]);
            if keep {
                assert(part_of(store@, out@).drop_last() =~= part_of(store@, before));
                assert(part_of(store@, out@).last() == store@[place as int]);
            }
        }
        j += 1;
    }
    assert(places@.take(j as int) =~= places@);
    out
}

/// Puts the transform of each sample at the given places into the store
/// and hands back the places of the new samples.
fn transform_stage<M: Fn(&DataPoint) -> DataPoint>(
    transform: &M,
    store: &mut Vec<DataPoint>,
    places: &Vec<usize>,
) -> (r: Vec<usize>)
    requires
        inside(places@, old(store)@.len()),
        forall|p: DataPoint| call_requires(*transform, (&p,)),
    ensures
        inside(r@, final(store)@.len()),
        old(store)@.len() <= final(store)@.len(),
        final(store)@.take(old(store)@.len() as int) == old(store)@,
        mapped(*transform, part_of(old(store)@, places@), part_of(final(store)@, r@)),
{
    let ghost held = store@;
    let mut out: Vec<usize> = Vec::new();
    let mut j: usize = 0;
    assert(store@.take(held.len() as int) =~= held);
    while j < places.len()
        invariant
            j <= places@.len(),
            inside(places@, held.len()),
            inside(out@, store@.len()),
            held.len() <= store@.len(),
            store@.take(held.len() as int) == held,
            out@.len() == j,
            forall|p: DataPoint| call_requires(*transform, (&p,)),
            forall|k: int|
                0 <= k < j ==> #[trigger] call_ensures(
                    *transform,
                    (&part_of(held, places@)[k],),
                    store@[out@[k] as int],
                ),
        decreases places@.len() - j,
    {
        let place = places[j];
        assert(store@[place as int] == store@.take(held.len() as int)[place as int]);
        let made = transform(&store[place]);
        let ghost before = store@;
        let ghost out_before = out@;
        let at = store.len();
        store.push(made);
        out.push(at);
        proof {
            assert(store@.take(held.len() as int) =~= before.take(held.len() as int));
            assert forall|k: int| 0 <= k < j + 1 implies #[trigger] call_ensures(
                *transform,
                (&part_of(held, places@)[k],),
                store@[out@[k] as int],
            ) by {
                if k < j {
                    assert(out@[k] == out_before[k]);
                    assert(store@[out@[k] as int] == before[out_before[k] as int]);
                    assert(call_ensures(
                        *transform,
                        (&part_of(held, places@)[k],),
                        before[out_before[k] as int],
                    ));
                }
            }
        }
        j += 1;
    }
    proof {
        let input = part_of(held, places@);
        let output = part_of(store@, out@);
        assert forall|i: int| 0 <= i < input.len() implies #[trigger] call_ensures(
            *transform,
            (&input[i],),
            output[i],
        ) by {
            assert(call_ensures(*transform, (&part_of(held, places@)[i],), store@[out@[i] as int]));
        }
    }
    out
}

/// The key that the function gives each sample at the given places.
fn key_stage<G: Fn(&DataPoint) -> DimensionKey>(
    key_fn: &G,
    store: &Vec<DataPoint>,
    places: &Vec<usize>,
) -> (r: Vec<DimensionKey>)
    requires
        inside(places@, store@.len()),
        forall|p: DataPoint| call_requires(*key_fn, (&p,)),
    ensures
        keyed(*key_fn, part_of(store@, places@), r@),
{
    let mut out: Vec<DimensionKey> = Vec::new();
    let mut j: usize = 0;
    while j < places.len()
        invariant
            j <= places@.len(),
            inside(places@, store@.len()),
            out@.len() == j,
            forall|p: DataPoint| call_requires(*key_fn, (&p,)),
            forall|k: int|
                0 <= k < j ==> #[trigger] call_ensures(
                    *key_fn,
                    (&part_of(store@, places@)[k],),
                    out@[k],
                ),
        decreases places@.len() - j,
    {
        let key = key_fn(&store[places[j]]);
        let ghost before = out@;
        out.push(key);
        proof {
            assert forall|k: int| 0 <= k < j + 1 implies #[trigger] call_ensures(
                *key_fn,
                (&part_of(store@, places@)[k],),
                out@[k],
            ) by {
                if k < j {
                    assert(out@[k] == before[k]);
                }
            }
        }
        j += 1;
    }
    out
}

/// The places in the store of the samples of one group.
fn group_places(places: &Vec<usize>, group: &Vec<usize>) -> (r: Vec<usize>)
    requires
        inside(group@, places@.len()),
    ensures
        r@ == group@.map_values(|j: usize| places@[j as int]),
{
    let mut out: Vec<usize> = Vec::new();
    let mut k: usize = 0;
    while k < group.len()
        invariant
            k <= group@.len(),
            inside(group@, places@.len()),
            out@ == group@.map_values(|j: usize| places@[j as int]).take(k as int),
        decreases group@.len() - k,
    {
        out.push(places[group[k]]);
        assert(out@ =~= group@.map_values(|j: usize| places@[j as int]).take(k + 1));
        k += 1;
    }
    assert(out@ =~= group@.map_values(|j: usize| places@[j as int]));
    out
}

/// Runs the stages from `from` on over the samples at the given places of
/// the store. Samples that a transform makes are added to the store; no
/// sample in it is changed.
fn run<F, M, G>(
    ops: &Vec<AggregateOp<F, M, G>>,
    from: usize,
    store: &mut Vec<DataPoint>,
    places: Vec<usize>,
    pending: Vec<WindowBatch>,
) -> (r: Result<Vec<WindowBatch>, AggregatorError>) where
    F: Fn(&DataPoint) -> bool,
    M: Fn(&DataPoint) -> DataPoint,
    G: Fn(&DataPoint) -> DimensionKey,

    requires
        from <= ops@.len(),
        callable(ops@),
        inside(places@, old(store)@.len()),
    ensures
        runs(
            ops@.skip(from as int),
            part_of(old(store)@, places@),
            views(pending@),
            outcome_of(r),
        ),
        old(store)@.len() <= final(store)@.len(),
        final(store)@.take(old(store)@.len() as int) == old(store)@,
    decreases ops@.len() - from,
{
    let ghost held = store@;
    let ghost current = part_of(held, places@);
    let ghost stages = ops@.skip(from as int);
    assert(store@.take(held.len() as int) =~= held);
    if from >= ops.len() {
        return Ok(pending);
    }
    let ghost rest = ops@.skip(from + 1);
    assert(stages[0] == ops@[from as int]);
    assert(stages.drop_first() =~= rest);
    match &ops[from] {
        AggregateOp::Filter { predicate } => {
            let next = filter_stage(predicate, store, &places);
            run(ops, from + 1, store, next, pending)
        },
        AggregateOp::Transform { transform } => {
            let next = transform_stage(transform, store, &places);
            let ghost grown = store@;
            let r = run(ops, from + 1, store, next, pending);
            assert(store@.take(held.len() as int) =~= grown.take(held.len() as int));
            r
        },
        AggregateOp::GroupBy { key_fn } => {
            let keys = key_stage(key_fn, store, &places);
            let groups = group_by_key(&keys);
            let ghost parts = group_views(groups@);
            let ghost before = views(pending@);
            let mut done = pending;
            let mut failure: Option<AggregatorError> = None;
            let mut g: usize = 0;
            let behind: usize = from + 1;
            let count = keys.len();
            let ghost mut subs: Seq<Outcome> = Seq::empty();
            while g < groups.len() && failure.is_none()
                invariant
                    g <= groups@.len(),
                    behind == from + 1,
                    behind <= ops@.len(),
                    callable(ops@),
                    rest == ops@.skip(from + 1),
                    inside(places@, held.len()),
                    held.len() <= store@.len(),
                    store@.take(held.len() as int) == held,
                    current == part_of(held, places@),
                    keys@.len() == count,
                    keys@.len() == places@.len(),
                    parts == group_views(groups@),
                    parts.len() == groups@.len(),
                    is_grouping(key_views(keys@), parts),
                    subs.len() == g,
                    forall|k: int|
                        #![trigger subs[k]]
                        0 <= k < g ==> runs(
                            rest,
                            part_of(current, parts[k].1),
                            Seq::<WindowView>::empty(),
                            subs[k],
                        ),
                    forall|k: int| 0 <= k < g - 1 ==> (#[trigger] subs[k]) is Ok,
                    match failure {
                        None => (g > 0 ==> subs.last() is Ok) && gathers(before, subs) == Ok::<
                            Seq<WindowView>,
                            AggregatorError,
                        >(views(done@)),
                        Some(e) => g > 0 && subs.last() is Err && gathers(before, subs) == Err::<
                            Seq<WindowView>,
                            AggregatorError,
                        >(e),
                    },
                decreases groups@.len() - g,
            {
                let ghost so_far = views(done@);
                proof {
                    assert(key_views(keys@).len() == keys@.len());
                    lemma_places_of(key_views(keys@), parts[g as int].0);
                    assert(parts[g as int].1 == groups@[g as int].1@);
                }
                let part = group_places(&places, &groups[g].1);
                let ghost now = store@;
                proof {
                    assert forall|j: int| 0 <= j < part@.len() implies part@[j] < now.len() by {}
                    assert(part_of(now, part@) =~= part_of(current, parts[g as int].1)) by {
                        assert forall|j: int| 0 <= j < part@.len() implies part_of(now, part@)[j]
                            == part_of(current, parts[g as int].1)[j] by {
                            let place = part@[j];
                            assert(now[place as int] == now.take(held.len() as int)[place as int]);
                        }
                    }
                }
                let fresh: Vec<WindowBatch> = Vec::new();
                assert(views(fresh@) =~= Seq::<WindowView>::empty());
                let sub = run(ops, behind, store, part, fresh);
                let ghost grown = subs.push(outcome_of(sub));
                proof {
                    assert(now.len() <= store@.len());
                    assert(store@.take(held.len() as int) =~= now.take(held.len() as int));
                    assert(grown.drop_last() =~= subs);
                    assert forall|k: int| #![trigger grown[k]] 0 <= k < g + 1 implies runs(
                        rest,
                        part_of(current, parts[k].1),
                        Seq::<WindowView>::empty(),
                        grown[k],
                    ) by {
                        if k < g {
                            assert(grown[k] == subs[k]);
                        }
                    }
                    assert forall|k: int| 0 <= k < g implies (#[trigger] grown[k]) is Ok by {
                        assert(grown[k] == subs[k]);
                        if k == g - 1 {
                            assert(subs.last() is Ok);
                        }
                    }
                    subs = grown;
                }
                match sub {
                    Ok(mut out) => {
                        let ghost added = views(out@);
                        done.append(&mut out);
                        assert(views(done@) =~= so_far + added);
                    },
                    Err(e) => {
                        failure = Some(e);
                    },
                }
                g += 1;
            }
            proof {
                assert(stops_at_failure(subs, parts.len()));
            }
            match failure {
                Some(e) => Err(e),
                None => Ok(done),
            }
        },
        AggregateOp::Aggregate { aggregation } => {
            let samples = collect_samples(store, &places);
            let ghost before = views(pending@);
            let mut pending = pending;
            pending.push(WindowBatch { window_start: 0, window_end: 0, samples });
            assert(views(pending@) =~= before.push(whole(current)));
            run(ops, from + 1, store, places, pending)
        },
        AggregateOp::Window { config } => {
            let samples = collect_samples(store, &places);
            let routed = window_batches(*config, &samples);
            assert(routes_to(*config, samples_of(current), outcome_of(routed)));
            match routed {
                Ok(batches) => run(ops, from + 1, store, places, batches),
                Err(e) => Err(e),
            }
        },
    }
}

/// A list of stages.
pub struct AggregationPipeline<F, M, G> {
    operations: Vec<AggregateOp<F, M, G>>,
}

impl<F, M, G> View for AggregationPipeline<F, M, G> {
    type V = Seq<AggregateOp<F, M, G>>;

    closed spec fn view(&self) -> Seq<AggregateOp<F, M, G>> {
        self.operations@
    }
}

impl<F, M, G> AggregationPipeline<F, M, G> where
    F: Fn(&DataPoint) -> bool,
    M: Fn(&DataPoint) -> DataPoint,
    G: Fn(&DataPoint) -> DimensionKey,
 {
    /// A pipeline without stages.
    pub fn new() -> (r: Self)
        ensures
            r@.len() == 0,
    {
        AggregationPipeline { operations: Vec::new() }
    }

    /// The pipeline with a filter as its last stage.
    pub fn filter(self, predicate: F) -> (r: Self)
        ensures
            r@ == self@.push(AggregateOp::Filter { predicate }),
    {
        let mut operations = self.operations;
        operations.push(AggregateOp::Filter { predicate });
        AggregationPipeline { operations }
    }

    /// The pipeline with a transform as its last stage.
    pub fn map(self, transform: M) -> (r: Self)
        ensures
            r@ == self@.push(AggregateOp::Transform { transform }),
    {
        let mut operations = self.operations;
        operations.push(AggregateOp::Transform { transform });
        AggregationPipeline { operations }
    }

    /// The pipeline with a grouping as its last stage.
    pub fn group_by(self, key_fn: G) -> (r: Self)
        ensures
            r@ == self@.push(AggregateOp::GroupBy { key_fn }),
    {
        let mut operations = self.operations;
        operations.push(AggregateOp::GroupBy { key_fn });
        AggregationPipeline { operations }
    }

    /// The pipeline with a reduction as its last stage.
    pub fn aggregate(self, aggregation: AggregationType) -> (r: Self)
        ensures
            r@ == self@.push(AggregateOp::Aggregate { aggregation }),
    {
        let mut operations = self.operations;
        operations.push(AggregateOp::Aggregate { aggregation });
        AggregationPipeline { operations }
    }

    /// The pipeline with a window stage as its last stage.
    pub fn window(self, config: WindowConfig) -> (r: Self)
        ensures
            r@ == self@.push(AggregateOp::Window { config }),
    {
        let mut operations = self.operations;
        operations.push(AggregateOp::Window { config });
        AggregationPipeline { operations }
    }

    /// Runs the stages over the batch and hands back the pending results:
    /// for each, its bounds and the samples that its statistics are taken
    /// over. A window stage that cannot route its samples ends the run
    /// with its failure.
    pub fn execute(&self, points: Vec<DataPoint>) -> (r: Result<Vec<WindowBatch>, AggregatorError>)
        requires
            callable(self@),
        ensures
            runs(self@, points@, Seq::<WindowView>::empty(), outcome_of(r)),
    {
        let mut store = points;
        let mut places: Vec<usize> = Vec::new();
        let mut i: usize = 0;
        while i < store.len()
            invariant
                i <= store@.len(),
                places@.len() == i,
                forall|j: int| 0 <= j < i ==> places@[j] == j,
            decreases store@.len() - i,
        {
            places.push(i);
            i += 1;
        }
        let pending: Vec<WindowBatch> = Vec::new();
        proof {
            assert(part_of(store@, places@) =~= points@);
            assert(views(pending@) =~= Seq::<WindowView>::empty());
            assert(self@.skip(0) =~= self@);
        }
        run(&self.operations, 0, &mut store, places, pending)
    }
}

impl<F, M, G> Default for AggregationPipeline<F, M, G> where
    F: Fn(&DataPoint) -> bool,
    M: Fn(&DataPoint) -> DataPoint,
    G: Fn(&DataPoint) -> DimensionKey,
 {
    /// A pipeline without stages.
    fn default() -> (r: Self)
        ensures
            r@.len() == 0,
    {
        AggregationPipeline::new()
    }
}

} // verus!
