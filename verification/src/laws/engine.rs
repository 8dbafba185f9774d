//! What a cycle shows: which reading a series takes, what its row says, what goes into
//! the history, and how the providers stand.
use crate::catalog;
use crate::catalog::{CatalogModel, DescriptorModel, SampleModel};
use crate::engine;
use crate::engine::{CycleModel, EngineModel, EngineTelemetry, HistoryEvent};
use crate::model::{
    KeyModel, MetricReading, Nanos, ProviderHealth, ReadingOutcome, UnavailableReason,
};
use crate::sample_order;
use crate::seqs;
use crate::series;
use crate::series::{
    BaselineOrigin, CounterContinuity, ProjectedValue, RawSeries, SeriesState, SeriesValue,
};
use crate::text;
use vstd::prelude::*;

verus! {

/// The priority of a provider for a metric is the first place at which the metric names it
/// as a source.
pub proof fn priorities_are_places(descriptor: DescriptorModel, provider: Seq<char>)
    ensures
        match catalog::priority_of(descriptor, provider) {
            Some(at) => {
                &&& 0 <= at < descriptor.sources.len()
                &&& descriptor.sources[at].provider == provider
                &&& forall|j: int|
                    0 <= j < at ==> (#[trigger] descriptor.sources[j]).provider != provider
            },
            None => forall|j: int|
                0 <= j < descriptor.sources.len() ==> (#[trigger] descriptor.sources[j]).provider
                    != provider,
        },
{
    let wanted = catalog::is_from(provider);
    seqs::lemma_first_where(descriptor.sources, wanted, descriptor.sources.len() as int);
    assert forall|j: int| 0 <= j < descriptor.sources.len() implies wanted(
        #[trigger] descriptor.sources[j],
    ) == (descriptor.sources[j].provider == provider) by {}
}

/// A metric is described by the first entry of the catalog that has its name.
pub proof fn metrics_are_found_by_name(catalog: CatalogModel, id: Seq<char>)
    ensures
        match catalog::metric_at(catalog, id) {
            Some(at) => 0 <= at < catalog.len() && catalog[at].id == id && forall|j: int|
                0 <= j < at ==> (#[trigger] catalog[j]).id != id,
            None => forall|j: int| 0 <= j < catalog.len() ==> (#[trigger] catalog[j]).id != id,
        },
{
    let wanted = catalog::has_id(id);
    seqs::lemma_first_where(catalog, wanted, catalog.len() as int);
    assert forall|j: int| 0 <= j < catalog.len() implies wanted(#[trigger] catalog[j]) == (
    catalog[j].id == id) by {}
}

/// A series takes a reading of its own identity, if there is one: one that has a value
/// rather than one that has none, and among those the one whose provider the metric names
/// first.
pub proof fn series_take_the_best_reading(
    catalog: CatalogModel,
    samples: Seq<SampleModel>,
    key: KeyModel,
    q: int,
    s: int,
)
    requires
        0 <= q < samples.len(),
        0 <= s < samples[q].readings.len(),
    ensures
        samples[q].readings[s].key == key ==> engine::candidate_of(catalog, samples, key) is Some,
        engine::candidate_of(catalog, samples, key) matches Some((p, r)) ==> {
            &&& 0 <= p < samples.len()
            &&& 0 <= r < samples[p].readings.len()
            &&& samples[p].readings[r].key == key
            &&& samples[q].readings[s].key == key && samples[q].readings[s].outcome is Observed
                ==> samples[p].readings[r].outcome is Observed
            &&& samples[q].readings[s].key == key && (samples[q].readings[s].outcome is Observed)
                == (samples[p].readings[r].outcome is Observed) ==> catalog::priority_in(
                catalog,
                key,
                samples[p].provider,
            )->0 <= catalog::priority_in(catalog, key, samples[q].provider)->0
        },
{
    let n = samples.len() as int;
    sample_order::lemma_candidate_is_best(catalog, samples, key, n, 0);
    assert(sample_order::is_scanned(samples, n, 0, q, s));
}

/// Whether a series of the cycle takes this reading.
pub open spec fn takes(cycle: CycleModel, i: int, p: int, r: int) -> bool {
    engine::candidate_of(cycle.catalog, cycle.samples, cycle.entries[i].key) == Some((p, r))
}

/// A series that takes a value has a row: its own identity and number, the metric's owner,
/// the provider that was read, and the value that was read when the provider was.
pub proof fn a_value_makes_a_row(cycle: CycleModel, i: int, p: int, r: int)
    requires
        0 <= i < cycle.entries.len() <= engine::MAX_ADMITTED_SERIES,
        takes(cycle, i, p, r),
        cycle.samples[p].readings[r].outcome is Observed,
        engine::entry_wf(cycle.catalog, cycle.entries[i], i),
        catalog::value_agrees(cycle.catalog, cycle.samples[p].readings[r]),
        cycle.samples[p].readings[r].key == cycle.entries[i].key,
        cycle.entries[i].state matches Some(state) ==> !engine::is_repeat(
            state,
            cycle.samples[p].provider,
            cycle.samples[p].finished_at,
        ),
    ensures
        ({
            let step = engine::step_at(cycle, i);
            let sample = cycle.samples[p];
            &&& step.row matches Some(row) && {
                &&& row.id == i + 1
                &&& row.key == cycle.entries[i].key
                &&& row.owner == cycle.catalog[catalog::metric_at(
                    cycle.catalog,
                    row.key.metric,
                )->0].owner
                &&& row.source == sample.provider
                &&& match sample.readings[r].outcome {
                    ReadingOutcome::Observed(MetricReading::Counter { value, .. }) => row.value
                        matches SeriesValue::Counter { current, interval, .. } && current == (
                    ProjectedValue::Fresh { value, observed_at: sample.finished_at })
                        && interval is Some,
                    ReadingOutcome::Observed(MetricReading::Gauge(value)) => row.value matches
                        SeriesValue::Gauge { current, .. } && current == (ProjectedValue::Fresh {
                        value,
                        observed_at: sample.finished_at,
                    }),
                    ReadingOutcome::Observed(MetricReading::State(words)) => row.value matches
                        SeriesValue::State { current, .. } && current == (ProjectedValue::Fresh {
                        value: words,
                        observed_at: sample.finished_at,
                    }),
                    _ => false,
                }
                &&& step.entry.state matches Some(state) && state.id == row.id && state.source
                    == row.source && !state.had_gap && state.first_seen == row.first_seen
                    && state.baseline_at == row.baseline_at && state.baseline_origin
                    == row.baseline_origin && state.last_projection == Some(
                    (sample.finished_at, row.value),
                )
            }
            &&& step.entry.key == cycle.entries[i].key
        }),
{
}

/// The first value of a series shows no change. The series counts as seen from the start of
/// the session if it is there in the first cycle, and else from its first reading.
pub proof fn first_values_begin_a_series(cycle: CycleModel, i: int, p: int, r: int)
    requires
        0 <= i < cycle.entries.len(),
        takes(cycle, i, p, r),
        cycle.samples[p].readings[r].outcome is Observed,
        cycle.entries[i].state is None,
    ensures
        ({
            let row = engine::step_at(cycle, i).row->0;
            let state = engine::step_at(cycle, i).entry.state->0;
            let at = cycle.samples[p].finished_at;
            &&& cycle.first_cycle ==> row.first_seen == 0 && row.baseline_at == 0
                && row.baseline_origin == BaselineOrigin::SessionStart
            &&& !cycle.first_cycle ==> row.first_seen == at && row.baseline_at == at
                && row.baseline_origin == BaselineOrigin::FirstObserved
            &&& match cycle.samples[p].readings[r].outcome {
                ReadingOutcome::Observed(MetricReading::Counter { value, bits }) => {
                    &&& row.value matches SeriesValue::Counter { interval, since_baseline, .. }
                        && interval == Some(
                            CounterContinuity::FirstSample,
                        ) && since_baseline is None
                    &&& state.raw == Some(
                        RawSeries::<Seq<char>>::Counter {
                            last: value,
                            bits,
                            last_at: at,
                            since_delta: 0,
                        },
                    )
                },
                ReadingOutcome::Observed(MetricReading::Gauge(value)) => {
                    &&& row.value matches SeriesValue::Gauge { interval, since_baseline, .. }
                        && interval is None && since_baseline is None
                    &&& state.raw matches Some(
                        RawSeries::Gauge { last, last_at, min, max, sum, count },
                    ) && last == value && last_at == at && min == value && max == value && sum
                        == value && count == 1
                },
                ReadingOutcome::Observed(MetricReading::State(words)) => {
                    &&& row.value matches SeriesValue::State {
                        changed_at,
                        continuous_for: Some(held),
                        ..
                    } && changed_at is None && row.baseline_at + held == at
                    &&& state.raw == Some(
                        RawSeries::State { last: words, last_at: at, changed_at: None },
                    )
                },
                _ => false,
            }
        }),
{
}

/// Whether a series goes on from what it kept: there was no gap and the source is the same.
pub open spec fn goes_on(state: SeriesState<Seq<char>>, source: Seq<char>) -> bool {
    !state.had_gap && state.source == source
}

/// A counter that goes on shows in its row what it grew by since the reading before and over
/// what time; the history takes the same.
pub proof fn counters_that_go_on_show_their_growth(cycle: CycleModel, i: int, p: int, r: int)
    requires
        0 <= i < cycle.entries.len(),
        takes(cycle, i, p, r),
        cycle.entries[i].state matches Some(state) && goes_on(state, cycle.samples[p].provider)
            && !engine::is_repeat(state, cycle.samples[p].provider, cycle.samples[p].finished_at),
        cycle.entries[i].key.metric != "linux.nic.driver_statistic"@,
        cycle.entries[i].state matches Some(state) && state.raw matches Some(
            RawSeries::Counter { last, last_at, .. },
        ) && cycle.samples[p].readings[r].outcome matches ReadingOutcome::Observed(
            MetricReading::Counter { value, .. },
        ) && last <= value && last_at <= cycle.samples[p].finished_at,
    ensures
        ({
            let step = engine::step_at(cycle, i);
            let at = cycle.samples[p].finished_at;
            cycle.entries[i].state matches Some(state) && state.raw matches Some(
                RawSeries::Counter { last, last_at, since_delta, .. },
            ) && cycle.samples[p].readings[r].outcome matches ReadingOutcome::Observed(
                MetricReading::Counter { value, .. },
            ) && step.row matches Some(row) && row.value matches SeriesValue::Counter {
                interval: Some(CounterContinuity::Continuous { delta, elapsed }),
                since_baseline,
                ..
            } && {
                &&& last + delta == value
                &&& last_at + elapsed == at
                &&& row.first_seen == state.first_seen && row.baseline_at == state.baseline_at
                    && row.baseline_origin == state.baseline_origin
                &&& since_baseline matches Some(span) ==> state.baseline_at + span.elapsed == at
                    && (since_delta + delta <= u64::MAX ==> span.delta == since_delta + delta)
                &&& step.event matches Some(
                    HistoryEvent::Observed {
                        series,
                        start,
                        end,
                        value: taken,
                        delta: grown,
                        interval: time,
                        reset,
                    },
                ) && series == state.id && end == at && start == last_at && taken == value && grown
                    == delta && time == elapsed && !reset
            }
        }),
{
}

/// A gauge that goes on shows in its row how it changed since the reading before.
pub proof fn gauges_that_go_on_show_their_change(cycle: CycleModel, i: int, p: int, r: int)
    requires
        0 <= i < cycle.entries.len(),
        takes(cycle, i, p, r),
        cycle.entries[i].state matches Some(state) && goes_on(state, cycle.samples[p].provider)
            && !engine::is_repeat(state, cycle.samples[p].provider, cycle.samples[p].finished_at),
        cycle.entries[i].key.metric != "linux.nic.driver_statistic"@,
        cycle.entries[i].state matches Some(state) && state.raw matches Some(
            RawSeries::Gauge { last_at, .. },
        ) && cycle.samples[p].readings[r].outcome matches ReadingOutcome::Observed(
            MetricReading::Gauge(_),
        ) && last_at < cycle.samples[p].finished_at,
    ensures
        ({
            let step = engine::step_at(cycle, i);
            let at = cycle.samples[p].finished_at;
            cycle.entries[i].state matches Some(state) && state.raw matches Some(
                RawSeries::Gauge { last, last_at, .. },
            ) && cycle.samples[p].readings[r].outcome matches ReadingOutcome::Observed(
                MetricReading::Gauge(value),
            ) && step.row matches Some(row) && row.value matches SeriesValue::Gauge {
                interval: Some(change),
                since_baseline,
                ..
            } && {
                &&& last + change.delta == value
                &&& last_at + change.elapsed == at
                &&& since_baseline matches Some(summary) ==> summary.min <= value <= summary.max
                    && state.baseline_at + summary.elapsed == at
                &&& step.event matches Some(
                    HistoryEvent::Observed { series, start, end, value: taken, delta, interval, reset },
                ) && series == state.id && end == at && start == at && taken == value && delta == 0
                    && interval == 0 && !reset
            }
        }),
{
}

/// A reading that a provider reports as missing is shown as missing for that reason, with
/// the provider that said so, and opens a gap.
pub proof fn reported_gaps_are_shown(cycle: CycleModel, i: int, p: int, r: int)
    requires
        0 <= i < cycle.entries.len() <= engine::MAX_ADMITTED_SERIES,
        takes(cycle, i, p, r),
        cycle.samples[p].readings[r].outcome is Unavailable,
        engine::entry_wf(cycle.catalog, cycle.entries[i], i),
    ensures
        ({
            let step = engine::step_at(cycle, i);
            let sample = cycle.samples[p];
            &&& sample.readings[r].outcome matches ReadingOutcome::Unavailable(reason)
                && step.row matches Some(row) && row.key == cycle.entries[i].key && row.id == i + 1
                && row.source == sample.provider && (match row.value {
                SeriesValue::Counter { current, .. } => current == (
                ProjectedValue::<u64>::Unavailable { reason }),
                SeriesValue::Gauge { current, .. } => current == (
                ProjectedValue::<u64>::Unavailable { reason }),
                SeriesValue::State { current, .. } => current == (
                ProjectedValue::<Seq<char>>::Unavailable { reason }),
            })
            &&& step.entry.state matches Some(state) && state.had_gap
            &&& cycle.entries[i].state matches Some(state) ==> (if state.had_gap {
                step.event is None
            } else {
                step.event == Some(HistoryEvent::Gap { series: state.id, at: cycle.elapsed })
            }) && (step.entry.state->0).raw == state.raw
            &&& cycle.entries[i].state is None ==> step.event == Some(
                HistoryEvent::Gap { series: (i + 1) as u64, at: cycle.elapsed },
            )
        }),
{
}

/// A series without a reading shows what its provider allows: its last value as old, for
/// the reason that the provider failed or was incomplete, that it is missing where the
/// provider delivered everything, and nothing where the provider cannot be read or was not
/// asked. Its gap is recorded once.
pub proof fn unread_series_show_what_their_provider_allows(cycle: CycleModel, i: int)
    requires
        0 <= i < cycle.entries.len(),
        engine::candidate_of(cycle.catalog, cycle.samples, cycle.entries[i].key) is None,
        cycle.entries[i].state matches Some(state) && !(cycle.focus matches Some(allowed)
            && !allowed.contains(state.source)),
    ensures
        ({
            let step = engine::step_at(cycle, i);
            let health = engine::health_of(cycle.samples, cycle.healths)(
                (cycle.entries[i].state->0).source,
            );
            cycle.entries[i].state matches Some(state) && {
                &&& step.entry.state matches Some(after) && after.had_gap && after.raw == state.raw
                    && after.id == state.id && after.source == state.source
                &&& step.event is Some <==> !state.had_gap
                &&& step.event matches Some(event) ==> event == (HistoryEvent::Gap {
                    series: state.id,
                    at: cycle.elapsed,
                })
                &&& step.row is Some <==> (health matches Some(ProviderHealth::Fresh)) || (health
                    matches Some(ProviderHealth::Partial { .. })) || (health matches Some(
                    ProviderHealth::Stale { .. },
                ))
                &&& step.row matches Some(row) ==> {
                    &&& row.id == state.id && row.source == state.source && row.key
                        == cycle.entries[i].key && row.first_seen == state.first_seen
                        && row.baseline_at == state.baseline_at
                    &&& health == Some(ProviderHealth::<Seq<char>>::Fresh) || state.raw is None
                        ==> is_missing(row.value)
                    &&& state.raw matches Some(raw) ==> {
                        &&& health matches Some(ProviderHealth::Stale { cause, .. }) ==> shows_old(
                            row.value,
                            raw,
                            cycle.elapsed,
                            cause.code,
                        )
                        &&& health matches Some(ProviderHealth::Partial { warning })
                            ==> shows_old(row.value, raw, cycle.elapsed, warning.code)
                    }
                }
            }
        }),
{
}

/// Whether a value is shown as missing.
pub open spec fn is_missing(value: SeriesValue<Seq<char>>) -> bool {
    let reason = UnavailableReason::Missing;
    match value {
        SeriesValue::Counter { current, interval, since_baseline } => current == (
        ProjectedValue::<u64>::Unavailable { reason }) && interval is None && since_baseline is None,
        SeriesValue::Gauge { current, interval, since_baseline } => current == (
        ProjectedValue::<u64>::Unavailable { reason }) && interval is None && since_baseline is None,
        SeriesValue::State { current, changed_at, continuous_for } => current == (
        ProjectedValue::<Seq<char>>::Unavailable { reason }) && changed_at is None
            && continuous_for is None,
    }
}

/// Whether a value is the kept one, shown as old for a reason.
pub open spec fn shows_old(
    value: SeriesValue<Seq<char>>,
    raw: RawSeries<Seq<char>>,
    now: Nanos,
    why: crate::model::MonitorErrorCode,
) -> bool {
    match (value, raw) {
        (
            SeriesValue::Counter {
                current: ProjectedValue::Stale { last, observed_at, age, cause },
                interval: None,
                since_baseline: None,
            },
            RawSeries::Counter { last: kept, last_at, .. },
        ) => last == kept && observed_at == last_at && cause == why && (last_at <= now ==> last_at
            + age == now),
        (
            SeriesValue::Gauge {
                current: ProjectedValue::Stale { last, observed_at, age, cause },
                interval: None,
                since_baseline: None,
            },
            RawSeries::Gauge { last: kept, last_at, .. },
        ) => last == kept && observed_at == last_at && cause == why && (last_at <= now ==> last_at
            + age == now),
        (
            SeriesValue::State {
                current: ProjectedValue::Stale { last, observed_at, age, cause },
                changed_at: None,
                continuous_for: None,
            },
            RawSeries::State { last: kept, last_at, .. },
        ) => last == kept && observed_at == last_at && cause == why && (last_at <= now ==> last_at
            + age == now),
        _ => false,
    }
}

/// A series whose provider is left out is not shown, and stays as it is.
pub proof fn left_out_series_are_not_shown(cycle: CycleModel, i: int)
    requires
        0 <= i < cycle.entries.len(),
        engine::candidate_of(cycle.catalog, cycle.samples, cycle.entries[i].key) is None,
        cycle.entries[i].state matches Some(state) && cycle.focus matches Some(allowed)
            && !allowed.contains(state.source),
    ensures
        engine::step_at(cycle, i).row is None,
        engine::step_at(cycle, i).event is None,
        engine::step_at(cycle, i).entry == cycle.entries[i],
{
}

/// Leaving a provider out ends the counting of its counters, and of nothing else: the next
/// reading of one starts anew. Series of other providers, gauges and states stay.
pub proof fn a_focus_ends_the_counting_of_what_it_leaves_out(
    engine: EngineModel,
    focus: Option<Seq<Seq<char>>>,
    i: int,
)
    requires
        0 <= i < engine.entries.len(),
    ensures
        ({
            let after = engine::with_focus(engine, focus);
            let out = engine.entries[i].state matches Some(state) && focus matches Some(allowed)
                && !allowed.contains(state.source) && (
                    state.raw is None || state.raw->0 is Counter
                );
            &&& after.focus == focus
            &&& after.entries.len() == engine.entries.len()
            &&& after.entries[i].key == engine.entries[i].key
            &&& engine.focus == focus ==> after == engine
            &&& engine.focus != focus && out ==> (after.entries[i].state matches Some(state)
                && state.had_gap && state.last_projection is None && state.raw == (
            engine.entries[i].state->0).raw && state.id == (engine.entries[i].state->0).id)
            &&& engine.focus != focus && !out ==> after.entries[i] == engine.entries[i]
            &&& after.catalog == engine.catalog && after.sequence == engine.sequence
                && after.successes == engine.successes && after.telemetry == engine.telemetry
        }),
{
}

/// A provider that delivered, wholly or in part, is shown as it is. One that failed is shown
/// as stale, since its last success and for its own reason, if it ever delivered, and else
/// as failed.
pub proof fn healths_say_since_when_a_provider_fails(
    health: ProviderHealth<Seq<char>>,
    finished_at: Nanos,
    last_success: Option<Nanos>,
)
    ensures
        ({
            let shown = engine::projected_health(health, finished_at, last_success);
            &&& health is Fresh || health is Partial || last_success is None ==> shown == health
            &&& !(health is Fresh) && !(health is Partial) && last_success is Some ==> {
                &&& shown matches ProviderHealth::Stale { last_success_at, age, cause } && Some(
                    last_success_at,
                ) == last_success && (last_success_at <= finished_at ==> last_success_at + age
                    == finished_at) && match health {
                    ProviderHealth::Unsupported { reason } => cause == reason,
                    ProviderHealth::PermissionDenied { reason } => cause == reason,
                    ProviderHealth::Error { error } => cause == error,
                    ProviderHealth::Stale { cause: before, .. } => cause == before,
                    _ => false,
                }
            }
        }),
{
}

/// After samples of different providers, the last success of a provider is when its sample
/// was finished if it delivered readings, and what it was before if it did not.
pub proof fn successes_are_when_a_provider_delivered(
    successes: Map<Seq<char>, Nanos>,
    samples: Seq<SampleModel>,
    n: int,
    i: int,
)
    requires
        0 <= i < n <= samples.len(),
        crate::cycles::distinct_providers(samples),
    ensures
        ({
            let after = engine::successes_after(successes, samples, n);
            let sample = samples[i];
            &&& sample.health is Fresh || sample.health is Partial ==> after.contains_key(
                sample.provider,
            ) && after[sample.provider] == sample.finished_at
            &&& !(sample.health is Fresh || sample.health is Partial) ==> (after.contains_key(
                sample.provider,
            ) <==> successes.contains_key(sample.provider)) && after[sample.provider]
                == successes[sample.provider]
        }),
    decreases n,
{
    if n - 1 > i {
        successes_are_when_a_provider_delivered(successes, samples, n - 1, i);
        assert(samples[i].provider != samples[n - 1].provider);
    } else {
        lemma_not_yet(successes, samples, n - 1, i);
    }
}

proof fn lemma_not_yet(
    successes: Map<Seq<char>, Nanos>,
    samples: Seq<SampleModel>,
    n: int,
    i: int,
)
    requires
        0 <= n <= i < samples.len(),
        crate::cycles::distinct_providers(samples),
    ensures
        ({
            let after = engine::successes_after(successes, samples, n);
            let provider = samples[i].provider;
            (after.contains_key(provider) <==> successes.contains_key(provider)) && after[provider]
                == successes[provider]
        }),
    decreases n,
{
    if n > 0 {
        lemma_not_yet(successes, samples, n - 1, i);
        assert(samples[n - 1].provider != samples[i].provider);
    }
}

/// As many readings are counted as unavailable as there are.
pub proof fn unavailable_readings_are_counted(readings: Seq<crate::model::ReadingModel>, n: int)
    requires
        0 <= n <= readings.len(),
    ensures
        engine::unavailable_count(readings, n) == readings.take(n).filter(
            |reading: crate::model::ReadingModel| !(reading.outcome is Observed),
        ).len(),
    decreases n,
{
    reveal(Seq::filter);
    let missing = |reading: crate::model::ReadingModel| !(reading.outcome is Observed);
    if n > 0 {
        unavailable_readings_are_counted(readings, n - 1);
        assert(readings.take(n).drop_last() =~= readings.take(n - 1));
    }
}

/// Every sample has its row among the providers, and no other: what it was, when it was
/// finished, how long it took, and how many of its readings are missing.
pub proof fn providers_have_their_rows(
    samples: Seq<SampleModel>,
    healths: Seq<ProviderHealth<Seq<char>>>,
    n: int,
    i: int,
)
    requires
        0 <= i < n <= samples.len(),
        samples.len() == healths.len(),
    ensures
        engine::provider_rows_upto(samples, healths, n).len() == n,
        exists|a: int|
            0 <= a < n && {
                let row = #[trigger] engine::provider_rows_upto(samples, healths, n)[a];
                &&& row.provider == samples[i].provider
                &&& row.health == healths[i]
                &&& row.last_attempt_at == samples[i].finished_at
                &&& row.collection_duration == samples[i].collection_duration
                &&& row.unavailable_readings == engine::unavailable_count(
                    samples[i].readings,
                    samples[i].readings.len() as int,
                ) as u32
            },
    decreases n,
{
    let before = engine::provider_rows_upto(samples, healths, n - 1);
    let after = engine::provider_rows_upto(samples, healths, n);
    let row = engine::provider_row(samples[n - 1], healths[n - 1]);
    let at = engine::row_slot(before, row.provider);
    lemma_slot_within(before, row.provider);
    lemma_rows_counted(samples, healths, n - 1);
    if i == n - 1 {
        assert(after[at] == row);
    } else {
        providers_have_their_rows(samples, healths, n - 1, i);
        let a = choose|a: int|
            0 <= a < n - 1 && {
                let row = #[trigger] before[a];
                &&& row.provider == samples[i].provider
                &&& row.health == healths[i]
                &&& row.last_attempt_at == samples[i].finished_at
                &&& row.collection_duration == samples[i].collection_duration
                &&& row.unavailable_readings == engine::unavailable_count(
                    samples[i].readings,
                    samples[i].readings.len() as int,
                ) as u32
            };
        if a < at {
            assert(after[a] == before[a]);
        } else {
            assert(after[a + 1] == before[a]);
        }
    }
}

proof fn lemma_slot_within(rows: Seq<engine::ProviderRowModel>, provider: Seq<char>)
    ensures
        0 <= engine::row_slot(rows, provider) <= rows.len(),
    decreases rows.len(),
{
    if rows.len() > 0 {
        lemma_slot_within(rows.drop_last(), provider);
    }
}

proof fn lemma_rows_counted(
    samples: Seq<SampleModel>,
    healths: Seq<ProviderHealth<Seq<char>>>,
    n: int,
)
    requires
        0 <= n,
    ensures
        engine::provider_rows_upto(samples, healths, n).len() == n,
    decreases n,
{
    if n > 0 {
        lemma_rows_counted(samples, healths, n - 1);
        let before = engine::provider_rows_upto(samples, healths, n - 1);
        lemma_slot_within(before, samples[n - 1].provider);
    }
}

/// The rows of providers come in the order of their names.
pub proof fn provider_rows_come_in_order(
    samples: Seq<SampleModel>,
    healths: Seq<ProviderHealth<Seq<char>>>,
    n: int,
)
    requires
        0 <= n <= samples.len(),
        crate::cycles::distinct_providers(samples),
    ensures
        forall|a: int, b: int|
            0 <= a < b < engine::provider_rows_upto(samples, healths, n).len()
                ==> text::text_before(
                (#[trigger] engine::provider_rows_upto(samples, healths, n)[a]).provider,
                (#[trigger] engine::provider_rows_upto(samples, healths, n)[b]).provider,
            ),
        forall|a: int|
            0 <= a < engine::provider_rows_upto(samples, healths, n).len() ==> exists|j: int|
                0 <= j < n && #[trigger] samples[j].provider == (
                #[trigger] engine::provider_rows_upto(samples, healths, n)[a]).provider,
    decreases n,
{
    if n > 0 {
        provider_rows_come_in_order(samples, healths, n - 1);
        let before = engine::provider_rows_upto(samples, healths, n - 1);
        let after = engine::provider_rows_upto(samples, healths, n);
        let row = engine::provider_row(samples[n - 1], healths[n - 1]);
        let at = engine::row_slot(before, row.provider);
        lemma_slot_within(before, row.provider);
        lemma_slot_splits(before, row.provider);
        assert forall|a: int| 0 <= a < before.len() implies (#[trigger] before[a]).provider
            != row.provider by {
            let j = choose|j: int|
                0 <= j < n - 1 && #[trigger] samples[j].provider == before[a].provider;
            assert(samples[j].provider != samples[n - 1].provider);
        }
        assert forall|a: int, b: int| 0 <= a < b < after.len() implies text::text_before(
            (#[trigger] after[a]).provider,
            (#[trigger] after[b]).provider,
        ) by {
            if a == at {
                text::text_order_is_strict_and_total(
                    before[b - 1].provider,
                    row.provider,
                    row.provider,
                );
            }
        }
        assert forall|a: int| 0 <= a < after.len() implies exists|j: int|
            0 <= j < n && #[trigger] samples[j].provider == (#[trigger] after[a]).provider by {
            if a == at {
                assert(samples[n - 1].provider == after[a].provider);
            } else {
                let k = if a < at {
                    a
                } else {
                    a - 1
                };
                assert(after[a] == before[k]);
                let j = choose|j: int|
                    0 <= j < n - 1 && #[trigger] samples[j].provider == before[k].provider;
                assert(samples[j].provider == after[a].provider);
            }
        }
    }
}

proof fn lemma_slot_splits(rows: Seq<engine::ProviderRowModel>, provider: Seq<char>)
    requires
        forall|a: int, b: int|
            0 <= a < b < rows.len() ==> text::text_before(
                (#[trigger] rows[a]).provider,
                (#[trigger] rows[b]).provider,
            ),
    ensures
        forall|a: int|
            0 <= a < engine::row_slot(rows, provider) ==> text::text_before(
                (#[trigger] rows[a]).provider,
                provider,
            ),
        forall|a: int|
            engine::row_slot(rows, provider) <= a < rows.len() ==> !text::text_before(
                (#[trigger] rows[a]).provider,
                provider,
            ),
    decreases rows.len(),
{
    if rows.len() > 0 {
        let rest = rows.drop_last();
        if text::text_before(rows.last().provider, provider) {
            assert forall|a: int| 0 <= a < rows.len() implies text::text_before(
                (#[trigger] rows[a]).provider,
                provider,
            ) by {
                if a < rows.len() - 1 {
                    text::text_order_is_strict_and_total(
                        rows[a].provider,
                        rows.last().provider,
                        provider,
                    );
                    assert(text::text_before(rows[a].provider, rows[rows.len() - 1].provider));
                }
            }
        } else {
            lemma_slot_splits(rest, provider);
            lemma_slot_within(rest, provider);
            assert forall|a: int|
                engine::row_slot(rows, provider) <= a < rows.len() implies !text::text_before(
                (#[trigger] rows[a]).provider,
                provider,
            ) by {
                if a < rows.len() - 1 {
                    assert(rest[a] == rows[a]);
                }
            }
            assert forall|a: int|
                0 <= a < engine::row_slot(rows, provider) implies text::text_before(
                (#[trigger] rows[a]).provider,
                provider,
            ) by {
                assert(rest[a] == rows[a]);
            }
        }
    }
}

/// The rows of a snapshot are those of its series, in the order of the series.
pub proof fn snapshots_show_every_row(cycle: CycleModel, n: int, i: int)
    requires
        0 <= i < n <= cycle.entries.len(),
    ensures
        engine::step_at(cycle, i).row matches Some(row) ==> engine::rows_upto(cycle, n).contains(
            row,
        ),
        engine::step_at(cycle, i).event matches Some(event) ==> engine::events_upto(
            cycle,
            n,
        ).contains(event),
    decreases n,
{
    let rows = engine::rows_upto(cycle, n);
    let before = engine::rows_upto(cycle, n - 1);
    let events = engine::events_upto(cycle, n);
    let earlier = engine::events_upto(cycle, n - 1);
    if i < n - 1 {
        snapshots_show_every_row(cycle, n - 1, i);
        if let Some(row) = engine::step_at(cycle, i).row {
            let a = choose|a: int| 0 <= a < before.len() && before[a] == row;
            assert(rows[a] == row);
        }
        if let Some(event) = engine::step_at(cycle, i).event {
            let a = choose|a: int| 0 <= a < earlier.len() && earlier[a] == event;
            assert(events[a] == event);
        }
    } else {
        if let Some(row) = engine::step_at(cycle, i).row {
            assert(rows[rows.len() - 1] == row);
        }
        if let Some(event) = engine::step_at(cycle, i).event {
            assert(events[events.len() - 1] == event);
        }
    }
}

/// A snapshot shows nothing but rows of its series.
pub proof fn snapshots_show_nothing_else(cycle: CycleModel, n: int, a: int)
    requires
        0 <= n <= cycle.entries.len(),
        0 <= a < engine::rows_upto(cycle, n).len(),
    ensures
        exists|i: int|
            0 <= i < n && (#[trigger] engine::step_at(cycle, i)).row == Some(
                engine::rows_upto(cycle, n)[a],
            ),
    decreases n,
{
    if n > 0 {
        let before = engine::rows_upto(cycle, n - 1);
        if a < before.len() {
            snapshots_show_nothing_else(cycle, n - 1, a);
            let i = choose|i: int|
                0 <= i < n - 1 && (#[trigger] engine::step_at(cycle, i)).row == Some(before[a]);
            assert(engine::step_at(cycle, i).row == Some(engine::rows_upto(cycle, n)[a]));
        } else {
            assert(engine::step_at(cycle, n - 1).row == Some(engine::rows_upto(cycle, n)[a]));
        }
    }
}

/// A cycle is counted once: as scheduled and completed, in the sequence, and with the new
/// series that found no room. A snapshot says to which cycle and session it belongs.
pub proof fn cycles_are_counted(
    engine: EngineModel,
    elapsed: Nanos,
    samples: Seq<SampleModel>,
    network_namespace: Option<Seq<char>>,
)
    requires
        engine.entries.len() <= 8192,
        engine.sequence < u64::MAX,
        engine.telemetry.samples_scheduled < u64::MAX,
        engine.telemetry.samples_completed < u64::MAX,
        engine.telemetry.rejected_series + engine::cycle_keys(engine, samples).len() <= u64::MAX,
    ensures
        ({
            let after = engine::after_cycle(engine, elapsed, samples);
            let snapshot = engine::snapshot_of(engine, elapsed, samples, network_namespace);
            let keys = engine::cycle_keys(engine, samples);
            let taken = after.entries.len() - engine.entries.len();
            &&& after.sequence == engine.sequence + 1
            &&& after.telemetry.samples_scheduled == engine.telemetry.samples_scheduled + 1
            &&& after.telemetry.samples_completed == engine.telemetry.samples_completed + 1
            &&& after.telemetry.rejected_series + taken == engine.telemetry.rejected_series
                + keys.len()
            &&& 0 <= taken && after.entries.len() <= 8192
            &&& taken < keys.len() ==> after.entries.len() == 8192
            &&& after.telemetry == (EngineTelemetry {
                samples_scheduled: after.telemetry.samples_scheduled,
                samples_completed: after.telemetry.samples_completed,
                rejected_series: after.telemetry.rejected_series,
                ..engine.telemetry
            })
            &&& forall|i: int|
                0 <= i < taken ==> (#[trigger] engine::cycle_of(
                    engine,
                    elapsed,
                    samples,
                ).entries[engine.entries.len() + i]).key == keys[i]
            &&& after.catalog == engine.catalog && after.focus == engine.focus && after.generation
                == engine.generation && after.started_at_unix_ms == engine.started_at_unix_ms
            &&& snapshot.generation == engine.generation && snapshot.sequence == engine.sequence + 1
                && snapshot.started_at_unix_ms == engine.started_at_unix_ms && snapshot.elapsed
                == elapsed && snapshot.network_namespace == network_namespace && snapshot.telemetry
                == after.telemetry
        }),
{
    assert(engine::MAX_ADMITTED_SERIES == 8192);
}

/// History takes a fixed room for each bucket.
pub proof fn history_takes_room_by_the_bucket(telemetry: EngineTelemetry, a: u64, b: u64)
    requires
        a + b <= 0x00ff_ffff_ffff_ffff,
    ensures
        engine::with_history(telemetry, (a + b) as u64).history_bytes == engine::with_history(
            telemetry,
            a,
        ).history_bytes + engine::with_history(telemetry, b).history_bytes,
        engine::with_history(telemetry, a).history_bytes == 128 * a,
        engine::with_history(telemetry, a).history_buckets == a,
        engine::with_history(telemetry, a).rejected_series == telemetry.rejected_series,
{
}

/// A cycle is refused exactly if a provider stands in it twice.
pub proof fn providers_stand_in_a_cycle_once(samples: Seq<SampleModel>, n: int)
    requires
        0 <= n <= samples.len(),
    ensures
        match engine::first_repeat(samples, n) {
            None => forall|i: int, j: int|
                0 <= i < j < n ==> (#[trigger] samples[i]).provider != (
                #[trigger] samples[j]).provider,
            Some(at) => 0 <= at < n && (exists|i: int|
                0 <= i < at && (#[trigger] samples[i]).provider == samples[at].provider),
        },
    decreases n,
{
    if n > 0 {
        providers_stand_in_a_cycle_once(samples, n - 1);
        if engine::first_repeat(samples, n - 1) is None && !engine::repeats_provider(
            samples,
            n - 1,
        ) {
            assert forall|i: int, j: int| 0 <= i < j < n implies (#[trigger] samples[i]).provider
                != (#[trigger] samples[j]).provider by {}
        }
    }
}

/// A cycle is of the session that it stands in: its metrics, its focus and its series. It is
/// the first if the session has shown none.
pub proof fn cycles_are_of_their_session(
    session: EngineModel,
    elapsed: Nanos,
    samples: Seq<SampleModel>,
    healths: Seq<ProviderHealth<Seq<char>>>,
)
    ensures
        ({
            let cycle = engine::cycle_from(session, elapsed, samples, healths);
            &&& cycle.catalog == session.catalog
            &&& cycle.focus == session.focus
            &&& cycle.entries == session.entries
            &&& cycle.samples == samples
            &&& cycle.healths == healths
            &&& cycle.elapsed == elapsed
            &&& cycle.first_cycle <==> session.sequence == 0
        }),
{
}

/// New series are taken in, in their order, while there is room for 8192; they have no value
/// yet, and the series that were there stay.
pub proof fn new_series_are_taken_in(
    entries: Seq<engine::EntryModel>,
    keys: Seq<KeyModel>,
    i: int,
)
    requires
        entries.len() <= 8192,
        0 <= i < engine::admitted(entries, keys).len(),
    ensures
        ({
            let now = engine::admitted(entries, keys);
            &&& entries.len() + keys.len() <= 8192 ==> now.len() == entries.len() + keys.len()
            &&& entries.len() + keys.len() > 8192 ==> now.len() == 8192
            &&& i < entries.len() ==> now[i] == entries[i]
            &&& i >= entries.len() ==> now[i].key == keys[i - entries.len()] && now[i].state is None
        }),
{
}

/// A reading is a repeat if the series shows it already: without a gap since, from the same
/// source and of the same time.
pub proof fn repeats_are_what_is_shown_already(
    state: SeriesState<Seq<char>>,
    source: Seq<char>,
    at: Nanos,
)
    ensures
        state.had_gap ==> !engine::is_repeat(state, source, at),
        state.source != source ==> !engine::is_repeat(state, source, at),
        state.last_projection is None ==> !engine::is_repeat(state, source, at),
        state.last_projection matches Some((last, _)) ==> (engine::is_repeat(state, source, at)
            <==> last == at && state.source == source && !state.had_gap),
{
}

/// Without a focus every provider goes on; with one, those that it does not name pause.
pub proof fn a_focus_pauses_what_it_does_not_name(
    focus: Option<Seq<Seq<char>>>,
    provider: Seq<char>,
)
    ensures
        focus is None ==> !engine::suspends(focus, provider),
        focus matches Some(named) ==> (engine::suspends(focus, provider) <==> !named.contains(
            provider,
        )),
{
}

/// Only statistics of drivers are private to their device.
pub proof fn driver_statistics_are_private(key: KeyModel)
    ensures
        engine::is_private(key) <==> key.metric == "linux.nic.driver_statistic"@,
{
}

} // verus!
