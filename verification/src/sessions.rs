//! What holds of all the cycles of one session together.
use crate::catalog::SampleModel;
use crate::cycles;
use crate::engine;
use crate::engine::{
    CycleModel, EngineModel, EngineTelemetry, EntryModel, HistoryEvent, RowModel, SnapshotModel,
    MAX_ADMITTED_SERIES,
};
use crate::model::{KeyModel, Nanos, ProviderHealth, ReadingOutcome};
use crate::sample_order;
use crate::seqs;
use crate::series;
use vstd::prelude::*;

verus! {

/// What happens to an engine.
pub enum Turn {
    /// Samples are taken.
    Cycle { elapsed: Nanos, samples: Seq<SampleModel> },
    /// Samples are refused, since sample `at` has the provider of an earlier one.
    Refusal { samples: Seq<SampleModel>, at: int },
    Focus { focus: Option<Seq<Seq<char>>> },
    /// Something is counted.
    Count { telemetry: EngineTelemetry },
}

pub open spec fn after_turn(engine: EngineModel, turn: Turn) -> EngineModel {
    match turn {
        Turn::Cycle { elapsed, samples } => engine::after_cycle(engine, elapsed, samples),
        Turn::Refusal { samples, at } => engine::begun(engine, samples, at),
        Turn::Focus { focus } => engine::with_focus(engine, focus),
        Turn::Count { telemetry } => EngineModel { telemetry, ..engine },
    }
}

/// The engine after the first `n` turns.
pub open spec fn after_turns(engine: EngineModel, turns: Seq<Turn>, n: int) -> EngineModel
    decreases n,
{
    if n <= 0 {
        engine
    } else {
        after_turn(after_turns(engine, turns, n - 1), turns[n - 1])
    }
}

/// The rows that the cycle at turn `n` shows.
pub open spec fn rows_at(engine: EngineModel, turns: Seq<Turn>, n: int) -> Seq<RowModel> {
    match turns[n] {
        Turn::Cycle { elapsed, samples } => engine::snapshot_of(
            after_turns(engine, turns, n),
            elapsed,
            samples,
            None,
        ).series,
        _ => Seq::empty(),
    }
}

/// Whether every series has its place as its number, and an identity of its own.
spec fn is_numbered(entries: Seq<EntryModel>) -> bool {
    &&& entries.len() <= MAX_ADMITTED_SERIES
    &&& forall|i: int|
        0 <= i < entries.len() ==> ((#[trigger] entries[i]).state matches Some(state) ==> state.id
            == i + 1)
    &&& forall|i: int, j: int|
        0 <= i < j < entries.len() ==> (#[trigger] entries[i]).key != (#[trigger] entries[j]).key
}

/// Whether series keep their places and their identities.
spec fn keeps_places(before: Seq<EntryModel>, after: Seq<EntryModel>) -> bool {
    before.len() <= after.len() && forall|i: int|
        0 <= i < before.len() ==> (#[trigger] after[i]).key == before[i].key
}

proof fn lemma_admitted(entries: Seq<EntryModel>, samples: Seq<SampleModel>)
    requires
        is_numbered(entries),
    ensures
        ({
            let keys = engine::new_keys_upto(entries, samples, samples.len() as int, 0);
            let after = engine::admitted(entries, keys);
            is_numbered(after) && keeps_places(entries, after)
        }),
{
    let keys = engine::new_keys_upto(entries, samples, samples.len() as int, 0);
    let after = engine::admitted(entries, keys);
    let n = entries.len() as int;
    sample_order::lemma_new_keys_hold(entries, samples, samples.len() as int, 0);
    assert forall|i: int, j: int| 0 <= i < j < after.len() implies (#[trigger] after[i]).key != (
    #[trigger] after[j]).key by {
        if j < n {
            assert(after[i] == entries[i] && after[j] == entries[j]);
        } else {
            assert(after[j].key == keys[j - n]);
            assert(keys.contains(keys[j - n]));
            if i < n {
                assert(after[i] == entries[i]);
                if after[i].key == after[j].key {
                    assert(engine::has_key(entries, keys[j - n]));
                }
            } else {
                assert(after[i].key == keys[i - n]);
                assert(crate::model::key_before(keys[i - n], keys[j - n]));
                crate::model::key_order_is_strict_and_total(
                    keys[i - n],
                    keys[i - n],
                    keys[i - n],
                );
            }
        }
    }
    assert forall|i: int| 0 <= i < after.len() implies ((#[trigger] after[i]).state matches Some(
        state,
    ) ==> state.id == i + 1) by {
        if i < n {
            assert(after[i] == entries[i]);
        }
    }
}

proof fn lemma_turn(engine: EngineModel, turn: Turn)
    requires
        is_numbered(engine.entries),
    ensures
        is_numbered(after_turn(engine, turn).entries),
        keeps_places(engine.entries, after_turn(engine, turn).entries),
{
    let after = after_turn(engine, turn).entries;
    match turn {
        Turn::Cycle { elapsed, samples } => {
            lemma_admitted(engine.entries, samples);
            let cycle = engine::cycle_of(engine, elapsed, samples);
            assert forall|i: int| 0 <= i < after.len() implies (#[trigger] after[i]).key
                == cycle.entries[i].key && (after[i].state matches Some(state) ==> state.id == i
                + 1) by {
                assert(after[i] == engine::step_at(cycle, i).entry);
                assert(cycle.entries[i].state matches Some(state) ==> state.id == i + 1);
            }
        },
        Turn::Focus { focus } => {
            assert forall|i: int| 0 <= i < after.len() implies (#[trigger] after[i]).key
                == engine.entries[i].key && (after[i].state matches Some(state) ==> state.id == i
                + 1) by {
                assert(engine.entries[i].state matches Some(state) ==> state.id == i + 1);
            }
        },
        _ => {},
    }
}

proof fn lemma_turns(engine: EngineModel, turns: Seq<Turn>, m: int, n: int)
    requires
        is_numbered(engine.entries),
        0 <= m <= n,
    ensures
        is_numbered(after_turns(engine, turns, n).entries),
        keeps_places(
            after_turns(engine, turns, m).entries,
            after_turns(engine, turns, n).entries,
        ),
    decreases n,
{
    if n > 0 {
        let before = after_turns(engine, turns, n - 1);
        if m < n {
            lemma_turns(engine, turns, m, n - 1);
            lemma_turn(before, turns[n - 1]);
            let first = after_turns(engine, turns, m).entries;
            let after = after_turns(engine, turns, n).entries;
            assert forall|i: int| 0 <= i < first.len() implies (#[trigger] after[i]).key
                == first[i].key by {
                assert(before.entries[i].key == first[i].key);
            }
        } else {
            lemma_turns(engine, turns, n - 1, n - 1);
            lemma_turn(before, turns[n - 1]);
        }
    }
}

/// Every row is of a series at the place that its id says.
proof fn lemma_rows(cycle: CycleModel, n: int, a: int)
    requires
        is_numbered(cycle.entries),
        0 <= n <= cycle.entries.len(),
        0 <= a < engine::rows_upto(cycle, n).len(),
    ensures
        1 <= engine::rows_upto(cycle, n)[a].id <= n,
        cycle.entries[engine::rows_upto(cycle, n)[a].id - 1].key == engine::rows_upto(
            cycle,
            n,
        )[a].key,
    decreases n,
{
    if n > 0 {
        let before = engine::rows_upto(cycle, n - 1);
        if a < before.len() {
            lemma_rows(cycle, n - 1, a);
        } else {
            assert(cycle.entries[n - 1].state matches Some(state) ==> state.id == n);
        }
    }
}

proof fn lemma_row_place(engine: EngineModel, turns: Seq<Turn>, n: int, a: int)
    requires
        is_numbered(engine.entries),
        0 <= n < turns.len(),
        0 <= a < rows_at(engine, turns, n).len(),
    ensures
        ({
            let row = rows_at(engine, turns, n)[a];
            let entries = after_turns(engine, turns, n + 1).entries;
            1 <= row.id <= entries.len() && entries[row.id - 1].key == row.key
        }),
{
    lemma_turns(engine, turns, n, n);
    let before = after_turns(engine, turns, n);
    if let Turn::Cycle { elapsed, samples } = turns[n] {
        let cycle = engine::cycle_of(before, elapsed, samples);
        lemma_admitted(before.entries, samples);
        lemma_rows(cycle, cycle.entries.len() as int, a);
        let row = rows_at(engine, turns, n)[a];
        let entries = after_turns(engine, turns, n + 1).entries;
        assert(entries[row.id - 1] == engine::step_at(cycle, row.id - 1).entry);
    }
}

/// Ids tell series apart for the whole session: two rows of any two snapshots have the
/// same id exactly if they have the same metric and labels, whatever happened between.
pub proof fn ids_tell_series_apart(
    engine: EngineModel,
    turns: Seq<Turn>,
    m: int,
    n: int,
    a: int,
    b: int,
)
    requires
        engine::engine_wf(engine),
        0 <= m < turns.len(),
        0 <= n < turns.len(),
        0 <= a < rows_at(engine, turns, m).len(),
        0 <= b < rows_at(engine, turns, n).len(),
    ensures
        rows_at(engine, turns, m)[a].id == rows_at(engine, turns, n)[b].id <==> rows_at(
            engine,
            turns,
            m,
        )[a].key == rows_at(engine, turns, n)[b].key,
{
    assert(is_numbered(engine.entries)) by {
        assert forall|i: int| 0 <= i < engine.entries.len() implies ((
        #[trigger] engine.entries[i]).state matches Some(state) ==> state.id == i + 1) by {
            assert(engine::entry_wf(engine.catalog, engine.entries[i], i));
        }
    }
    lemma_row_place(engine, turns, m, a);
    lemma_row_place(engine, turns, n, b);
    let last = if m < n {
        n + 1
    } else {
        m + 1
    };
    lemma_turns(engine, turns, m + 1, last);
    lemma_turns(engine, turns, n + 1, last);
    let entries = after_turns(engine, turns, last).entries;
    let x = rows_at(engine, turns, m)[a];
    let y = rows_at(engine, turns, n)[b];
    assert(entries[x.id - 1].key == x.key);
    assert(entries[y.id - 1].key == y.key);
    if x.id < y.id {
        assert(entries[x.id - 1].key != entries[y.id - 1].key);
    } else if y.id < x.id {
        assert(entries[y.id - 1].key != entries[x.id - 1].key);
    }
}

/// Whether some sample has a reading of a series.
pub open spec fn is_read(samples: Seq<SampleModel>, key: KeyModel) -> bool {
    exists|q: int, s: int|
        sample_order::is_scanned(samples, samples.len() as int, 0, q, s)
            && #[trigger] sample_order::is_key_of(samples, key, q, s)
}

/// The identities that a cycle cannot place are those that were read and have no
/// series, each once.
pub proof fn new_identities_are_counted_once(
    engine: EngineModel,
    samples: Seq<SampleModel>,
    key: KeyModel,
)
    ensures
        engine::cycle_keys(engine, samples).contains(key) <==> is_read(samples, key)
            && !engine::has_key(engine.entries, key),
        engine::cycle_keys(engine, samples).no_duplicates(),
{
    sample_order::lemma_new_keys_hold(engine.entries, samples, samples.len() as int, 0);
    let keys = engine::cycle_keys(engine, samples);
    assert forall|i: int, j: int| 0 <= i < keys.len() && 0 <= j < keys.len() && i != j implies keys[i]
        != keys[j] by {
        crate::model::key_order_is_strict_and_total(keys[i], keys[i], keys[i]);
        if i < j {
            assert(crate::model::key_before(keys[i], keys[j]));
        } else {
            assert(crate::model::key_before(keys[j], keys[i]));
        }
    }
}

proof fn lemma_same_new_keys(a: EngineModel, b: EngineModel, samples: Seq<SampleModel>, p: int, r: int)
    requires
        forall|key: KeyModel| #[trigger]
            engine::has_key(a.entries, key) == engine::has_key(b.entries, key),
        0 <= p <= samples.len(),
    ensures
        engine::new_keys_upto(a.entries, samples, p, r) == engine::new_keys_upto(
            b.entries,
            samples,
            p,
            r,
        ),
    decreases p, r,
{
    if r > 0 {
        lemma_same_new_keys(a, b, samples, p, r - 1);
    } else if p > 0 {
        lemma_same_new_keys(a, b, samples, p - 1, samples[p - 1].readings.len() as int);
    }
}

/// A full engine takes no new series and goes on with those that it has: each cycle
/// counts the new identities as rejected, shows no row of them, evicts nothing, keeps
/// every series at its place, and counts them again when they come again.
pub proof fn a_full_engine_rejects_new_series(
    engine: EngineModel,
    elapsed: Nanos,
    samples: Seq<SampleModel>,
    network_namespace: Option<Seq<char>>,
    later: Nanos,
)
    requires
        engine::engine_wf(engine),
        engine.entries.len() == MAX_ADMITTED_SERIES,
        engine::cycle_keys(engine, samples).len() <= u64::MAX,
    ensures
        ({
            let keys = engine::cycle_keys(engine, samples);
            let after = engine::after_cycle(engine, elapsed, samples);
            let rows = engine::snapshot_of(engine, elapsed, samples, network_namespace).series;
            &&& after.telemetry.rejected_series == series::capped_sum(
                engine.telemetry.rejected_series,
                keys.len() as u64,
            )
            &&& after.telemetry.evicted_series == engine.telemetry.evicted_series
            &&& after.entries.len() == engine.entries.len()
            &&& forall|i: int|
                0 <= i < engine.entries.len() ==> {
                    &&& (#[trigger] after.entries[i]).key == engine.entries[i].key
                    &&& engine.entries[i].state matches Some(state) ==> (after.entries[i].state
                        matches Some(next) && next.id == state.id)
                }
            &&& forall|a: int| 0 <= a < rows.len() ==> !keys.contains((#[trigger] rows[a]).key)
            &&& engine::cycle_keys(after, samples) == keys
            &&& engine::after_cycle(after, later, samples).telemetry.rejected_series
                == series::capped_sum(after.telemetry.rejected_series, keys.len() as u64)
        }),
{
    let keys = engine::cycle_keys(engine, samples);
    let cycle = engine::cycle_of(engine, elapsed, samples);
    let after = engine::after_cycle(engine, elapsed, samples);
    let rows = engine::snapshot_of(engine, elapsed, samples, network_namespace).series;
    assert(is_numbered(engine.entries)) by {
        assert forall|i: int| 0 <= i < engine.entries.len() implies ((
        #[trigger] engine.entries[i]).state matches Some(state) ==> state.id == i + 1) by {
            assert(engine::entry_wf(engine.catalog, engine.entries[i], i));
        }
    }
    assert(cycle.entries =~= engine.entries);
    engine::cycles_keep_series_identities(engine, elapsed, samples);
    assert forall|a: int| 0 <= a < rows.len() implies !keys.contains((#[trigger] rows[a]).key) by {
        lemma_rows(cycle, cycle.entries.len() as int, a);
        assert(engine.entries[rows[a].id - 1].key == rows[a].key);
        assert(engine::has_key(engine.entries, rows[a].key));
        new_identities_are_counted_once(engine, samples, rows[a].key);
    }
    assert forall|key: KeyModel| #[trigger] engine::has_key(engine.entries, key)
        == engine::has_key(after.entries, key) by {
        if engine::has_key(engine.entries, key) {
            let i = choose|i: int|
                0 <= i < engine.entries.len() && (#[trigger] engine.entries[i]).key == key;
            assert(after.entries[i].key == key);
        }
        if engine::has_key(after.entries, key) {
            let i = choose|i: int|
                0 <= i < after.entries.len() && (#[trigger] after.entries[i]).key == key;
            assert(engine.entries[i].key == key);
        }
    }
    lemma_same_new_keys(engine, after, samples, samples.len() as int, 0);
}

/// Whether a series has no reading in a cycle and is shown with its last value, which
/// grows older.
pub open spec fn goes_stale(cycle: CycleModel, i: int) -> bool {
    let entry = cycle.entries[i];
    &&& engine::candidate_of(cycle.catalog, cycle.samples, entry.key) is None
    &&& entry.state matches Some(state) && !engine::suspends(cycle.focus, state.source)
        && state.raw is Some && match engine::health_of(cycle.samples, cycle.healths)(
        state.source,
    ) {
        Some(ProviderHealth::Stale { .. }) => true,
        Some(ProviderHealth::Partial { .. }) => true,
        _ => false,
    }
}

/// Where every sample is fresh, no series is shown with a value of an earlier cycle.
pub proof fn fresh_samples_leave_nothing_stale(cycle: CycleModel, i: int)
    requires
        cycle.healths.len() == cycle.samples.len(),
        forall|p: int| 0 <= p < cycle.healths.len() ==> #[trigger] cycle.healths[p] is Fresh,
    ensures
        !goes_stale(cycle, i),
{
    if let Some(state) = cycle.entries[i].state {
        seqs::lemma_first_where(
            cycle.samples,
            engine::sampled_by(state.source),
            cycle.samples.len() as int,
        );
    }
}

/// Whether the reading that a series takes in a cycle has a value.
pub open spec fn is_observed(cycle: CycleModel, i: int) -> bool {
    engine::candidate_of(cycle.catalog, cycle.samples, cycle.entries[i].key) matches Some((p, r))
        && cycle.samples[p].readings[r].outcome is Observed
}

/// The same cycle once more.
proof fn lemma_same_step(first: CycleModel, second: CycleModel, i: int)
    requires
        first.catalog == second.catalog,
        first.focus == second.focus,
        first.samples == second.samples,
        first.healths == second.healths,
        0 <= i < first.entries.len(),
        second.entries[i] == engine::step_at(first, i).entry,
        !goes_stale(first, i),
    ensures
        is_observed(first, i) ==> engine::step_at(second, i).entry == second.entries[i],
        engine::step_at(second, i).row == engine::step_at(first, i).row,
        engine::step_at(second, i).event is None,
{
    let entry = first.entries[i];
    let again = second.entries[i];
    assert(again.key == entry.key);
    if let Some((p, r)) = engine::candidate_of(first.catalog, first.samples, entry.key) {
        let sample = first.samples[p];
        match sample.readings[r].outcome {
            ReadingOutcome::Observed(reading) => {
                engine::a_repeated_observation_changes_nothing(
                    first.catalog,
                    entry,
                    i,
                    sample.provider,
                    reading,
                    reading,
                    sample.finished_at,
                    first.first_cycle,
                    second.first_cycle,
                );
            },
            ReadingOutcome::Unavailable(_) => {},
        }
    }
}

proof fn lemma_same_rows(first: CycleModel, second: CycleModel, n: int)
    requires
        first.catalog == second.catalog,
        first.focus == second.focus,
        first.samples == second.samples,
        first.healths == second.healths,
        0 <= n <= first.entries.len(),
        forall|i: int| 0 <= i < first.entries.len() ==> !#[trigger] goes_stale(first, i),
        forall|i: int|
            0 <= i < first.entries.len() ==> #[trigger] second.entries[i] == engine::step_at(
                first,
                i,
            ).entry,
    ensures
        engine::rows_upto(second, n) == engine::rows_upto(first, n),
        engine::events_upto(second, n) == Seq::<HistoryEvent>::empty(),
    decreases n,
{
    if n > 0 {
        lemma_same_rows(first, second, n - 1);
        assert(!goes_stale(first, n - 1));
        assert(second.entries[n - 1] == engine::step_at(first, n - 1).entry);
        lemma_same_step(first, second, n - 1);
    }
}

/// What a sample without readings leaves as it was: when its provider last delivered any.
proof fn lemma_success_stays(
    successes: Map<Seq<char>, Nanos>,
    samples: Seq<SampleModel>,
    n: int,
    i: int,
)
    requires
        0 <= n <= samples.len(),
        0 <= i < samples.len(),
        !samples[i].health.readable(),
        cycles::distinct_providers(samples),
    ensures
        engine::at_key(engine::successes_after(successes, samples, n), samples[i].provider)
            == engine::at_key(successes, samples[i].provider),
    decreases n,
{
    if n > 0 {
        lemma_success_stays(successes, samples, n - 1, i);
        if n - 1 < i {
            assert(samples[n - 1].provider != samples[i].provider);
        } else if i < n - 1 {
            assert(samples[i].provider != samples[n - 1].provider);
        }
    }
}

proof fn lemma_same_healths(successes: Map<Seq<char>, Nanos>, samples: Seq<SampleModel>)
    requires
        cycles::distinct_providers(samples),
    ensures
        engine::cycle_healths(
            engine::successes_after(successes, samples, samples.len() as int),
            samples,
        ) == engine::cycle_healths(successes, samples),
{
    let n = samples.len() as int;
    let after = engine::successes_after(successes, samples, n);
    let a = engine::cycle_healths(after, samples);
    let b = engine::cycle_healths(successes, samples);
    assert forall|i: int| 0 <= i < n implies #[trigger] a[i] == b[i] by {
        if !samples[i].health.readable() {
            lemma_success_stays(successes, samples, n, i);
        }
    }
    assert(a =~= b);
}

/// A cycle does not find again what it has found.
proof fn lemma_nothing_new(engine: EngineModel, elapsed: Nanos, samples: Seq<SampleModel>)
    requires
        engine.entries.len() <= MAX_ADMITTED_SERIES,
    ensures
        ({
            let between = engine::after_cycle(engine, elapsed, samples);
            engine::admitted(between.entries, engine::cycle_keys(between, samples))
                == between.entries
        }),
{
    let between = engine::after_cycle(engine, elapsed, samples);
    let first = engine::cycle_of(engine, elapsed, samples);
    let keys = engine::cycle_keys(engine, samples);
    let again = engine::cycle_keys(between, samples);
    let n = engine.entries.len() as int;
    assert forall|i: int| 0 <= i < first.entries.len() implies (
    #[trigger] between.entries[i]).key == first.entries[i].key by {
        assert(between.entries[i] == engine::step_at(first, i).entry);
    }
    if between.entries.len() < MAX_ADMITTED_SERIES {
        assert(first.entries.len() == n + keys.len());
        if again.len() > 0 {
            let key = again[0];
            assert(again.contains(key));
            new_identities_are_counted_once(between, samples, key);
            new_identities_are_counted_once(engine, samples, key);
            if engine::has_key(engine.entries, key) {
                let i = choose|i: int|
                    0 <= i < engine.entries.len() && (#[trigger] engine.entries[i]).key == key;
                assert(first.entries[i] == engine.entries[i]);
                assert(between.entries[i].key == key);
            } else {
                let i = choose|i: int| 0 <= i < keys.len() && keys[i] == key;
                assert(first.entries[n + i].key == key);
                assert(between.entries[n + i].key == key);
            }
            assert(engine::has_key(between.entries, key));
        }
    }
    assert(engine::admitted(between.entries, again) =~= between.entries);
}

/// Samples that a later cycle delivers again are the same observations: where no series
/// goes stale, the snapshot shows the same series and the same providers, nothing goes into
/// the history, and the engine keeps every series that was read as it was. Only that there
/// was a further cycle shows.
pub proof fn a_repeated_cycle_shows_the_same(
    engine: EngineModel,
    samples: Seq<SampleModel>,
    first_at: Nanos,
    second_at: Nanos,
    network_namespace: Option<Seq<char>>,
)
    requires
        engine::engine_wf(engine),
        cycles::distinct_providers(samples),
        forall|i: int|
            0 <= i < engine::cycle_of(engine, first_at, samples).entries.len()
                ==> !#[trigger] goes_stale(engine::cycle_of(engine, first_at, samples), i),
    ensures
        ({
            let between = engine::after_cycle(engine, first_at, samples);
            let after = engine::after_cycle(between, second_at, samples);
            let a = engine::snapshot_of(engine, first_at, samples, network_namespace);
            let b = engine::snapshot_of(between, second_at, samples, network_namespace);
            let first = engine::cycle_of(engine, first_at, samples);
            let second = engine::cycle_of(between, second_at, samples);
            &&& b == (SnapshotModel {
                sequence: series::capped_sum(a.sequence, 1),
                elapsed: second_at,
                telemetry: after.telemetry,
                ..a
            })
            &&& engine::events_upto(second, second.entries.len() as int) == Seq::<
                HistoryEvent,
            >::empty()
            &&& after.entries.len() == between.entries.len()
            &&& forall|i: int|
                0 <= i < after.entries.len() && is_observed(first, i)
                    ==> #[trigger] after.entries[i] == between.entries[i]
        }),
{
    let between = engine::after_cycle(engine, first_at, samples);
    let after = engine::after_cycle(between, second_at, samples);
    let first = engine::cycle_of(engine, first_at, samples);
    let second = engine::cycle_of(between, second_at, samples);
    lemma_nothing_new(engine, first_at, samples);
    lemma_same_healths(engine.successes, samples);
    assert forall|i: int| 0 <= i < first.entries.len() implies #[trigger] second.entries[i]
        == engine::step_at(first, i).entry by {}
    lemma_same_rows(first, second, first.entries.len() as int);
    assert forall|i: int| 0 <= i < after.entries.len() && is_observed(first, i) implies
        #[trigger] after.entries[i] == between.entries[i] by {
        assert(!goes_stale(first, i));
        assert(second.entries[i] == engine::step_at(first, i).entry);
        lemma_same_step(first, second, i);
    }
}

} // verus!
