//! The monitor engine: takes the samples of one collection cycle and projects
//! every known series into a snapshot.
use crate::catalog;
use crate::catalog::{CatalogModel, MetricCatalog, ProviderSample, SampleModel};
use crate::model;
use crate::model::{
    KeyModel, MetricLabels, MetricReading, MonitorError, MonitorValidationError, Nanos,
    ProviderHealth, ReadingModel, ReadingOutcome, SampleReading, UnavailableReason,
};
use crate::seqs;
use crate::series;
use crate::series::{
    first_series_value, numeric_reading, numeric_series_value, raw_from_reading,
    stale_series_value, unavailable_series_value, update_raw_series, BaselineOrigin,
    CounterContinuity, SeriesState, SeriesValue,
};
use crate::text;
use crate::text::{comes_before, same_text};
use vstd::prelude::*;

verus! {

/// The most series that a session admits.
pub const MAX_ADMITTED_SERIES: usize = 8192;

/// The metric of driver statistics whose meaning is not known: only their current
/// value is shown.
pub const RAW_PRIVATE_NIC_METRIC_ID: &'static str = "linux.nic.driver_statistic";

/// Values by text key, at most one for each key.
#[derive(Clone, Debug, PartialEq, Eq)]
pub struct TextMap<V> {
    pub keys: Vec<String>,
    pub values: Vec<V>,
}

impl<V: Copy> TextMap<V> {
    pub open spec fn wf(&self) -> bool {
        &&& self.keys@.len() == self.values@.len()
        &&& forall|i: int, j: int|
            0 <= i < j < self.keys@.len() ==> (#[trigger] self.keys@[i])@ != (
            #[trigger] self.keys@[j])@
    }

    /// Whether `key` stands at position `i`.
    pub open spec fn holds(&self, key: Seq<char>, i: int) -> bool {
        0 <= i < self.keys@.len() && self.keys@[i]@ == key
    }

    pub open spec fn view(&self) -> Map<Seq<char>, V> {
        Map::new(
            |key: Seq<char>| exists|i: int| self.holds(key, i),
            |key: Seq<char>| self.values@[choose|i: int| self.holds(key, i)],
        )
    }

    pub fn new() -> (map: TextMap<V>)
        ensures
            map.wf(),
            map.view() == Map::<Seq<char>, V>::empty(),
    {
        let map = TextMap { keys: Vec::new(), values: Vec::new() };
        assert(map.view() =~= Map::<Seq<char>, V>::empty());
        map
    }

    proof fn lemma_len(&self)
        requires
            self.wf(),
        ensures
            self.view().dom().finite(),
            self.view().dom().len() == self.keys@.len(),
    {
        let keys = Seq::new(self.keys@.len(), |i: int| self.keys@[i]@);
        assert(keys.no_duplicates()) by {
            assert forall|i: int, j: int|
                0 <= i < keys.len() && 0 <= j < keys.len() && i != j implies keys[i] != keys[j] by {
                if i < j {
                    assert(self.keys@[i]@ != self.keys@[j]@);
                } else {
                    assert(self.keys@[j]@ != self.keys@[i]@);
                }
            }
        }
        keys.unique_seq_to_set();
        assert forall|key: Seq<char>| keys.to_set().contains(key) == self.view().dom().contains(
            key,
        ) by {
            if keys.to_set().contains(key) {
                let i = choose|i: int| 0 <= i < keys.len() && keys[i] == key;
                assert(self.holds(key, i));
            }
            if self.view().dom().contains(key) {
                let i = choose|i: int| self.holds(key, i);
                assert(keys[i] == key);
            }
        }
        assert(keys.to_set() =~= self.view().dom());
    }

    /// How many keys there are.
    pub fn len(&self) -> (len: usize)
        requires
            self.wf(),
        ensures
            self.view().dom().finite(),
            len == self.view().dom().len(),
    {
        proof {
            self.lemma_len();
        }
        self.keys.len()
    }

    fn find(&self, key: &str) -> (found: Option<usize>)
        requires
            self.wf(),
        ensures
            match found {
                Some(i) => self.holds(key@, i as int) && self.view().dom().contains(key@)
                    && self.view()[key@] == self.values@[i as int],
                None => !self.view().dom().contains(key@),
            },
    {
        let mut i: usize = 0;
        while i < self.keys.len()
            invariant
                i <= self.keys.len(),
                self.wf(),
                forall|j: int| 0 <= j < i ==> !self.holds(key@, j),
            decreases self.keys.len() - i,
        {
            if same_text(self.keys[i].as_str(), key) {
                proof {
                    assert(self.holds(key@, i as int));
                    let k = choose|k: int| self.holds(key@, k);
                    assert(k == i) by {
                        if k < i {
                            assert(self.keys@[k]@ != self.keys@[i as int]@);
                        } else if k > i {
                            assert(self.keys@[i as int]@ != self.keys@[k]@);
                        }
                    }
                }
                return Some(i);
            }
            i += 1;
        }
        None
    }

    /// The value at `key`.
    pub fn get(&self, key: &str) -> (value: Option<V>)
        requires
            self.wf(),
        ensures
            value == (if self.view().dom().contains(key@) {
                Some(self.view()[key@])
            } else {
                None
            }),
    {
        match self.find(key) {
            Some(i) => Some(self.values[i]),
            None => None,
        }
    }

    /// Puts `value` at `key`.
    pub fn insert(&mut self, key: &str, value: V)
        requires
            old(self).wf(),
        ensures
            final(self).wf(),
            final(self).view() == old(self).view().insert(key@, value),
    {
        let ghost before = *self;
        match self.find(key) {
            Some(i) => {
                self.values.set(i, value);
                proof {
                    assert forall|k: Seq<char>, j: int| #[trigger]
                        self.holds(k, j) == before.holds(k, j) by {}
                    assert(self.view().dom() =~= before.view().insert(key@, value).dom()) by {
                        assert forall|k: Seq<char>| self.view().dom().contains(k)
                            == before.view().insert(key@, value).dom().contains(k) by {
                            if before.view().dom().contains(k) {
                                let j = choose|j: int| before.holds(k, j);
                                assert(self.holds(k, j));
                            }
                            if self.view().dom().contains(k) {
                                let j = choose|j: int| self.holds(k, j);
                                assert(before.holds(k, j));
                            }
                        }
                    }
                    assert forall|k: Seq<char>| self.view().dom().contains(k) implies self.view()[k]
                        == before.view().insert(key@, value)[k] by {
                        let j = choose|j: int| self.holds(k, j);
                        let b = choose|b: int| before.holds(k, b);
                        assert(before.holds(k, j));
                        assert(self.holds(k, b));
                        assert(j == b) by {
                            if j < b {
                                assert(before.keys@[j]@ != before.keys@[b]@);
                            } else if b < j {
                                assert(before.keys@[b]@ != before.keys@[j]@);
                            }
                        }
                        if j == i {
                            assert(k == key@);
                        } else if k == key@ {
                            if j < i {
                                assert(before.keys@[j]@ != before.keys@[i as int]@);
                            } else {
                                assert(before.keys@[i as int]@ != before.keys@[j]@);
                            }
                        }
                    }
                    assert(self.view() =~= before.view().insert(key@, value));
                }
            },
            None => {
                self.keys.push(text::owned(key));
                self.values.push(value);
                proof {
                    let n = before.keys@.len() as int;
                    assert(self.holds(key@, n));
                    assert forall|j: int| 0 <= j < n implies (#[trigger] self.keys@[j])@
                        != key@ by {
                        if before.keys@[j]@ == key@ {
                            assert(before.holds(key@, j));
                            assert(before.view().dom().contains(key@));
                        }
                    }
                    assert forall|k: Seq<char>, j: int| #[trigger] self.holds(k, j) <==> (
                    before.holds(k, j) || (j == n && k == key@)) by {}
                    assert(self.view().dom() =~= before.view().insert(key@, value).dom()) by {
                        assert forall|k: Seq<char>| self.view().dom().contains(k)
                            == before.view().insert(key@, value).dom().contains(k) by {
                            if before.view().dom().contains(k) {
                                let j = choose|j: int| before.holds(k, j);
                                assert(self.holds(k, j));
                            }
                        }
                    }
                    assert forall|k: Seq<char>| self.view().dom().contains(k) implies self.view()[k]
                        == before.view().insert(key@, value)[k] by {
                        let j = choose|j: int| self.holds(k, j);
                        if k != key@ {
                            let b = choose|b: int| before.holds(k, b);
                            assert(self.holds(k, b));
                            assert(before.holds(k, j));
                            assert(j == b) by {
                                if j < b {
                                    assert(before.keys@[j]@ != before.keys@[b]@);
                                } else if b < j {
                                    assert(before.keys@[b]@ != before.keys@[j]@);
                                }
                            }
                        }
                    }
                    assert(self.view() =~= before.view().insert(key@, value));
                }
            },
        }
    }
}

/// The identity of a series.
#[derive(Clone, Debug, PartialEq, Eq)]
pub struct SeriesKey {
    pub metric: String,
    pub labels: MetricLabels,
}

impl DeepView for SeriesKey {
    type V = KeyModel;

    open spec fn deep_view(&self) -> KeyModel {
        KeyModel { metric: self.metric@, labels: self.labels.deep_view() }
    }
}

impl SeriesKey {
    pub fn of(reading: &SampleReading) -> (key: SeriesKey)
        ensures
            key.deep_view() == reading.deep_view().key,
    {
        SeriesKey { metric: reading.metric.clone(), labels: reading.labels.copy() }
    }

    /// Whether this is the identity of a reading.
    pub fn is_of(&self, reading: &SampleReading) -> (same: bool)
        ensures
            same == (self.deep_view() == reading.deep_view().key),
    {
        same_text(self.metric.as_str(), reading.metric.as_str()) && self.labels.same(
            &reading.labels,
        )
    }

    pub fn same(&self, other: &SeriesKey) -> (same: bool)
        ensures
            same == (self.deep_view() == other.deep_view()),
    {
        same_text(self.metric.as_str(), other.metric.as_str()) && self.labels.same(&other.labels)
    }

    pub fn precedes(&self, other: &SeriesKey) -> (before: bool)
        ensures
            before == model::key_before(self.deep_view(), other.deep_view()),
    {
        if same_text(self.metric.as_str(), other.metric.as_str()) {
            proof {
                text::text_order_is_strict_and_total(self.metric@, self.metric@, self.metric@);
            }
            model::labels_come_before(&self.labels, &other.labels)
        } else {
            comes_before(self.metric.as_str(), other.metric.as_str())
        }
    }
}

/// What a contract says of an admitted series.
#[verifier::ext_equal]
pub struct EntryModel {
    pub key: KeyModel,
    pub state: Option<SeriesState<Seq<char>>>,
}

/// An admitted series; it has no state until a first reading arrives.
#[derive(Clone, Debug, PartialEq, Eq)]
pub struct SeriesEntry {
    pub key: SeriesKey,
    pub state: Option<SeriesState<String>>,
}

impl DeepView for SeriesEntry {
    type V = EntryModel;

    open spec fn deep_view(&self) -> EntryModel {
        EntryModel {
            key: self.key.deep_view(),
            state: match self.state {
                Some(state) => Some(state.deep_view()),
                None => None,
            },
        }
    }
}

/// What a contract says of a row of a snapshot.
#[verifier::ext_equal]
pub struct RowModel {
    pub id: u64,
    pub owner: Seq<char>,
    pub source: Seq<char>,
    pub key: KeyModel,
    pub first_seen: Nanos,
    pub baseline_origin: BaselineOrigin,
    pub baseline_at: Nanos,
    pub value: SeriesValue<Seq<char>>,
}

/// One series as a snapshot shows it.
#[derive(Clone, Debug, PartialEq, Eq)]
pub struct SeriesSnapshot {
    pub id: u64,
    pub owner: String,
    pub source: String,
    pub metric: String,
    pub labels: MetricLabels,
    pub first_seen: Nanos,
    pub baseline_origin: BaselineOrigin,
    pub baseline_at: Nanos,
    pub value: SeriesValue<String>,
}

impl DeepView for SeriesSnapshot {
    type V = RowModel;

    open spec fn deep_view(&self) -> RowModel {
        RowModel {
            id: self.id,
            owner: self.owner@,
            source: self.source@,
            key: KeyModel { metric: self.metric@, labels: self.labels.deep_view() },
            first_seen: self.first_seen,
            baseline_origin: self.baseline_origin,
            baseline_at: self.baseline_at,
            value: self.value.deep_view(),
        }
    }
}

/// What a cycle adds to the history of a series.
#[derive(Clone, Copy, Debug, PartialEq, Eq, Structural)]
pub enum HistoryEvent {
    Observed {
        series: u64,
        start: Nanos,
        end: Nanos,
        value: u64,
        delta: u64,
        interval: Nanos,
        reset: bool,
    },
    Gap { series: u64, at: Nanos },
}

/// What one cycle does to one series.
#[verifier::ext_equal]
pub struct StepModel {
    pub entry: EntryModel,
    pub row: Option<RowModel>,
    pub event: Option<HistoryEvent>,
}

/// The row that shows `value` for a series.
pub open spec fn row_of(
    catalog: CatalogModel,
    key: KeyModel,
    state: SeriesState<Seq<char>>,
    value: SeriesValue<Seq<char>>,
) -> RowModel {
    RowModel {
        id: state.id,
        owner: catalog[catalog::metric_at(catalog, key.metric)->0].owner,
        source: state.source,
        key,
        first_seen: state.first_seen,
        baseline_origin: state.baseline_origin,
        baseline_at: state.baseline_at,
        value,
    }
}

/// Whether only the current value of the metric is shown.
pub open spec fn is_private(key: KeyModel) -> bool {
    key.metric == RAW_PRIVATE_NIC_METRIC_ID@
}

/// When a series counts as first seen: at the start of the session if it is there
/// in the first cycle, else when it was first read.
pub open spec fn seen_at(first_cycle: bool, at: Nanos) -> Nanos {
    if first_cycle {
        0
    } else {
        at
    }
}

pub open spec fn origin_of(first_cycle: bool) -> BaselineOrigin {
    if first_cycle {
        BaselineOrigin::SessionStart
    } else {
        BaselineOrigin::FirstObserved
    }
}

/// Whether the observation is the one that was projected last.
pub open spec fn is_repeat(state: SeriesState<Seq<char>>, source: Seq<char>, at: Nanos) -> bool {
    !state.had_gap && state.source == source && (state.last_projection matches Some((last, _))
        && last == at)
}

/// One observed reading of a series.
pub open spec fn observed_step(
    catalog: CatalogModel,
    entry: EntryModel,
    index: int,
    source: Seq<char>,
    reading: MetricReading<Seq<char>>,
    at: Nanos,
    first_cycle: bool,
) -> StepModel {
    match entry.state {
        None => {
            let seen = seen_at(first_cycle, at);
            let raw = series::raw_of(reading, at);
            let value = series::first_value(raw, at, CounterContinuity::FirstSample, seen);
            let state = SeriesState {
                id: (index + 1) as u64,
                source,
                first_seen: seen,
                baseline_origin: origin_of(first_cycle),
                baseline_at: seen,
                had_gap: false,
                raw: Some(raw),
                last_projection: Some((at, value)),
            };
            StepModel {
                entry: EntryModel { key: entry.key, state: Some(state) },
                row: Some(row_of(catalog, entry.key, state, value)),
                event: match series::number_of(reading) {
                    Some(number) if !is_private(entry.key) => Some(
                        HistoryEvent::Observed {
                            series: state.id,
                            start: seen,
                            end: at,
                            value: number,
                            delta: 0,
                            interval: 0,
                            reset: false,
                        },
                    ),
                    _ => None,
                },
            }
        },
        Some(state) => if is_repeat(state, source, at) {
            StepModel {
                entry,
                row: Some(row_of(catalog, entry.key, state, (state.last_projection->0).1)),
                event: None,
            }
        } else {
            let recovered = state.had_gap || state.source != source;
            let base = SeriesState { source, had_gap: false, ..state };
            let private = is_private(entry.key);
            let next = series::updated_state(base, reading, at, recovered, private);
            let value = series::updated_value(base, reading, at, recovered, private);
            let shown = SeriesState { last_projection: Some((at, value)), ..next };
            StepModel {
                entry: EntryModel { key: entry.key, state: Some(shown) },
                row: Some(row_of(catalog, entry.key, shown, value)),
                event: match series::history_value(value) {
                    Some((current, delta, reset, interval)) if !private => Some(
                        HistoryEvent::Observed {
                            series: shown.id,
                            start: series::since(at, interval),
                            end: at,
                            value: current,
                            delta,
                            interval,
                            reset,
                        },
                    ),
                    _ => None,
                },
            }
        },
    }
}

/// A series that starts with a reading that is not available.
pub open spec fn admitted_unavailable(
    entry: EntryModel,
    index: int,
    source: Seq<char>,
    at: Nanos,
    first_cycle: bool,
) -> EntryModel {
    match entry.state {
        Some(_) => entry,
        None => EntryModel {
            key: entry.key,
            state: Some(
                SeriesState {
                    id: (index + 1) as u64,
                    source,
                    first_seen: seen_at(first_cycle, at),
                    baseline_origin: origin_of(first_cycle),
                    baseline_at: seen_at(first_cycle, at),
                    had_gap: false,
                    raw: None,
                    last_projection: None,
                },
            ),
        },
    }
}

/// What a series shows in a cycle without a reading of it, by the health of its
/// source: an old value where collection failed, "missing" where it worked, and
/// nothing where the source is not there.
pub open spec fn gap_value(
    catalog: CatalogModel,
    key: KeyModel,
    raw: Option<series::RawSeries<Seq<char>>>,
    reported: Option<UnavailableReason>,
    health: Option<ProviderHealth<Seq<char>>>,
    elapsed: Nanos,
) -> Option<SeriesValue<Seq<char>>> {
    let kind = catalog::kind_in(catalog, key);
    let missing = series::unavailable_value(kind, UnavailableReason::Missing);
    match reported {
        Some(reason) => Some(series::unavailable_value(kind, reason)),
        None => match health {
            Some(ProviderHealth::Stale { cause, .. }) => Some(
                match raw {
                    Some(raw) => series::stale_value(raw, elapsed, cause.code),
                    None => missing,
                },
            ),
            Some(ProviderHealth::Partial { warning }) => Some(
                match raw {
                    Some(raw) => series::stale_value(raw, elapsed, warning.code),
                    None => missing,
                },
            ),
            Some(ProviderHealth::Fresh) => Some(missing),
            _ => None,
        },
    }
}

/// A cycle without an observed reading of a series. `reported` is the source that
/// said so, with its reason.
pub open spec fn gap_step(
    catalog: CatalogModel,
    entry: EntryModel,
    reported: Option<(Seq<char>, UnavailableReason)>,
    healths: spec_fn(Seq<char>) -> Option<ProviderHealth<Seq<char>>>,
    elapsed: Nanos,
) -> StepModel {
    match entry.state {
        None => StepModel { entry, row: None, event: None },
        Some(state) => {
            let source = match reported {
                Some((source, _)) => source,
                None => state.source,
            };
            let reason = match reported {
                Some((_, reason)) => Some(reason),
                None => None,
            };
            let event = if state.had_gap {
                None
            } else {
                Some(HistoryEvent::Gap { series: state.id, at: elapsed })
            };
            let open = SeriesState { source, had_gap: true, ..state };
            match gap_value(catalog, entry.key, state.raw, reason, healths(source), elapsed) {
                None => StepModel {
                    entry: EntryModel { key: entry.key, state: Some(open) },
                    row: None,
                    event,
                },
                Some(value) => {
                    let shown = SeriesState { last_projection: Some((elapsed, value)), ..open };
                    StepModel {
                        entry: EntryModel { key: entry.key, state: Some(shown) },
                        row: Some(row_of(catalog, entry.key, shown, value)),
                        event,
                    }
                },
            }
        },
    }
}

/// The error that a health carries.
pub open spec fn error_of(health: ProviderHealth<Seq<char>>) -> Option<MonitorError<Seq<char>>> {
    match health {
        ProviderHealth::Fresh => None,
        ProviderHealth::Partial { warning } => Some(warning),
        ProviderHealth::Stale { cause, .. } => Some(cause),
        ProviderHealth::Unsupported { reason } => Some(reason),
        ProviderHealth::PermissionDenied { reason } => Some(reason),
        ProviderHealth::Error { error } => Some(error),
    }
}

/// A failure is shown as stale once the provider has succeeded before.
pub open spec fn projected_health(
    health: ProviderHealth<Seq<char>>,
    finished_at: Nanos,
    last_success: Option<Nanos>,
) -> ProviderHealth<Seq<char>> {
    if health.readable() {
        health
    } else {
        match (last_success, error_of(health)) {
            (Some(at), Some(cause)) => ProviderHealth::Stale {
                last_success_at: at,
                age: series::since(finished_at, at),
                cause,
            },
            _ => health,
        }
    }
}

/// The value of a map at a key.
pub open spec fn at_key(map: Map<Seq<char>, Nanos>, key: Seq<char>) -> Option<Nanos> {
    if map.dom().contains(key) {
        Some(map[key])
    } else {
        None
    }
}

/// When each provider last delivered readings, after the first `n` samples.
pub open spec fn successes_after(
    successes: Map<Seq<char>, Nanos>,
    samples: Seq<SampleModel>,
    n: int,
) -> Map<Seq<char>, Nanos>
    decreases n,
{
    if n <= 0 {
        successes
    } else {
        let before = successes_after(successes, samples, n - 1);
        if samples[n - 1].health.readable() {
            before.insert(samples[n - 1].provider, samples[n - 1].finished_at)
        } else {
            before
        }
    }
}

/// The health of each provider as the cycle shows it.
pub open spec fn cycle_healths(
    successes: Map<Seq<char>, Nanos>,
    samples: Seq<SampleModel>,
) -> Seq<ProviderHealth<Seq<char>>> {
    Seq::new(
        samples.len(),
        |i: int|
            projected_health(
                samples[i].health,
                samples[i].finished_at,
                at_key(successes, samples[i].provider),
            ),
    )
}

/// Whether a sample is the one of `provider`.
pub open spec fn sampled_by(provider: Seq<char>) -> spec_fn(SampleModel) -> bool {
    |sample: SampleModel| sample.provider == provider
}

/// The health of a provider in this cycle.
pub open spec fn health_of(
    samples: Seq<SampleModel>,
    healths: Seq<ProviderHealth<Seq<char>>>,
) -> spec_fn(Seq<char>) -> Option<ProviderHealth<Seq<char>>> {
    |provider: Seq<char>|
        match seqs::first_where(samples, sampled_by(provider), samples.len() as int) {
            Some(i) => Some(healths[i]),
            None => None,
        }
}

/// Whether the reading at `a` is preferred to the one at `b`: an observed reading
/// to one that is not, else the one whose source comes first.
pub open spec fn preferred(
    catalog: CatalogModel,
    samples: Seq<SampleModel>,
    a: (int, int),
    b: (int, int),
) -> bool {
    let x = samples[a.0].readings[a.1];
    let y = samples[b.0].readings[b.1];
    (x.outcome is Observed && !(y.outcome is Observed)) || ((x.outcome is Observed) == (
    y.outcome is Observed) && catalog::priority_in(catalog, x.key, samples[a.0].provider)->0
        < catalog::priority_in(catalog, y.key, samples[b.0].provider)->0)
}

/// The preferred reading of a series among the samples before `p` and the first
/// `r` readings of sample `p`.
pub open spec fn candidate_upto(
    catalog: CatalogModel,
    samples: Seq<SampleModel>,
    key: KeyModel,
    p: int,
    r: int,
) -> Option<(int, int)>
    decreases p, r,
{
    if p < 0 || (r <= 0 && p == 0) {
        None
    } else if r <= 0 {
        candidate_upto(catalog, samples, key, p - 1, samples[p - 1].readings.len() as int)
    } else {
        let before = candidate_upto(catalog, samples, key, p, r - 1);
        if samples[p].readings[r - 1].key == key && (before is None || preferred(
            catalog,
            samples,
            (p, r - 1),
            before->0,
        )) {
            Some((p, r - 1))
        } else {
            before
        }
    }
}

/// The reading that a cycle takes for a series.
pub open spec fn candidate_of(
    catalog: CatalogModel,
    samples: Seq<SampleModel>,
    key: KeyModel,
) -> Option<(int, int)> {
    candidate_upto(catalog, samples, key, samples.len() as int, 0)
}

/// Whether a focus leaves a provider out.
pub open spec fn suspends(focus: Option<Seq<Seq<char>>>, provider: Seq<char>) -> bool {
    focus matches Some(allowed) && !allowed.contains(provider)
}

/// What a cycle is given and what it finds.
pub struct CycleModel {
    pub catalog: CatalogModel,
    pub focus: Option<Seq<Seq<char>>>,
    pub first_cycle: bool,
    pub elapsed: Nanos,
    pub samples: Seq<SampleModel>,
    pub healths: Seq<ProviderHealth<Seq<char>>>,
    pub entries: Seq<EntryModel>,
}

/// What the cycle does to the series at `index`.
pub open spec fn step_at(cycle: CycleModel, index: int) -> StepModel {
    let entry = cycle.entries[index];
    let healths = health_of(cycle.samples, cycle.healths);
    match candidate_of(cycle.catalog, cycle.samples, entry.key) {
        Some((p, r)) => {
            let sample = cycle.samples[p];
            match sample.readings[r].outcome {
                ReadingOutcome::Observed(reading) => observed_step(
                    cycle.catalog,
                    entry,
                    index,
                    sample.provider,
                    reading,
                    sample.finished_at,
                    cycle.first_cycle,
                ),
                ReadingOutcome::Unavailable(reason) => gap_step(
                    cycle.catalog,
                    admitted_unavailable(
                        entry,
                        index,
                        sample.provider,
                        sample.finished_at,
                        cycle.first_cycle,
                    ),
                    Some((sample.provider, reason)),
                    healths,
                    cycle.elapsed,
                ),
            }
        },
        None => if entry.state matches Some(state) && suspends(cycle.focus, state.source) {
            StepModel { entry, row: None, event: None }
        } else {
            gap_step(cycle.catalog, entry, None, healths, cycle.elapsed)
        },
    }
}

/// The rows of the first `n` series.
pub open spec fn rows_upto(cycle: CycleModel, n: int) -> Seq<RowModel>
    decreases n,
{
    if n <= 0 {
        Seq::empty()
    } else {
        match step_at(cycle, n - 1).row {
            Some(row) => rows_upto(cycle, n - 1).push(row),
            None => rows_upto(cycle, n - 1),
        }
    }
}

/// The history events of the first `n` series.
pub open spec fn events_upto(cycle: CycleModel, n: int) -> Seq<HistoryEvent>
    decreases n,
{
    if n <= 0 {
        Seq::empty()
    } else {
        match step_at(cycle, n - 1).event {
            Some(event) => events_upto(cycle, n - 1).push(event),
            None => events_upto(cycle, n - 1),
        }
    }
}

/// Whether some series has this identity.
pub open spec fn has_key(entries: Seq<EntryModel>, key: KeyModel) -> bool {
    exists|i: int| 0 <= i < entries.len() && (#[trigger] entries[i]).key == key
}

/// Whether the identities are in strictly ascending order.
pub open spec fn keys_ordered(keys: Seq<KeyModel>) -> bool {
    forall|i: int, j: int|
        0 <= i < j < keys.len() ==> model::key_before(#[trigger] keys[i], #[trigger] keys[j])
}

/// The position at which `key` belongs: behind the identities that come before it.
pub open spec fn key_slot(keys: Seq<KeyModel>, key: KeyModel) -> int
    decreases keys.len(),
{
    if keys.len() == 0 || model::key_before(keys.last(), key) {
        keys.len() as int
    } else {
        key_slot(keys.drop_last(), key)
    }
}

/// The identities with one more put at its place, if it is not there yet.
pub open spec fn with_key(keys: Seq<KeyModel>, key: KeyModel) -> Seq<KeyModel> {
    if keys.contains(key) {
        keys
    } else {
        keys.insert(key_slot(keys, key), key)
    }
}

/// The identities without a series among the samples before `p` and the first `r`
/// readings of sample `p`, in canonical order.
pub open spec fn new_keys_upto(
    entries: Seq<EntryModel>,
    samples: Seq<SampleModel>,
    p: int,
    r: int,
) -> Seq<KeyModel>
    decreases p, r,
{
    if p < 0 || (r <= 0 && p == 0) {
        Seq::empty()
    } else if r <= 0 {
        new_keys_upto(entries, samples, p - 1, samples[p - 1].readings.len() as int)
    } else {
        let before = new_keys_upto(entries, samples, p, r - 1);
        let key = samples[p].readings[r - 1].key;
        if has_key(entries, key) {
            before
        } else {
            with_key(before, key)
        }
    }
}

/// How many of `count` new series still find room.
pub open spec fn admissible(entries: Seq<EntryModel>, count: int) -> int {
    if entries.len() + count <= MAX_ADMITTED_SERIES {
        count
    } else {
        MAX_ADMITTED_SERIES - entries.len()
    }
}

/// The series after admission: new identities in canonical order, as far as there
/// is room.
pub open spec fn admitted(entries: Seq<EntryModel>, keys: Seq<KeyModel>) -> Seq<EntryModel> {
    entries + Seq::new(
        admissible(entries, keys.len() as int) as nat,
        |i: int| EntryModel { key: keys[i], state: None },
    )
}

/// One more new identity is admitted exactly if there is room.
proof fn lemma_admitted_next(entries: Seq<EntryModel>, keys: Seq<KeyModel>, i: int)
    requires
        entries.len() <= MAX_ADMITTED_SERIES,
        0 <= i < keys.len(),
    ensures
        ({
            let now = admitted(entries, keys.take(i));
            let next = admitted(entries, keys.take(i + 1));
            if now.len() >= MAX_ADMITTED_SERIES {
                &&& next == now
                &&& admissible(entries, i + 1) == admissible(entries, i)
            } else {
                &&& next == now.push(EntryModel { key: keys[i], state: None })
                &&& admissible(entries, i + 1) == admissible(entries, i) + 1
            }
        }),
{
    let now = admitted(entries, keys.take(i));
    let next = admitted(entries, keys.take(i + 1));
    assert(keys.take(i).len() == i && keys.take(i + 1).len() == i + 1);
    assert(now.len() == entries.len() + admissible(entries, i));
    if now.len() >= MAX_ADMITTED_SERIES {
        assert(next =~= now);
    } else {
        assert(next =~= now.push(EntryModel { key: keys[i], state: None }));
    }
}

/// What a contract says of a provider's row.
#[verifier::ext_equal]
pub struct ProviderRowModel {
    pub provider: Seq<char>,
    pub health: ProviderHealth<Seq<char>>,
    pub last_attempt_at: Nanos,
    pub collection_duration: Nanos,
    pub unavailable_readings: u32,
}

/// One provider as a snapshot shows it.
#[derive(Clone, Debug, PartialEq, Eq)]
pub struct ProviderSnapshot {
    pub provider: String,
    pub health: ProviderHealth<String>,
    pub last_attempt_at: Nanos,
    pub collection_duration: Nanos,
    pub unavailable_readings: u32,
}

impl DeepView for ProviderSnapshot {
    type V = ProviderRowModel;

    open spec fn deep_view(&self) -> ProviderRowModel {
        ProviderRowModel {
            provider: self.provider@,
            health: self.health.deep_view(),
            last_attempt_at: self.last_attempt_at,
            collection_duration: self.collection_duration,
            unavailable_readings: self.unavailable_readings,
        }
    }
}

/// How many of the first `n` readings are not available.
pub open spec fn unavailable_count(readings: Seq<ReadingModel>, n: int) -> nat
    decreases n,
{
    if n <= 0 {
        0
    } else if readings[n - 1].outcome is Unavailable {
        unavailable_count(readings, n - 1) + 1
    } else {
        unavailable_count(readings, n - 1)
    }
}

pub open spec fn provider_row(
    sample: SampleModel,
    health: ProviderHealth<Seq<char>>,
) -> ProviderRowModel {
    ProviderRowModel {
        provider: sample.provider,
        health,
        last_attempt_at: sample.finished_at,
        collection_duration: sample.collection_duration,
        unavailable_readings: unavailable_count(
            sample.readings,
            sample.readings.len() as int,
        ) as u32,
    }
}

/// The position at which a provider belongs in a list in byte order.
pub open spec fn row_slot(rows: Seq<ProviderRowModel>, provider: Seq<char>) -> int
    decreases rows.len(),
{
    if rows.len() == 0 || text::text_before(rows.last().provider, provider) {
        rows.len() as int
    } else {
        row_slot(rows.drop_last(), provider)
    }
}

/// The provider rows of the first `n` samples, in byte order of the providers.
pub open spec fn provider_rows_upto(
    samples: Seq<SampleModel>,
    healths: Seq<ProviderHealth<Seq<char>>>,
    n: int,
) -> Seq<ProviderRowModel>
    decreases n,
{
    if n <= 0 {
        Seq::empty()
    } else {
        let before = provider_rows_upto(samples, healths, n - 1);
        let row = provider_row(samples[n - 1], healths[n - 1]);
        before.insert(row_slot(before, row.provider), row)
    }
}

/// Whether sample `i` has the provider of an earlier sample.
pub open spec fn repeats_provider(samples: Seq<SampleModel>, i: int) -> bool {
    exists|j: int| 0 <= j < i && (#[trigger] samples[j]).provider == samples[i].provider
}

/// The first of the first `n` samples whose provider occurred before.
pub open spec fn first_repeat(samples: Seq<SampleModel>, n: int) -> Option<int>
    decreases n,
{
    if n <= 0 {
        None
    } else {
        match first_repeat(samples, n - 1) {
            Some(i) => Some(i),
            None => if repeats_provider(samples, n - 1) {
                Some(n - 1)
            } else {
                None
            },
        }
    }
}

/// Counters of what the engine did.
#[derive(Clone, Copy, Debug, PartialEq, Eq, Structural)]
pub struct EngineTelemetry {
    pub samples_scheduled: u64,
    pub samples_completed: u64,
    pub skipped_snapshots: u64,
    pub provider_missed_samples: u64,
    pub rejected_series: u64,
    pub evicted_series: u64,
    /// How many buckets of history the rows that are shown have.
    pub history_buckets: u64,
    /// How many bytes these buckets take.
    pub history_bytes: u64,
}

/// How many bytes a bucket of history takes.
pub const HISTORY_BUCKET_BYTES: u64 = 128;

/// Counters with how much history there is.
pub open spec fn with_history(telemetry: EngineTelemetry, buckets: u64) -> EngineTelemetry {
    EngineTelemetry {
        history_buckets: buckets,
        history_bytes: if buckets * HISTORY_BUCKET_BYTES <= u64::MAX {
            (buckets * HISTORY_BUCKET_BYTES) as u64
        } else {
            u64::MAX
        },
        ..telemetry
    }
}

/// What a contract says of the engine.
#[verifier::ext_equal]
pub struct EngineModel {
    pub catalog: CatalogModel,
    pub focus: Option<Seq<Seq<char>>>,
    pub generation: u64,
    pub sequence: u64,
    pub started_at_unix_ms: u64,
    pub successes: Map<Seq<char>, Nanos>,
    pub entries: Seq<EntryModel>,
    pub telemetry: EngineTelemetry,
}

/// What a contract says of a snapshot.
#[verifier::ext_equal]
pub struct SnapshotModel {
    pub generation: u64,
    pub sequence: u64,
    pub started_at_unix_ms: u64,
    pub elapsed: Nanos,
    pub network_namespace: Option<Seq<char>>,
    pub providers: Seq<ProviderRowModel>,
    pub series: Seq<RowModel>,
    pub telemetry: EngineTelemetry,
}

/// Everything the monitor knows after one cycle.
#[derive(Clone, Debug, PartialEq, Eq)]
pub struct MonitorSnapshot {
    pub generation: u64,
    pub sequence: u64,
    pub started_at_unix_ms: u64,
    pub elapsed: Nanos,
    pub network_namespace: Option<String>,
    pub providers: Vec<ProviderSnapshot>,
    pub series: Vec<SeriesSnapshot>,
    pub telemetry: EngineTelemetry,
}

impl DeepView for MonitorSnapshot {
    type V = SnapshotModel;

    open spec fn deep_view(&self) -> SnapshotModel {
        SnapshotModel {
            generation: self.generation,
            sequence: self.sequence,
            started_at_unix_ms: self.started_at_unix_ms,
            elapsed: self.elapsed,
            network_namespace: self.network_namespace.deep_view(),
            providers: self.providers.deep_view(),
            series: self.series.deep_view(),
            telemetry: self.telemetry,
        }
    }
}

/// The state after the samples of a cycle were looked at, up to sample `n`.
pub open spec fn begun(engine: EngineModel, samples: Seq<SampleModel>, n: int) -> EngineModel {
    EngineModel {
        successes: successes_after(engine.successes, samples, n),
        telemetry: EngineTelemetry {
            samples_scheduled: series::capped_sum(engine.telemetry.samples_scheduled, 1),
            ..engine.telemetry
        },
        ..engine
    }
}

/// The identities that a cycle sees for the first time.
pub open spec fn cycle_keys(engine: EngineModel, samples: Seq<SampleModel>) -> Seq<KeyModel> {
    new_keys_upto(engine.entries, samples, samples.len() as int, 0)
}

/// A cycle over the series that an engine has.
pub open spec fn cycle_from(
    engine: EngineModel,
    elapsed: Nanos,
    samples: Seq<SampleModel>,
    healths: Seq<ProviderHealth<Seq<char>>>,
) -> CycleModel {
    CycleModel {
        catalog: engine.catalog,
        focus: engine.focus,
        first_cycle: engine.sequence == 0,
        elapsed,
        samples,
        healths,
        entries: engine.entries,
    }
}

/// What a cycle is given and what it finds.
pub open spec fn cycle_of(
    engine: EngineModel,
    elapsed: Nanos,
    samples: Seq<SampleModel>,
) -> CycleModel {
    CycleModel {
        catalog: engine.catalog,
        focus: engine.focus,
        first_cycle: engine.sequence == 0,
        elapsed,
        samples,
        healths: cycle_healths(engine.successes, samples),
        entries: admitted(engine.entries, cycle_keys(engine, samples)),
    }
}

/// The engine after a cycle.
pub open spec fn after_cycle(
    engine: EngineModel,
    elapsed: Nanos,
    samples: Seq<SampleModel>,
) -> EngineModel {
    let cycle = cycle_of(engine, elapsed, samples);
    let keys = cycle_keys(engine, samples);
    let rejected = keys.len() - admissible(engine.entries, keys.len() as int);
    let start = begun(engine, samples, samples.len() as int);
    EngineModel {
        sequence: series::capped_sum(engine.sequence, 1),
        entries: Seq::new(cycle.entries.len(), |i: int| step_at(cycle, i).entry),
        telemetry: EngineTelemetry {
            samples_completed: series::capped_sum(engine.telemetry.samples_completed, 1),
            rejected_series: series::capped_sum(
                engine.telemetry.rejected_series,
                rejected as u64,
            ),
            ..start.telemetry
        },
        ..start
    }
}

/// The snapshot that a cycle publishes.
pub open spec fn snapshot_of(
    engine: EngineModel,
    elapsed: Nanos,
    samples: Seq<SampleModel>,
    network_namespace: Option<Seq<char>>,
) -> SnapshotModel {
    let cycle = cycle_of(engine, elapsed, samples);
    let after = after_cycle(engine, elapsed, samples);
    SnapshotModel {
        generation: after.generation,
        sequence: after.sequence,
        started_at_unix_ms: after.started_at_unix_ms,
        elapsed,
        network_namespace,
        providers: provider_rows_upto(samples, cycle.healths, samples.len() as int),
        series: rows_upto(cycle, cycle.entries.len() as int),
        telemetry: after.telemetry,
    }
}

/// Whether a series is as the engine keeps it: its identity is catalogued, its id
/// is its position, and what is kept of its readings has the metric's kind.
pub open spec fn entry_wf(catalog: CatalogModel, entry: EntryModel, index: int) -> bool {
    &&& catalog::is_known(catalog, entry.key)
    &&& entry.state matches Some(state) ==> {
        &&& state.id == index + 1
        &&& state.raw is None ==> state.had_gap
        &&& state.raw matches Some(raw) ==> raw.fits() && raw.kind_of() == catalog::kind_in(
            catalog,
            entry.key,
        )
    }
}

/// Whether an engine state is one that the engine can be in.
pub open spec fn engine_wf(engine: EngineModel) -> bool {
    &&& engine.entries.len() <= MAX_ADMITTED_SERIES
    &&& forall|i: int|
        0 <= i < engine.entries.len() ==> entry_wf(
            engine.catalog,
            #[trigger] engine.entries[i],
            i,
        )
    &&& forall|i: int, j: int|
        0 <= i < j < engine.entries.len() ==> (#[trigger] engine.entries[i]).key != (
        #[trigger] engine.entries[j]).key
}

fn snapshot_row(
    catalog: &MetricCatalog,
    key: &SeriesKey,
    state: &SeriesState<String>,
    value: SeriesValue<String>,
) -> (row: SeriesSnapshot)
    requires
        catalog::is_known(catalog.deep_view(), key.deep_view()),
    ensures
        row.deep_view() == row_of(
            catalog.deep_view(),
            key.deep_view(),
            state.deep_view(),
            value.deep_view(),
        ),
{
    let owner = match catalog.descriptor(key.metric.as_str()) {
        Some(descriptor) => descriptor.owner.clone(),
        None => String::new(),
    };
    SeriesSnapshot {
        id: state.id,
        owner,
        source: state.source.clone(),
        metric: key.metric.clone(),
        labels: key.labels.copy(),
        first_seen: state.first_seen,
        baseline_origin: state.baseline_origin,
        baseline_at: state.baseline_at,
        value,
    }
}

/// Takes one observed reading into a series and shows it. A reading that was
/// projected already is shown again, unchanged.
pub fn project_observed(
    catalog: &MetricCatalog,
    entry: &mut SeriesEntry,
    index: usize,
    source: &str,
    reading: &MetricReading<String>,
    observed_at: Nanos,
    first_cycle: bool,
) -> (result: (SeriesSnapshot, Option<HistoryEvent>))
    requires
        entry_wf(catalog.deep_view(), old(entry).deep_view(), index as int),
        index < MAX_ADMITTED_SERIES,
        reading.deep_view().kind_of() == catalog::kind_in(
            catalog.deep_view(),
            old(entry).deep_view().key,
        ),
        reading.deep_view() matches MetricReading::Counter { value, bits } ==> catalog::fits_width(
            value,
            bits,
        ),
    ensures
        ({
            let step = observed_step(
                catalog.deep_view(),
                old(entry).deep_view(),
                index as int,
                source@,
                reading.deep_view(),
                observed_at,
                first_cycle,
            );
            &&& final(entry).deep_view() == step.entry
            &&& Some(result.0.deep_view()) == step.row
            &&& result.1 == step.event
        }),
        entry_wf(catalog.deep_view(), final(entry).deep_view(), index as int),
{
    let private: bool = same_text(entry.key.metric.as_str(), RAW_PRIVATE_NIC_METRIC_ID);
    let kept = entry.state.take();
    match kept {
        None => {
            let seen: Nanos = if first_cycle {
                0
            } else {
                observed_at
            };
            let origin = if first_cycle {
                BaselineOrigin::SessionStart
            } else {
                BaselineOrigin::FirstObserved
            };
            let raw = raw_from_reading(reading.copy(), observed_at);
            let value = first_series_value(
                &raw,
                observed_at,
                CounterContinuity::FirstSample,
                seen,
            );
            let id: u64 = index as u64 + 1;
            let state = SeriesState {
                id,
                source: text::owned(source),
                first_seen: seen,
                baseline_origin: origin,
                baseline_at: seen,
                had_gap: false,
                raw: Some(raw),
                last_projection: Some((observed_at, value.copy())),
            };
            let event: Option<HistoryEvent> = match numeric_reading(reading) {
                Some(number) => if private {
                    None
                } else {
                    Some(
                        HistoryEvent::Observed {
                            series: id,
                            start: seen,
                            end: observed_at,
                            value: number,
                            delta: 0,
                            interval: 0,
                            reset: false,
                        },
                    )
                },
                None => None,
            };
            let row = snapshot_row(catalog, &entry.key, &state, value);
            entry.state = Some(state);
            (row, event)
        },
        Some(state) => {
            let mut state = state;
            let same_source: bool = same_text(state.source.as_str(), source);
            if !state.had_gap && same_source {
                if let Some((at, value)) = &state.last_projection {
                    if *at == observed_at {
                        let shown = value.copy();
                        let row = snapshot_row(catalog, &entry.key, &state, shown);
                        entry.state = Some(state);
                        return (row, None);
                    }
                }
            }
            let recovered: bool = state.had_gap || !same_source;
            if !same_source {
                state.source = text::owned(source);
            }
            state.had_gap = false;
            let result = update_raw_series(
                &mut state,
                reading.copy(),
                observed_at,
                recovered,
                private,
            );
            match result {
                Ok(value) => {
                    let event: Option<HistoryEvent> = match numeric_series_value(&value) {
                        Some((current, delta, reset, interval)) => if private {
                            None
                        } else {
                            Some(
                                HistoryEvent::Observed {
                                    series: state.id,
                                    start: observed_at.saturating_sub(interval),
                                    end: observed_at,
                                    value: current,
                                    delta,
                                    interval,
                                    reset,
                                },
                            )
                        },
                        None => None,
                    };
                    state.last_projection = Some((observed_at, value.copy()));
                    let row = snapshot_row(catalog, &entry.key, &state, value);
                    entry.state = Some(state);
                    (row, event)
                },
                Err(_) => {
                    assert(false);
                    let row = snapshot_row(
                        catalog,
                        &entry.key,
                        &state,
                        unavailable_series_value(reading.kind(), UnavailableReason::Missing),
                    );
                    (row, None)
                },
            }
        },
    }
}

/// Gives a state to a series whose first reading is not available.
fn admit_unavailable_series(
    entry: &mut SeriesEntry,
    index: usize,
    source: &str,
    observed_at: Nanos,
    first_cycle: bool,
)
    requires
        index < MAX_ADMITTED_SERIES,
    ensures
        final(entry).deep_view() == admitted_unavailable(
            old(entry).deep_view(),
            index as int,
            source@,
            observed_at,
            first_cycle,
        ),
{
    if entry.state.is_some() {
        return;
    }
    let seen: Nanos = if first_cycle {
        0
    } else {
        observed_at
    };
    let origin = if first_cycle {
        BaselineOrigin::SessionStart
    } else {
        BaselineOrigin::FirstObserved
    };
    entry.state =
    Some(
        SeriesState {
            id: index as u64 + 1,
            source: text::owned(source),
            first_seen: seen,
            baseline_origin: origin,
            baseline_at: seen,
            had_gap: false,
            raw: None,
            last_projection: None,
        },
    );
}

/// The health of a provider in this cycle.
fn find_health<'a>(
    samples: &Vec<ProviderSample>,
    healths: &'a Vec<ProviderHealth<String>>,
    provider: &str,
) -> (found: Option<&'a ProviderHealth<String>>)
    requires
        samples.len() == healths.len(),
    ensures
        match found {
            Some(health) => health_of(samples.deep_view(), healths.deep_view())(provider@) == Some(
                health.deep_view(),
            ),
            None => health_of(samples.deep_view(), healths.deep_view())(provider@) is None,
        },
{
    let ghost all = samples.deep_view();
    let ghost p = sampled_by(provider@);
    let mut i: usize = 0;
    while i < samples.len()
        invariant
            i <= samples.len() == healths.len(),
            all == samples.deep_view(),
            p == sampled_by(provider@),
            seqs::first_where(all, p, i as int) is None,
        decreases samples.len() - i,
    {
        assert(all[i as int] == samples@[i as int].deep_view());
        if same_text(samples[i].provider.as_str(), provider) {
            proof {
                assert(seqs::first_where(all, p, i as int + 1) == Some(i as int));
                seqs::lemma_first_where_stays(all, p, i as int + 1, all.len() as int);
            }
            return Some(&healths[i]);
        }
        i += 1;
    }
    None
}

/// Shows a series in a cycle without an observed reading of it.
fn project_gap(
    catalog: &MetricCatalog,
    entry: &mut SeriesEntry,
    reported: Option<(&str, UnavailableReason)>,
    samples: &Vec<ProviderSample>,
    healths: &Vec<ProviderHealth<String>>,
    elapsed: Nanos,
) -> (result: (Option<SeriesSnapshot>, Option<HistoryEvent>))
    requires
        catalog::is_known(catalog.deep_view(), old(entry).deep_view().key),
        samples.len() == healths.len(),
    ensures
        ({
            let step = gap_step(
                catalog.deep_view(),
                old(entry).deep_view(),
                match reported {
                    Some((source, reason)) => Some((source@, reason)),
                    None => None,
                },
                health_of(samples.deep_view(), healths.deep_view()),
                elapsed,
            );
            &&& final(entry).deep_view() == step.entry
            &&& result.0.deep_view() == step.row
            &&& result.1 == step.event
        }),
{
    let kind = match catalog.descriptor(entry.key.metric.as_str()) {
        Some(descriptor) => descriptor.kind,
        None => model::MetricKind::State,
    };
    match entry.state.take() {
        None => (None, None),
        Some(state) => {
            let mut state = state;
            if let Some((source, _)) = reported {
                if !same_text(state.source.as_str(), source) {
                    state.source = text::owned(source);
                }
            }
            let event: Option<HistoryEvent> = if state.had_gap {
                None
            } else {
                Some(HistoryEvent::Gap { series: state.id, at: elapsed })
            };
            state.had_gap = true;
            let value: Option<SeriesValue<String>> = match reported {
                Some((_, reason)) => Some(unavailable_series_value(kind, reason)),
                None => match find_health(samples, healths, state.source.as_str()) {
                    Some(ProviderHealth::Stale { cause, .. }) => match &state.raw {
                        Some(raw) => Some(stale_series_value(raw, elapsed, cause.code)),
                        None => Some(unavailable_series_value(kind, UnavailableReason::Missing)),
                    },
                    Some(ProviderHealth::Partial { warning }) => match &state.raw {
                        Some(raw) => Some(stale_series_value(raw, elapsed, warning.code)),
                        None => Some(unavailable_series_value(kind, UnavailableReason::Missing)),
                    },
                    Some(ProviderHealth::Fresh) => Some(
                        unavailable_series_value(kind, UnavailableReason::Missing),
                    ),
                    _ => None,
                },
            };
            match value {
                None => {
                    entry.state = Some(state);
                    (None, event)
                },
                Some(value) => {
                    state.last_projection = Some((elapsed, value.copy()));
                    let row = snapshot_row(catalog, &entry.key, &state, value);
                    entry.state = Some(state);
                    (Some(row), event)
                },
            }
        },
    }
}

/// The error that a health carries.
fn provider_error(health: &ProviderHealth<String>) -> (error: Option<MonitorError<String>>)
    ensures
        error.deep_view() == error_of(health.deep_view()),
{
    match health {
        ProviderHealth::Fresh => None,
        ProviderHealth::Partial { warning } => Some(warning.copy()),
        ProviderHealth::Stale { cause, .. } => Some(cause.copy()),
        ProviderHealth::Unsupported { reason } => Some(reason.copy()),
        ProviderHealth::PermissionDenied { reason } => Some(reason.copy()),
        ProviderHealth::Error { error } => Some(error.copy()),
    }
}

fn project_provider_health(
    health: &ProviderHealth<String>,
    finished_at: Nanos,
    last_success_at: Option<Nanos>,
) -> (projected: ProviderHealth<String>)
    ensures
        projected.deep_view() == projected_health(health.deep_view(), finished_at, last_success_at),
{
    if health.allows_readings() {
        return health.copy();
    }
    match last_success_at {
        None => health.copy(),
        Some(at) => match provider_error(health) {
            None => health.copy(),
            Some(cause) => ProviderHealth::Stale {
                last_success_at: at,
                age: finished_at.saturating_sub(at),
                cause,
            },
        },
    }
}

/// Whether the reading at `a` is preferred to the one at `b`.
fn candidate_precedes(
    catalog: &MetricCatalog,
    samples: &Vec<ProviderSample>,
    a: (usize, usize),
    b: (usize, usize),
) -> (precedes: bool)
    requires
        a.0 < samples.len() && a.1 < samples[a.0 as int].readings.len(),
        b.0 < samples.len() && b.1 < samples[b.0 as int].readings.len(),
        forall|i: int|
            0 <= i < samples.len() ==> catalog::sample_valid(
                catalog.deep_view(),
                #[trigger] samples.deep_view()[i],
            ),
    ensures
        precedes == preferred(
            catalog.deep_view(),
            samples.deep_view(),
            (a.0 as int, a.1 as int),
            (b.0 as int, b.1 as int),
        ),
{
    let x = &samples[a.0].readings[a.1];
    let y = &samples[b.0].readings[b.1];
    proof {
        assert(samples.deep_view()[a.0 as int] == samples@[a.0 as int].deep_view());
        assert(samples.deep_view()[b.0 as int] == samples@[b.0 as int].deep_view());
        assert(samples.deep_view()[a.0 as int].readings[a.1 as int] == x.deep_view());
        assert(samples.deep_view()[b.0 as int].readings[b.1 as int] == y.deep_view());
    }
    let x_observed: bool = match x.outcome {
        ReadingOutcome::Observed(_) => true,
        ReadingOutcome::Unavailable(_) => false,
    };
    let y_observed: bool = match y.outcome {
        ReadingOutcome::Observed(_) => true,
        ReadingOutcome::Unavailable(_) => false,
    };
    if x_observed != y_observed {
        return x_observed;
    }
    let x_priority: usize = priority(catalog, &samples[a.0].provider, x);
    let y_priority: usize = priority(catalog, &samples[b.0].provider, y);
    x_priority < y_priority
}

fn priority(catalog: &MetricCatalog, provider: &String, reading: &SampleReading) -> (priority:
    usize)
    requires
        catalog::is_known(catalog.deep_view(), reading.deep_view().key),
        catalog::priority_in(catalog.deep_view(), reading.deep_view().key, provider@) is Some,
    ensures
        catalog::priority_in(catalog.deep_view(), reading.deep_view().key, provider@) == Some(
            priority as int,
        ),
{
    match catalog.descriptor(reading.metric.as_str()) {
        Some(descriptor) => match descriptor.source_priority(provider.as_str()) {
            Some(priority) => priority,
            None => 0,
        },
        None => 0,
    }
}

/// How many readings are not available.
fn count_unavailable(readings: &Vec<SampleReading>) -> (count: u32)
    requires
        readings.len() <= model::MAX_READINGS_PER_PROVIDER,
    ensures
        count == unavailable_count(readings.deep_view(), readings.len() as int),
{
    let ghost all = readings.deep_view();
    let mut count: u32 = 0;
    for i in 0..readings.len()
        invariant
            all == readings.deep_view(),
            readings.len() <= model::MAX_READINGS_PER_PROVIDER,
            count <= i,
            count == unavailable_count(all, i as int),
    {
        assert(all[i as int] == readings@[i as int].deep_view());
        if let ReadingOutcome::Unavailable(_) = readings[i].outcome {
            count += 1;
        }
    }
    count
}

proof fn lemma_success_of_new_provider(
    successes: Map<Seq<char>, Nanos>,
    samples: Seq<SampleModel>,
    n: int,
    provider: Seq<char>,
)
    requires
        0 <= n <= samples.len(),
        forall|j: int| 0 <= j < n ==> (#[trigger] samples[j]).provider != provider,
    ensures
        at_key(successes_after(successes, samples, n), provider) == at_key(successes, provider),
    decreases n,
{
    if n > 0 {
        lemma_success_of_new_provider(successes, samples, n - 1, provider);
    }
}

proof fn lemma_first_repeat_stays(samples: Seq<SampleModel>, m: int, n: int)
    requires
        0 <= m <= n,
        first_repeat(samples, m) is Some,
    ensures
        first_repeat(samples, n) == first_repeat(samples, m),
    decreases n,
{
    if m < n {
        lemma_first_repeat_stays(samples, m, n - 1);
    }
}

/// Puts a provider row at its place.
fn place_row(rows: &mut Vec<ProviderSnapshot>, row: ProviderSnapshot)
    ensures
        final(rows).deep_view() == old(rows).deep_view().insert(
            row_slot(old(rows).deep_view(), row.provider@),
            row.deep_view(),
        ),
{
    let ghost all = rows.deep_view();
    let mut at: usize = rows.len();
    proof {
        seqs::lemma_take_all(all);
    }
    while at > 0 && !comes_before(rows[at - 1].provider.as_str(), row.provider.as_str())
        invariant
            at <= rows.len(),
            all == rows.deep_view(),
            row_slot(all, row.provider@) == row_slot(all.take(at as int), row.provider@),
        decreases at,
    {
        proof {
            seqs::lemma_take_push(all, at - 1);
            assert(all[at - 1] == rows@[at - 1].deep_view());
        }
        at -= 1;
    }
    proof {
        if at > 0 {
            seqs::lemma_take_push(all, at - 1);
            assert(all[at - 1] == rows@[at - 1].deep_view());
        }
        assert(row_slot(all, row.provider@) == at);
    }
    let ghost model = row.deep_view();
    rows.insert(at, row);
    assert(rows.deep_view() =~= all.insert(at as int, model));
}

/// Where `key` belongs among identities in strictly ascending order.
pub proof fn lemma_key_slot(keys: Seq<KeyModel>, key: KeyModel)
    requires
        keys_ordered(keys),
    ensures
        0 <= key_slot(keys, key) <= keys.len(),
        forall|i: int|
            0 <= i < key_slot(keys, key) ==> model::key_before(#[trigger] keys[i], key),
        forall|i: int|
            key_slot(keys, key) <= i < keys.len() ==> !model::key_before(#[trigger] keys[i], key),
        keys.contains(key) <==> (key_slot(keys, key) < keys.len() && keys[key_slot(keys, key)]
            == key),
        keys_ordered(with_key(keys, key)),
    decreases keys.len(),
{
    let slot = key_slot(keys, key);
    if keys.len() > 0 && !model::key_before(keys.last(), key) {
        let rest = keys.drop_last();
        assert(keys_ordered(rest)) by {
            assert forall|i: int, j: int| 0 <= i < j < rest.len() implies model::key_before(
                #[trigger] rest[i],
                #[trigger] rest[j],
            ) by {
                assert(rest[i] == keys[i] && rest[j] == keys[j]);
            }
        }
        lemma_key_slot(rest, key);
        assert forall|i: int| 0 <= i < slot implies model::key_before(#[trigger] keys[i], key) by {
            assert(rest[i] == keys[i]);
        }
        assert forall|i: int| slot <= i < keys.len() implies !model::key_before(
            #[trigger] keys[i],
            key,
        ) by {
            if i < rest.len() {
                assert(rest[i] == keys[i]);
            }
        }
    } else if keys.len() > 0 {
        assert forall|i: int| 0 <= i < slot implies model::key_before(#[trigger] keys[i], key) by {
            if i < keys.len() - 1 {
                assert(model::key_before(keys[i], keys[keys.len() - 1]));
                model::key_order_is_strict_and_total(keys[i], keys.last(), key);
            }
        }
    }
    if keys.contains(key) {
        let i = choose|i: int| 0 <= i < keys.len() && keys[i] == key;
        model::key_order_is_strict_and_total(key, key, key);
        if i < slot {
            assert(model::key_before(keys[i], key));
        } else if i > slot {
            assert(model::key_before(keys[slot], keys[i]));
            assert(!model::key_before(keys[slot], key));
        }
    } else {
        let after = with_key(keys, key);
        assert forall|i: int, j: int| 0 <= i < j < after.len() implies model::key_before(
            #[trigger] after[i],
            #[trigger] after[j],
        ) by {
            let a: int = if i < slot {
                i
            } else {
                i - 1
            };
            let b: int = if j < slot {
                j
            } else {
                j - 1
            };
            if i != slot {
                assert(after[i] == keys[a]);
            }
            if j != slot {
                assert(after[j] == keys[b]);
            }
            if i == slot {
                model::key_order_is_strict_and_total(key, keys[b], key);
                assert(keys.contains(keys[b]));
            }
        }
    }
}

/// Puts an identity at its place, unless it is there.
fn place_key(keys: &mut Vec<SeriesKey>, key: SeriesKey)
    requires
        keys_ordered(old(keys).deep_view()),
    ensures
        final(keys).deep_view() == with_key(old(keys).deep_view(), key.deep_view()),
        keys_ordered(final(keys).deep_view()),
{
    let ghost all = keys.deep_view();
    let ghost model = key.deep_view();
    let mut at: usize = keys.len();
    proof {
        seqs::lemma_take_all(all);
        lemma_key_slot(all, model);
    }
    while at > 0 && !keys[at - 1].precedes(&key)
        invariant
            at <= keys.len(),
            all == keys.deep_view(),
            model == key.deep_view(),
            key_slot(all, model) == key_slot(all.take(at as int), model),
        decreases at,
    {
        proof {
            seqs::lemma_take_push(all, at - 1);
            assert(all[at - 1] == keys@[at - 1].deep_view());
        }
        at -= 1;
    }
    proof {
        if at > 0 {
            seqs::lemma_take_push(all, at - 1);
            assert(all[at - 1] == keys@[at - 1].deep_view());
        }
        assert(key_slot(all, model) == at);
    }
    if at < keys.len() && keys[at].same(&key) {
        assert(all[at as int] == keys@[at as int].deep_view());
        return;
    }
    proof {
        if at < keys.len() {
            assert(all[at as int] == keys@[at as int].deep_view());
        }
    }
    keys.insert(at, key);
    assert(keys.deep_view() =~= all.insert(at as int, model));
}

/// The position of the series with the identity of a reading.
fn find_series(series: &Vec<SeriesEntry>, reading: &SampleReading) -> (found: Option<usize>)
    ensures
        match found {
            Some(i) => i < series.len() && series.deep_view()[i as int].key
                == reading.deep_view().key,
            None => !has_key(series.deep_view(), reading.deep_view().key),
        },
{
    let ghost all = series.deep_view();
    let mut i: usize = 0;
    while i < series.len()
        invariant
            i <= series.len(),
            all == series.deep_view(),
            forall|j: int| 0 <= j < i ==> (#[trigger] all[j]).key != reading.deep_view().key,
        decreases series.len() - i,
    {
        assert(all[i as int] == series@[i as int].deep_view());
        if same_text(series[i].key.metric.as_str(), reading.metric.as_str())
            && series[i].key.labels.same(&reading.labels) {
            return Some(i);
        }
        i += 1;
    }
    None
}

/// The identities without a series, in canonical order.
fn find_new_keys(series: &Vec<SeriesEntry>, samples: &Vec<ProviderSample>) -> (keys: Vec<SeriesKey>)
    ensures
        keys.deep_view() == new_keys_upto(
            series.deep_view(),
            samples.deep_view(),
            samples.len() as int,
            0,
        ),
        keys_ordered(keys.deep_view()),
{
    let ghost entries = series.deep_view();
    let ghost all = samples.deep_view();
    let mut keys: Vec<SeriesKey> = Vec::new();
    assert(keys.deep_view() =~= Seq::<KeyModel>::empty());
    for p in 0..samples.len()
        invariant
            entries == series.deep_view(),
            all == samples.deep_view(),
            keys.deep_view() == new_keys_upto(entries, all, p as int, 0),
            keys_ordered(keys.deep_view()),
    {
        let readings = &samples[p].readings;
        assert(all[p as int] == samples@[p as int].deep_view());
        for r in 0..readings.len()
            invariant
                entries == series.deep_view(),
                all == samples.deep_view(),
                p < samples.len(),
                readings == samples@[p as int].readings,
                all[p as int].readings == readings.deep_view(),
                keys.deep_view() == new_keys_upto(entries, all, p as int, r as int),
                keys_ordered(keys.deep_view()),
        {
            let reading = &readings[r];
            assert(all[p as int].readings[r as int] == reading.deep_view());
            if find_series(series, reading).is_none() {
                place_key(&mut keys, SeriesKey::of(reading));
            }
        }
    }
    keys
}

/// The reading that the cycle takes for each series.
fn select_candidates(
    catalog: &MetricCatalog,
    series: &Vec<SeriesEntry>,
    samples: &Vec<ProviderSample>,
) -> (candidates: Vec<Option<(usize, usize)>>)
    requires
        forall|i: int|
            0 <= i < samples.len() ==> catalog::sample_valid(
                catalog.deep_view(),
                #[trigger] samples.deep_view()[i],
            ),
        forall|i: int, j: int|
            0 <= i < j < series.len() ==> (#[trigger] series.deep_view()[i]).key != (
            #[trigger] series.deep_view()[j]).key,
    ensures
        candidates.len() == series.len(),
        forall|i: int|
            0 <= i < series.len() ==> chosen(#[trigger] candidates@[i]) == candidate_of(
                catalog.deep_view(),
                samples.deep_view(),
                series.deep_view()[i].key,
            ),
        forall|i: int|
            0 <= i < series.len() ==> within(samples.deep_view(), #[trigger] candidates@[i]),
{
    let ghost cat = catalog.deep_view();
    let ghost entries = series.deep_view();
    let ghost all = samples.deep_view();
    let mut candidates: Vec<Option<(usize, usize)>> = Vec::new();
    for i in 0..series.len()
        invariant
            candidates.len() == i,
            forall|j: int| 0 <= j < i ==> #[trigger] candidates@[j] == None::<(usize, usize)>,
    {
        candidates.push(None);
    }
    for p in 0..samples.len()
        invariant
            cat == catalog.deep_view(),
            entries == series.deep_view(),
            all == samples.deep_view(),
            candidates.len() == series.len(),
            forall|i: int|
                0 <= i < samples.len() ==> catalog::sample_valid(cat, #[trigger] all[i]),
            forall|i: int, j: int|
                0 <= i < j < entries.len() ==> (#[trigger] entries[i]).key != (
                #[trigger] entries[j]).key,
            forall|i: int|
                0 <= i < entries.len() ==> chosen(#[trigger] candidates@[i]) == candidate_upto(
                    cat,
                    all,
                    entries[i].key,
                    p as int,
                    0,
                ),
            forall|i: int| 0 <= i < entries.len() ==> within(all, #[trigger] candidates@[i]),
    {
        let readings = &samples[p].readings;
        assert(all[p as int] == samples@[p as int].deep_view());
        for r in 0..readings.len()
            invariant
                cat == catalog.deep_view(),
                entries == series.deep_view(),
                all == samples.deep_view(),
                p < samples.len(),
                readings == samples@[p as int].readings,
                all[p as int].readings == readings.deep_view(),
                candidates.len() == series.len(),
                forall|i: int|
                    0 <= i < samples.len() ==> catalog::sample_valid(cat, #[trigger] all[i]),
                forall|i: int, j: int|
                    0 <= i < j < entries.len() ==> (#[trigger] entries[i]).key != (
                    #[trigger] entries[j]).key,
                forall|i: int|
                    0 <= i < entries.len() ==> chosen(#[trigger] candidates@[i])
                        == candidate_upto(cat, all, entries[i].key, p as int, r as int),
                forall|i: int| 0 <= i < entries.len() ==> within(all, #[trigger] candidates@[i]),
        {
            let reading = &readings[r];
            let ghost key = reading.deep_view().key;
            let ghost before = candidates@;
            assert(all[p as int].readings[r as int] == reading.deep_view());
            match find_series(series, reading) {
                None => {
                    assert forall|i: int| 0 <= i < entries.len() implies chosen(
                        #[trigger] candidates@[i],
                    ) == candidate_upto(cat, all, entries[i].key, p as int, r as int + 1) by {
                        assert(entries[i].key != key);
                    }
                },
                Some(index) => {
                    let better: bool = match candidates[index] {
                        None => true,
                        Some(current) => {
                            assert(within(all, candidates@[index as int]));
                            assert(all[current.0 as int] == samples@[current.0 as int].deep_view());
                            candidate_precedes(catalog, samples, (p, r), current)
                        },
                    };
                    if better {
                        candidates.set(index, Some((p, r)));
                    }
                    assert forall|i: int| 0 <= i < entries.len() implies chosen(
                        #[trigger] candidates@[i],
                    ) == candidate_upto(cat, all, entries[i].key, p as int, r as int + 1)
                        && within(all, candidates@[i]) by {
                        assert(within(all, before[i]));
                        assert(chosen(before[i]) == candidate_upto(
                            cat,
                            all,
                            entries[i].key,
                            p as int,
                            r as int,
                        ));
                        if i < index {
                            assert(entries[i].key != entries[index as int].key);
                        } else if i > index {
                            assert(entries[index as int].key != entries[i].key);
                        }
                    }
                },
            }
        }
    }
    candidates
}

/// A position in the samples, as a contract speaks of it.
pub open spec fn chosen(candidate: Option<(usize, usize)>) -> Option<(int, int)> {
    match candidate {
        Some((p, r)) => Some((p as int, r as int)),
        None => None,
    }
}

/// Whether a position is one of the samples.
pub open spec fn within(samples: Seq<SampleModel>, candidate: Option<(usize, usize)>) -> bool {
    candidate matches Some((p, r)) ==> p < samples.len() && r < samples[p as int].readings.len()
}

/// The state of a monitor session: the admitted series and when each provider last
/// delivered.
#[derive(Clone, Debug, PartialEq, Eq)]
pub struct MonitorEngine {
    pub catalog: MetricCatalog,
    pub focus: Option<Vec<String>>,
    pub generation: u64,
    pub sequence: u64,
    pub started_at_unix_ms: u64,
    pub successes: TextMap<Nanos>,
    pub series: Vec<SeriesEntry>,
    pub telemetry: EngineTelemetry,
}

impl DeepView for MonitorEngine {
    type V = EngineModel;

    open spec fn deep_view(&self) -> EngineModel {
        EngineModel {
            catalog: self.catalog.deep_view(),
            focus: self.focus.deep_view(),
            generation: self.generation,
            sequence: self.sequence,
            started_at_unix_ms: self.started_at_unix_ms,
            successes: self.successes.view(),
            entries: self.series.deep_view(),
            telemetry: self.telemetry,
        }
    }
}

/// The state of a series that a new focus leaves out: the rate of a counter starts
/// anew, anything else stays the same observation.
pub open spec fn suspended(
    entry: EntryModel,
    focus: Option<Seq<Seq<char>>>,
) -> EntryModel {
    match entry.state {
        Some(state) if suspends(focus, state.source) && (state.raw is None
            || state.raw->0 is Counter) => EntryModel {
            key: entry.key,
            state: Some(SeriesState { had_gap: true, last_projection: None, ..state }),
        },
        _ => entry,
    }
}

/// The engine with another focus.
pub open spec fn with_focus(engine: EngineModel, focus: Option<Seq<Seq<char>>>) -> EngineModel {
    if engine.focus == focus {
        engine
    } else {
        EngineModel {
            focus,
            entries: Seq::new(
                engine.entries.len(),
                |i: int| suspended(engine.entries[i], focus),
            ),
            ..engine
        }
    }
}

/// Whether `provider` is one of `allowed`.
fn contains_text(allowed: &Vec<String>, provider: &str) -> (found: bool)
    ensures
        found == allowed.deep_view().contains(provider@),
{
    let ghost all = allowed.deep_view();
    let mut i: usize = 0;
    while i < allowed.len()
        invariant
            i <= allowed.len(),
            all == allowed.deep_view(),
            forall|j: int| 0 <= j < i ==> #[trigger] all[j] != provider@,
        decreases allowed.len() - i,
    {
        assert(all[i as int] == allowed@[i as int]@);
        if same_text(allowed[i].as_str(), provider) {
            assert(all.contains(provider@));
            return true;
        }
        i += 1;
    }
    false
}

fn same_texts(a: &Vec<String>, b: &Vec<String>) -> (same: bool)
    ensures
        same == (a.deep_view() == b.deep_view()),
{
    let ghost x = a.deep_view();
    let ghost y = b.deep_view();
    assert(x.len() == a.len() && y.len() == b.len());
    if a.len() != b.len() {
        return false;
    }
    let mut i: usize = 0;
    while i < a.len()
        invariant
            i <= a.len() == b.len(),
            x == a.deep_view(),
            y == b.deep_view(),
            forall|j: int| 0 <= j < i ==> x[j] == y[j],
        decreases a.len() - i,
    {
        assert(x[i as int] == a@[i as int]@ && y[i as int] == b@[i as int]@);
        if !same_text(a[i].as_str(), b[i].as_str()) {
            return false;
        }
        i += 1;
    }
    assert(x =~= y);
    true
}

fn is_suspended(focus: &Option<Vec<String>>, provider: &str) -> (out: bool)
    ensures
        out == suspends(focus.deep_view(), provider@),
{
    match focus {
        Some(allowed) => !contains_text(allowed, provider),
        None => false,
    }
}

impl MonitorEngine {
    pub open spec fn wf(&self) -> bool {
        self.successes.wf() && engine_wf(self.deep_view())
    }

    /// A session without any series.
    pub fn new(catalog: MetricCatalog, started_at_unix_ms: u64) -> (engine: MonitorEngine)
        ensures
            engine.wf(),
            engine.deep_view() == (EngineModel {
                catalog: catalog.deep_view(),
                focus: None,
                generation: 1,
                sequence: 0,
                started_at_unix_ms,
                successes: Map::empty(),
                entries: Seq::empty(),
                telemetry: EngineTelemetry {
                    samples_scheduled: 0,
                    samples_completed: 0,
                    skipped_snapshots: 0,
                    provider_missed_samples: 0,
                    rejected_series: 0,
                    evicted_series: 0,
                    history_buckets: 0,
                    history_bytes: 0,
                },
            }),
    {
        let engine = MonitorEngine {
            catalog,
            focus: None,
            generation: 1,
            sequence: 0,
            started_at_unix_ms,
            successes: TextMap::new(),
            series: Vec::new(),
            telemetry: EngineTelemetry {
                samples_scheduled: 0,
                samples_completed: 0,
                skipped_snapshots: 0,
                provider_missed_samples: 0,
                rejected_series: 0,
                evicted_series: 0,
                history_buckets: 0,
                history_bytes: 0,
            },
        };
        assert(engine.deep_view().entries =~= Seq::<EntryModel>::empty());
        engine
    }

    /// Restricts the session to the providers of `focus`. Counters of providers
    /// that are left out start a new baseline when they come back.
    pub fn set_focus(&mut self, focus: Option<Vec<String>>)
        requires
            old(self).wf(),
        ensures
            final(self).wf(),
            final(self).deep_view() == with_focus(old(self).deep_view(), focus.deep_view()),
    {
        let same: bool = match (&self.focus, &focus) {
            (None, None) => true,
            (Some(a), Some(b)) => same_texts(a, b),
            _ => false,
        };
        if same {
            return;
        }
        let ghost before = self.deep_view();
        let ghost target = focus.deep_view();
        let count: usize = self.series.len();
        for i in 0..count
            invariant
                self.series.len() == before.entries.len() == count,
                target == focus.deep_view(),
                self.catalog.deep_view() == before.catalog,
                self.focus.deep_view() == before.focus,
                self.generation == before.generation,
                self.sequence == before.sequence,
                self.started_at_unix_ms == before.started_at_unix_ms,
                self.successes.wf(),
                self.successes.view() == before.successes,
                self.telemetry == before.telemetry,
                forall|j: int|
                    0 <= j < i ==> (#[trigger] self.series@[j]).deep_view() == suspended(
                        before.entries[j],
                        target,
                    ),
                forall|j: int|
                    i <= j < before.entries.len() ==> (#[trigger] self.series@[j]).deep_view()
                        == before.entries[j],
        {
            suspend_entry(&mut self.series[i], &focus);
        }
        self.focus = focus;
        proof {
            let after = with_focus(before, target);
            assert(self.deep_view().entries =~= after.entries);
            assert(self.deep_view() =~= after);
            assert forall|i: int| 0 <= i < after.entries.len() implies entry_wf(
                after.catalog,
                #[trigger] after.entries[i],
                i,
            ) by {
                assert(entry_wf(before.catalog, before.entries[i], i));
            }
            assert forall|i: int, j: int| 0 <= i < j < after.entries.len() implies (
            #[trigger] after.entries[i]).key != (#[trigger] after.entries[j]).key by {
                assert(before.entries[i].key != before.entries[j].key);
            }
        }
    }

    pub fn note_skipped_snapshot(&mut self)
        ensures
            final(self).deep_view() == (EngineModel {
                telemetry: EngineTelemetry {
                    skipped_snapshots: series::capped_sum(
                        old(self).deep_view().telemetry.skipped_snapshots,
                        1,
                    ),
                    ..old(self).deep_view().telemetry
                },
                ..old(self).deep_view()
            }),
            old(self).wf() ==> final(self).wf(),
    {
        self.telemetry.skipped_snapshots = self.telemetry.skipped_snapshots.saturating_add(1);
    }

    pub fn note_missed_samples(&mut self, count: u64)
        ensures
            final(self).deep_view() == (EngineModel {
                telemetry: EngineTelemetry {
                    provider_missed_samples: series::capped_sum(
                        old(self).deep_view().telemetry.provider_missed_samples,
                        count,
                    ),
                    ..old(self).deep_view().telemetry
                },
                ..old(self).deep_view()
            }),
            old(self).wf() ==> final(self).wf(),
    {
        self.telemetry.provider_missed_samples =
        self.telemetry.provider_missed_samples.saturating_add(count);
    }

    /// Takes how many buckets of history the rows of a snapshot have.
    pub fn note_history(&mut self, snapshot: &mut MonitorSnapshot, buckets: u64)
        ensures
            final(self).deep_view() == (EngineModel {
                telemetry: with_history(old(self).deep_view().telemetry, buckets),
                ..old(self).deep_view()
            }),
            final(snapshot).deep_view() == (SnapshotModel {
                telemetry: with_history(old(snapshot).deep_view().telemetry, buckets),
                ..old(snapshot).deep_view()
            }),
            old(self).wf() ==> final(self).wf(),
    {
        let bytes: u64 = match buckets.checked_mul(HISTORY_BUCKET_BYTES) {
            Some(bytes) => bytes,
            None => u64::MAX,
        };
        self.telemetry.history_buckets = buckets;
        self.telemetry.history_bytes = bytes;
        snapshot.telemetry.history_buckets = buckets;
        snapshot.telemetry.history_bytes = bytes;
    }

    /// Looks at the providers of a cycle: their health as it is shown, and their
    /// rows. A provider that occurs twice is an error.
    fn register_providers(&mut self, samples: &Vec<ProviderSample>) -> (result: Result<
        (Vec<ProviderHealth<String>>, Vec<ProviderSnapshot>),
        MonitorValidationError,
    >)
        requires
            old(self).wf(),
            forall|i: int|
                0 <= i < samples.len() ==> catalog::sample_valid(
                    old(self).deep_view().catalog,
                    #[trigger] samples.deep_view()[i],
                ),
        ensures
            final(self).wf(),
            ({
                let all = samples.deep_view();
                let n = all.len() as int;
                match result {
                    Ok((healths, rows)) => first_repeat(all, n) is None && final(self).deep_view()
                        == begun(old(self).deep_view(), all, n) && healths.deep_view()
                        == cycle_healths(old(self).deep_view().successes, all) && rows.deep_view()
                        == provider_rows_upto(
                        all,
                        cycle_healths(old(self).deep_view().successes, all),
                        n,
                    ),
                    Err(e) => e == MonitorValidationError::DuplicateProvider && (first_repeat(
                        all,
                        n,
                    ) matches Some(i) && final(self).deep_view() == begun(
                        old(self).deep_view(),
                        all,
                        i,
                    )),
                }
            }),
    {
        let ghost before = self.deep_view();
        let ghost all = samples.deep_view();
        let ghost shown = cycle_healths(before.successes, all);
        self.telemetry.samples_scheduled = self.telemetry.samples_scheduled.saturating_add(1);
        let mut healths: Vec<ProviderHealth<String>> = Vec::new();
        let mut rows: Vec<ProviderSnapshot> = Vec::new();
        proof {
            seqs::lemma_take_all(shown);
            assert(healths.deep_view() =~= shown.take(0));
            assert(rows.deep_view() =~= Seq::<ProviderRowModel>::empty());
        }
        for i in 0..samples.len()
            invariant
                before == old(self).deep_view(),
                all == samples.deep_view(),
                shown == cycle_healths(before.successes, all),
                forall|j: int|
                    0 <= j < samples.len() ==> catalog::sample_valid(
                        before.catalog,
                        #[trigger] all[j],
                    ),
                first_repeat(all, i as int) is None,
                self.successes.wf(),
                engine_wf(before),
                self.deep_view() == begun(before, all, i as int),
                healths.deep_view() == shown.take(i as int),
                rows.deep_view() == provider_rows_upto(all, shown, i as int),
        {
            let sample = &samples[i];
            assert(all[i as int] == sample.deep_view());
            let mut j: usize = 0;
            while j < i
                invariant
                    before == old(self).deep_view(),
                    j <= i < samples.len(),
                    sample == samples@[i as int],
                    all == samples.deep_view(),
                    all[i as int] == sample.deep_view(),
                    first_repeat(all, i as int) is None,
                    self.successes.wf(),
                    engine_wf(before),
                    self.deep_view() == begun(before, all, i as int),
                    forall|k: int| 0 <= k < j ==> (#[trigger] all[k]).provider != sample.provider@,
                decreases i - j,
            {
                assert(all[j as int] == samples@[j as int].deep_view());
                if same_text(samples[j].provider.as_str(), sample.provider.as_str()) {
                    proof {
                        assert(repeats_provider(all, i as int));
                        assert(first_repeat(all, i as int + 1) == Some(i as int));
                        lemma_first_repeat_stays(all, i as int + 1, all.len() as int);
                    }
                    return Err(MonitorValidationError::DuplicateProvider);
                }
                j += 1;
            }
            proof {
                assert(!repeats_provider(all, i as int));
                lemma_success_of_new_provider(
                    before.successes,
                    all,
                    i as int,
                    sample.provider@,
                );
            }
            let last_success_at = self.successes.get(sample.provider.as_str());
            let health = project_provider_health(
                &sample.health,
                sample.finished_at,
                last_success_at,
            );
            assert(health.deep_view() == shown[i as int]);
            if sample.health.allows_readings() {
                self.successes.insert(sample.provider.as_str(), sample.finished_at);
            }
            let row = ProviderSnapshot {
                provider: sample.provider.clone(),
                health: health.copy(),
                last_attempt_at: sample.finished_at,
                collection_duration: sample.collection_duration,
                unavailable_readings: count_unavailable(&sample.readings),
            };
            assert(row.deep_view() == provider_row(all[i as int], shown[i as int]));
            place_row(&mut rows, row);
            let ghost held = healths;
            healths.push(health);
            proof {
                seqs::lemma_deep_push(held, healths);
                seqs::lemma_take_push(shown, i as int);
                assert(self.deep_view() =~= begun(before, all, i as int + 1));
            }
        }
        proof {
            seqs::lemma_take_all(shown);
        }
        Ok((healths, rows))
    }

    /// Admits the identities that the cycle sees for the first time, as far as there
    /// is room, and counts the others.
    fn admit_new_series(&mut self, samples: &Vec<ProviderSample>)
        requires
            old(self).wf(),
            forall|i: int|
                0 <= i < samples.len() ==> catalog::sample_valid(
                    old(self).deep_view().catalog,
                    #[trigger] samples.deep_view()[i],
                ),
        ensures
            final(self).wf(),
            ({
                let before = old(self).deep_view();
                let keys = cycle_keys(before, samples.deep_view());
                let rejected = keys.len() - admissible(before.entries, keys.len() as int);
                final(self).deep_view() == (EngineModel {
                    entries: admitted(before.entries, keys),
                    telemetry: EngineTelemetry {
                        rejected_series: series::capped_sum(
                            before.telemetry.rejected_series,
                            rejected as u64,
                        ),
                        ..before.telemetry
                    },
                    ..before
                })
            }),
    {
        let ghost before = self.deep_view();
        let keys = find_new_keys(&self.series, samples);
        let ghost found = keys.deep_view();
        proof {
            lemma_new_keys(
                before.catalog,
                before.entries,
                samples.deep_view(),
                samples.len() as int,
                0,
            );
        }
        let total: usize = keys.len();
        let mut rejected: u64 = 0;
        let mut i: usize = 0;
        while i < total
            invariant
                i <= total == keys.len(),
                found == keys.deep_view(),
                self.series.len() <= MAX_ADMITTED_SERIES,
                before.entries.len() <= MAX_ADMITTED_SERIES,
                rejected <= i,
                rejected == i - admissible(before.entries, i as int),
                self.deep_view() == (EngineModel {
                    entries: admitted(before.entries, found.take(i as int)),
                    ..before
                }),
                self.successes.wf(),
            decreases total - i,
        {
            let ghost grown = self.series;
            proof {
                lemma_admitted_next(before.entries, found, i as int);
                assert(self.deep_view().entries.len() == self.series@.len());
            }
            if self.series.len() == MAX_ADMITTED_SERIES {
                rejected += 1;
            } else {
                let key = SeriesKey {
                    metric: keys[i].metric.clone(),
                    labels: keys[i].labels.copy(),
                };
                assert(key.deep_view() == found[i as int]);
                self.series.push(SeriesEntry { key, state: None });
                proof {
                    seqs::lemma_deep_push(grown, self.series);
                }
            }
            i += 1;
        }
        self.telemetry.rejected_series = self.telemetry.rejected_series.saturating_add(rejected);
        proof {
            seqs::lemma_take_all(found);
            let after = admitted(before.entries, found);
            assert forall|i: int| 0 <= i < after.len() implies entry_wf(
                before.catalog,
                #[trigger] after[i],
                i,
            ) by {
                if i < before.entries.len() {
                    assert(after[i] == before.entries[i]);
                } else {
                    assert(after[i].key == found[i - before.entries.len()]);
                    assert(found.contains(after[i].key));
                }
            }
            assert forall|i: int, j: int| 0 <= i < j < after.len() implies (
            #[trigger] after[i]).key != (#[trigger] after[j]).key by {
                let n = before.entries.len() as int;
                if j < n {
                    assert(after[i] == before.entries[i] && after[j] == before.entries[j]);
                } else if i < n {
                    assert(after[i] == before.entries[i]);
                    assert(after[j].key == found[j - n]);
                    assert(found.contains(after[j].key));
                    assert(!has_key(before.entries, after[j].key));
                } else {
                    assert(after[i].key == found[i - n] && after[j].key == found[j - n]);
                    assert(model::key_before(found[i - n], found[j - n]));
                    model::key_order_is_strict_and_total(found[i - n], found[j - n], found[i - n]);
                }
            }
        }
    }

    /// Projects every series: what each shows, and what goes into the history.
    #[verifier::spinoff_prover]
    #[verifier::rlimit(40)]
    fn project_series(
        &mut self,
        samples: &Vec<ProviderSample>,
        healths: &Vec<ProviderHealth<String>>,
        elapsed: Nanos,
    ) -> (result: (Vec<SeriesSnapshot>, Vec<HistoryEvent>))
        requires
            old(self).wf(),
            samples.len() == healths.len(),
            forall|i: int|
                0 <= i < samples.len() ==> catalog::sample_valid(
                    old(self).deep_view().catalog,
                    #[trigger] samples.deep_view()[i],
                ),
        ensures
            final(self).wf(),
            ({
                let before = old(self).deep_view();
                let cycle = cycle_from(
                    before,
                    elapsed,
                    samples.deep_view(),
                    healths.deep_view(),
                );
                let n = cycle.entries.len();
                &&& final(self).deep_view() == (EngineModel {
                    entries: Seq::new(n, |i: int| step_at(cycle, i).entry),
                    ..before
                })
                &&& result.0.deep_view() == rows_upto(cycle, n as int)
                &&& result.1@ == events_upto(cycle, n as int)
            }),
    {
        let ghost middle = self.deep_view();
        let ghost all = samples.deep_view();
        let ghost cycle = cycle_from(middle, elapsed, all, healths.deep_view());
        let candidates = select_candidates(&self.catalog, &self.series, samples);
        let first_cycle: bool = self.sequence == 0;
        let mut rows: Vec<SeriesSnapshot> = Vec::new();
        let mut events: Vec<HistoryEvent> = Vec::new();
        assert(rows.deep_view() =~= Seq::<RowModel>::empty());
        let count: usize = self.series.len();
        for i in 0..count
            invariant
                count == cycle.entries.len(),
                all == samples.deep_view(),
                cycle.catalog == self.catalog.deep_view(),
                cycle.focus == self.focus.deep_view(),
                cycle.first_cycle == first_cycle,
                cycle.elapsed == elapsed,
                cycle.samples == all,
                cycle.healths == healths.deep_view(),
                cycle.entries == middle.entries,
                samples.len() == healths.len(),
                engine_wf(middle),
                middle.catalog == cycle.catalog,
                forall|j: int|
                    0 <= j < samples.len() ==> catalog::sample_valid(
                        cycle.catalog,
                        #[trigger] all[j],
                    ),
                self.series.len() == cycle.entries.len(),
                candidates.len() == cycle.entries.len(),
                forall|j: int|
                    0 <= j < cycle.entries.len() ==> chosen(#[trigger] candidates@[j])
                        == candidate_of(cycle.catalog, all, cycle.entries[j].key),
                forall|j: int|
                    0 <= j < cycle.entries.len() ==> within(all, #[trigger] candidates@[j]),
                self.catalog.deep_view() == middle.catalog,
                self.focus.deep_view() == middle.focus,
                self.generation == middle.generation,
                self.sequence == middle.sequence,
                self.started_at_unix_ms == middle.started_at_unix_ms,
                self.successes.wf(),
                self.successes.view() == middle.successes,
                self.telemetry == middle.telemetry,
                forall|j: int|
                    0 <= j < i ==> (#[trigger] self.series@[j]).deep_view() == step_at(
                        cycle,
                        j,
                    ).entry && entry_wf(cycle.catalog, self.series@[j].deep_view(), j),
                forall|j: int|
                    i <= j < cycle.entries.len() ==> (#[trigger] self.series@[j]).deep_view()
                        == cycle.entries[j],
                rows.deep_view() == rows_upto(cycle, i as int),
                events@ == events_upto(cycle, i as int),
        {
            let ghost entry = cycle.entries[i as int];
            assert(self.series@[i as int].deep_view() == entry);
            assert(entry_wf(cycle.catalog, entry, i as int));
            assert(within(all, candidates@[i as int]));
            let (row, event) = match candidates[i] {
                Some((p, r)) => {
                    let sample = &samples[p];
                    proof {
                        assert(all[p as int] == sample.deep_view());
                        assert(all[p as int].readings[r as int]
                            == sample.readings@[r as int].deep_view());
                        lemma_candidate_key(cycle.catalog, all, entry.key, all.len() as int, 0);
                        assert(catalog::value_agrees(
                            cycle.catalog,
                            all[p as int].readings[r as int],
                        ));
                    }
                    match &sample.readings[r].outcome {
                        ReadingOutcome::Observed(reading) => {
                            let (row, event) = project_observed(
                                &self.catalog,
                                &mut self.series[i],
                                i,
                                sample.provider.as_str(),
                                reading,
                                sample.finished_at,
                                first_cycle,
                            );
                            (Some(row), event)
                        },
                        ReadingOutcome::Unavailable(reason) => {
                            admit_unavailable_series(
                                &mut self.series[i],
                                i,
                                sample.provider.as_str(),
                                sample.finished_at,
                                first_cycle,
                            );
                            project_gap(
                                &self.catalog,
                                &mut self.series[i],
                                Some((sample.provider.as_str(), *reason)),
                                samples,
                                healths,
                                elapsed,
                            )
                        },
                    }
                },
                None => {
                    let out: bool = match &self.series[i].state {
                        Some(state) => is_suspended(&self.focus, state.source.as_str()),
                        None => false,
                    };
                    if out {
                        (None, None)
                    } else {
                        project_gap(
                            &self.catalog,
                            &mut self.series[i],
                            None,
                            samples,
                            healths,
                            elapsed,
                        )
                    }
                },
            };
            proof {
                assert(self.series@[i as int].deep_view() == step_at(cycle, i as int).entry);
                assert(row.deep_view() == step_at(cycle, i as int).row);
                assert(event == step_at(cycle, i as int).event);
                assert(entry_wf(cycle.catalog, self.series@[i as int].deep_view(), i as int));
            }
            if let Some(row) = row {
                let ghost held = rows;
                rows.push(row);
                proof {
                    seqs::lemma_deep_push(held, rows);
                }
            }
            if let Some(event) = event {
                events.push(event);
            }
        }
        proof {
            let after = Seq::new(cycle.entries.len(), |i: int| step_at(cycle, i).entry);
            assert(self.deep_view().entries =~= after);
            assert(self.deep_view() =~= (EngineModel { entries: after, ..middle }));
            assert forall|j: int| 0 <= j < after.len() implies entry_wf(
                middle.catalog,
                #[trigger] after[j],
                j,
            ) by {
                assert(self.series@[j].deep_view() == after[j]);
            }
            assert forall|i: int, j: int| 0 <= i < j < after.len() implies (
            #[trigger] after[i]).key != (#[trigger] after[j]).key by {
                assert(after[i].key == cycle.entries[i].key);
                assert(after[j].key == cycle.entries[j].key);
            }
        }
        (rows, events)
    }

    /// Takes the samples of one cycle: admits new series, projects every series
    /// into a snapshot, and says what goes into the history. The one error is a
    /// provider that occurs twice.
    pub fn ingest(
        &mut self,
        elapsed: Nanos,
        samples: Vec<ProviderSample>,
        network_namespace: Option<String>,
    ) -> (result: Result<(MonitorSnapshot, Vec<HistoryEvent>), MonitorValidationError>)
        requires
            old(self).wf(),
            forall|i: int|
                0 <= i < samples.len() ==> catalog::sample_valid(
                    old(self).deep_view().catalog,
                    #[trigger] samples.deep_view()[i],
                ),
        ensures
            final(self).wf(),
            ({
                let before = old(self).deep_view();
                let all = samples.deep_view();
                match result {
                    Ok((snapshot, events)) => {
                        let cycle = cycle_of(before, elapsed, all);
                        &&& first_repeat(all, all.len() as int) is None
                        &&& final(self).deep_view() == after_cycle(before, elapsed, all)
                        &&& snapshot.deep_view() == snapshot_of(
                            before,
                            elapsed,
                            all,
                            network_namespace.deep_view(),
                        )
                        &&& events@ == events_upto(cycle, cycle.entries.len() as int)
                    },
                    Err(e) => e == MonitorValidationError::DuplicateProvider && (first_repeat(
                        all,
                        all.len() as int,
                    ) matches Some(i) && final(self).deep_view() == begun(before, all, i)),
                }
            }),
    {
        let ghost before = self.deep_view();
        let ghost all = samples.deep_view();
        let (healths, providers) = match self.register_providers(&samples) {
            Ok(registered) => registered,
            Err(e) => {
                return Err(e);
            },
        };
        self.admit_new_series(&samples);
        let ghost cycle = cycle_of(before, elapsed, all);
        let ghost middle = self.deep_view();
        proof {
            assert(healths.deep_view().len() == all.len());
            assert(cycle_from(middle, elapsed, all, healths.deep_view()) == cycle);
        }
        let (rows, events) = self.project_series(&samples, &healths, elapsed);
        self.sequence = self.sequence.saturating_add(1);
        self.telemetry.samples_completed = self.telemetry.samples_completed.saturating_add(1);
        proof {
            let after = after_cycle(before, elapsed, all);
            assert(self.deep_view() =~= after);
        }
        let snapshot = MonitorSnapshot {
            generation: self.generation,
            sequence: self.sequence,
            started_at_unix_ms: self.started_at_unix_ms,
            elapsed,
            network_namespace,
            providers,
            series: rows,
            telemetry: self.telemetry,
        };
        Ok((snapshot, events))
    }
}

/// Suspends one series if the focus leaves its source out.
fn suspend_entry(entry: &mut SeriesEntry, focus: &Option<Vec<String>>)
    ensures
        final(entry).deep_view() == suspended(old(entry).deep_view(), focus.deep_view()),
{
    match entry.state.take() {
        None => {},
        Some(state) => {
            let mut state = state;
            let restarts: bool = match &state.raw {
                None => true,
                Some(series::RawSeries::Counter { .. }) => true,
                _ => false,
            };
            if restarts && is_suspended(focus, state.source.as_str()) {
                state.had_gap = true;
                state.last_projection = None;
            }
            entry.state = Some(state);
        },
    }
}

/// The candidate of a series is a reading of that series.
proof fn lemma_candidate_key(
    catalog: CatalogModel,
    samples: Seq<SampleModel>,
    key: KeyModel,
    p: int,
    r: int,
)
    requires
        0 <= p <= samples.len(),
        0 <= r,
        p < samples.len() ==> r <= samples[p].readings.len(),
        p == samples.len() ==> r == 0,
    ensures
        candidate_upto(catalog, samples, key, p, r) matches Some((a, b)) ==> 0 <= a
            < samples.len() && 0 <= b < samples[a].readings.len() && samples[a].readings[b].key
            == key,
    decreases p, r,
{
    if r > 0 {
        lemma_candidate_key(catalog, samples, key, p, r - 1);
    } else if p > 0 {
        lemma_candidate_key(catalog, samples, key, p - 1, samples[p - 1].readings.len() as int);
    }
}

/// New identities are catalogued and have no series.
proof fn lemma_new_keys(
    catalog: CatalogModel,
    entries: Seq<EntryModel>,
    samples: Seq<SampleModel>,
    p: int,
    r: int,
)
    requires
        0 <= p <= samples.len(),
        0 <= r,
        p < samples.len() ==> r <= samples[p].readings.len(),
        p == samples.len() ==> r == 0,
        forall|i: int|
            0 <= i < samples.len() ==> catalog::sample_valid(catalog, #[trigger] samples[i]),
    ensures
        keys_ordered(new_keys_upto(entries, samples, p, r)),
        forall|key: KeyModel| #[trigger]
            new_keys_upto(entries, samples, p, r).contains(key) ==> !has_key(entries, key)
                && catalog::is_known(catalog, key),
    decreases p, r,
{
    if r > 0 {
        lemma_new_keys(catalog, entries, samples, p, r - 1);
        let before = new_keys_upto(entries, samples, p, r - 1);
        let key = samples[p].readings[r - 1].key;
        lemma_key_slot(before, key);
        assert(catalog::sample_valid(catalog, samples[p]));
        let after = new_keys_upto(entries, samples, p, r);
        assert forall|k: KeyModel| #[trigger] after.contains(k) implies !has_key(entries, k)
            && catalog::is_known(catalog, k) by {
            if k != key {
                let i = choose|i: int| 0 <= i < after.len() && after[i] == k;
                if after != before {
                    let slot = key_slot(before, key);
                    if i < slot {
                        assert(before[i] == k);
                    } else {
                        assert(before[i - 1] == k);
                    }
                    assert(before.contains(k));
                }
            } else if has_key(entries, key) {
                assert(before.contains(key));
            }
        }
    } else if p > 0 {
        lemma_new_keys(catalog, entries, samples, p - 1, samples[p - 1].readings.len() as int);
    }
}

/// A cycle keeps every admitted series at its place: its identity, its id, and when
/// it was first seen never change. New series come behind the others, and no more
/// than the limit are admitted.
pub proof fn cycles_keep_series_identities(
    engine: EngineModel,
    elapsed: Nanos,
    samples: Seq<SampleModel>,
)
    requires
        engine_wf(engine),
    ensures
        ({
            let after = after_cycle(engine, elapsed, samples);
            &&& engine.entries.len() <= after.entries.len() <= MAX_ADMITTED_SERIES
            &&& forall|i: int|
                0 <= i < engine.entries.len() ==> {
                    &&& (#[trigger] after.entries[i]).key == engine.entries[i].key
                    &&& engine.entries[i].state matches Some(state) ==> (after.entries[i].state
                        matches Some(next) && next.id == state.id && next.first_seen
                        == state.first_seen)
                }
        }),
{
    let cycle = cycle_of(engine, elapsed, samples);
    let after = after_cycle(engine, elapsed, samples);
    assert forall|i: int| 0 <= i < engine.entries.len() implies {
        &&& (#[trigger] after.entries[i]).key == engine.entries[i].key
        &&& engine.entries[i].state matches Some(state) ==> (after.entries[i].state matches Some(
            next,
        ) && next.id == state.id && next.first_seen == state.first_seen)
    } by {
        assert(cycle.entries[i] == engine.entries[i]);
        assert(after.entries[i] == step_at(cycle, i).entry);
    }
}

/// The rows of a snapshot are in the order of their ids, and each id is the
/// position of its series.
pub proof fn rows_are_in_id_order(cycle: CycleModel, n: int)
    requires
        0 <= n <= cycle.entries.len() <= MAX_ADMITTED_SERIES,
        forall|i: int|
            0 <= i < cycle.entries.len() ==> entry_wf(
                cycle.catalog,
                #[trigger] cycle.entries[i],
                i,
            ),
    ensures
        forall|a: int|
            0 <= a < rows_upto(cycle, n).len() ==> 1 <= (#[trigger] rows_upto(cycle, n)[a]).id
                <= n && cycle.entries[rows_upto(cycle, n)[a].id - 1].key == rows_upto(
                cycle,
                n,
            )[a].key,
        forall|a: int, b: int|
            0 <= a < b < rows_upto(cycle, n).len() ==> (#[trigger] rows_upto(cycle, n)[a]).id < (
            #[trigger] rows_upto(cycle, n)[b]).id,
    decreases n,
{
    if n > 0 {
        rows_are_in_id_order(cycle, n - 1);
        let before = rows_upto(cycle, n - 1);
        let after = rows_upto(cycle, n);
        assert(entry_wf(cycle.catalog, cycle.entries[n - 1], n - 1));
        if let Some(row) = step_at(cycle, n - 1).row {
            assert(row.id == n && row.key == cycle.entries[n - 1].key);
            assert(after == before.push(row));
            assert forall|a: int| 0 <= a < after.len() implies 1 <= (#[trigger] after[a]).id <= n
                && cycle.entries[after[a].id - 1].key == after[a].key by {
                if a < before.len() {
                    assert(after[a] == before[a]);
                }
            }
            assert forall|a: int, b: int| 0 <= a < b < after.len() implies (
            #[trigger] after[a]).id < (#[trigger] after[b]).id by {
                assert(after[a] == before[a]);
                if b < before.len() {
                    assert(after[b] == before[b]);
                }
            }
        }
    }
}

/// A sample that a later cycle delivers again is the same observation: the series
/// shows the same row, stays as it is, and nothing goes into the history.
pub proof fn a_repeated_observation_changes_nothing(
    catalog: CatalogModel,
    entry: EntryModel,
    index: int,
    source: Seq<char>,
    reading: MetricReading<Seq<char>>,
    again: MetricReading<Seq<char>>,
    at: Nanos,
    first_cycle: bool,
    later_first: bool,
)
    ensures
        ({
            let once = observed_step(catalog, entry, index, source, reading, at, first_cycle);
            let twice = observed_step(
                catalog,
                once.entry,
                index,
                source,
                again,
                at,
                later_first,
            );
            twice.entry == once.entry && twice.row == once.row && twice.event is None
        }),
{
    let once = observed_step(catalog, entry, index, source, reading, at, first_cycle);
    if let Some(state) = entry.state {
        if !is_repeat(state, source, at) {
            assert(is_repeat(once.entry.state->0, source, at));
        }
    } else {
        assert(is_repeat(once.entry.state->0, source, at));
    }
}

/// However long readings stay away, the gap is recorded once.
pub proof fn a_gap_is_recorded_once(
    catalog: CatalogModel,
    entry: EntryModel,
    reported: Option<(Seq<char>, UnavailableReason)>,
    later: Option<(Seq<char>, UnavailableReason)>,
    healths: spec_fn(Seq<char>) -> Option<ProviderHealth<Seq<char>>>,
    later_healths: spec_fn(Seq<char>) -> Option<ProviderHealth<Seq<char>>>,
    elapsed: Nanos,
    later_elapsed: Nanos,
)
    ensures
        ({
            let first = gap_step(catalog, entry, reported, healths, elapsed);
            let second = gap_step(catalog, first.entry, later, later_healths, later_elapsed);
            &&& second.event is None
            &&& entry.state matches Some(state) ==> (!state.had_gap ==> first.event == Some(
                HistoryEvent::Gap { series: state.id, at: elapsed },
            ))
        }),
{
}

/// The first reading after a gap, or from another source, starts a new baseline:
/// it shows no rate, and later growth is counted from it.
pub proof fn recovery_starts_a_new_baseline(
    catalog: CatalogModel,
    entry: EntryModel,
    index: int,
    source: Seq<char>,
    reading: MetricReading<Seq<char>>,
    at: Nanos,
    first_cycle: bool,
)
    requires
        entry.state matches Some(state) && (state.had_gap || state.source != source),
    ensures
        ({
            let step = observed_step(catalog, entry, index, source, reading, at, first_cycle);
            let state = step.entry.state->0;
            &&& state.baseline_at == at && state.baseline_origin
                == BaselineOrigin::RecoveredAfterGap && !state.had_gap && state.source == source
            &&& state.raw == Some(series::raw_of(reading, at))
            &&& reading is Counter ==> ((step.row->0).value matches SeriesValue::Counter {
                interval,
                since_baseline,
                ..
            } && interval == Some(CounterContinuity::RecoveredAfterGap) && since_baseline is None)
        }),
{
}

/// Statistics of unknown meaning never show a rate or a summary, and never go into
/// the history.
pub proof fn private_statistics_show_only_their_value(
    catalog: CatalogModel,
    entry: EntryModel,
    index: int,
    source: Seq<char>,
    value: u64,
    at: Nanos,
    first_cycle: bool,
)
    requires
        is_private(entry.key),
        entry.state matches Some(state) ==> (state.had_gap || (state.raw matches Some(raw)
            && raw is Gauge)),
        entry.state matches Some(state) ==> !is_repeat(state, source, at),
    ensures
        ({
            let step = observed_step(
                catalog,
                entry,
                index,
                source,
                MetricReading::Gauge(value),
                at,
                first_cycle,
            );
            &&& step.event is None
            &&& (step.row->0).value == (SeriesValue::<Seq<char>>::Gauge {
                current: series::ProjectedValue::Fresh { value, observed_at: at },
                interval: None,
                since_baseline: None,
            })
        }),
{
}

} // verus!
