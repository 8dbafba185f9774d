//! How one series of readings turns into projected values: counter continuity,
//! gauge summaries, state changes, and what is shown while readings are missing.
use crate::catalog;
use crate::model::{
    CounterBits, MetricKind, MetricReading, MonitorErrorCode, MonitorValidationError, Nanos,
    UnavailableReason,
};
use crate::text::same_text;
use vstd::prelude::*;

verus! {

/// How a counter value relates to the one before it.
#[derive(Clone, Copy, Debug, PartialEq, Eq, Structural)]
pub enum CounterContinuity {
    FirstSample,
    Continuous { delta: u64, elapsed: Nanos },
    Wrapped { delta: u64, elapsed: Nanos, bits: CounterBits },
    Reset,
    RecoveredAfterGap,
}

/// What a counter grew by over a stretch of time.
#[derive(Clone, Copy, Debug, PartialEq, Eq, Structural)]
pub struct CounterSpan {
    pub delta: u64,
    pub elapsed: Nanos,
}

/// What a gauge changed by over a stretch of time.
#[derive(Clone, Copy, Debug, PartialEq, Eq, Structural)]
pub struct GaugeChange {
    pub delta: i128,
    pub elapsed: Nanos,
}

/// The values of a gauge over a stretch of time.
#[derive(Clone, Copy, Debug, PartialEq, Eq, Structural)]
pub struct GaugeSummary {
    pub min: u64,
    pub max: u64,
    pub sum: u128,
    pub count: u64,
    pub elapsed: Nanos,
}

#[derive(Clone, Copy, Debug, PartialEq, Eq, Structural)]
pub enum BaselineOrigin {
    SessionStart,
    FirstObserved,
    Reset,
    RecoveredAfterGap,
}

/// A value as it is shown: current, old, or not there.
#[derive(Clone, Copy, Debug, PartialEq, Eq)]
pub enum ProjectedValue<V> {
    Fresh { value: V, observed_at: Nanos },
    Stale { last: V, observed_at: Nanos, age: Nanos, cause: MonitorErrorCode },
    Unavailable { reason: UnavailableReason },
}

/// What one cycle shows of a series.
#[derive(Clone, Debug, PartialEq, Eq)]
pub enum SeriesValue<T> {
    Counter {
        current: ProjectedValue<u64>,
        interval: Option<CounterContinuity>,
        since_baseline: Option<CounterSpan>,
    },
    Gauge {
        current: ProjectedValue<u64>,
        interval: Option<GaugeChange>,
        since_baseline: Option<GaugeSummary>,
    },
    State {
        current: ProjectedValue<T>,
        changed_at: Option<Nanos>,
        continuous_for: Option<Nanos>,
    },
}

impl DeepView for ProjectedValue<String> {
    type V = ProjectedValue<Seq<char>>;

    open spec fn deep_view(&self) -> ProjectedValue<Seq<char>> {
        match *self {
            ProjectedValue::Fresh { value, observed_at } => ProjectedValue::Fresh {
                value: value@,
                observed_at,
            },
            ProjectedValue::Stale { last, observed_at, age, cause } => ProjectedValue::Stale {
                last: last@,
                observed_at,
                age,
                cause,
            },
            ProjectedValue::Unavailable { reason } => ProjectedValue::Unavailable { reason },
        }
    }
}

impl DeepView for SeriesValue<String> {
    type V = SeriesValue<Seq<char>>;

    open spec fn deep_view(&self) -> SeriesValue<Seq<char>> {
        match *self {
            SeriesValue::Counter { current, interval, since_baseline } => SeriesValue::Counter {
                current,
                interval,
                since_baseline,
            },
            SeriesValue::Gauge { current, interval, since_baseline } => SeriesValue::Gauge {
                current,
                interval,
                since_baseline,
            },
            SeriesValue::State { current, changed_at, continuous_for } => SeriesValue::State {
                current: current.deep_view(),
                changed_at,
                continuous_for,
            },
        }
    }
}

impl SeriesValue<String> {
    pub fn copy(&self) -> (value: SeriesValue<String>)
        ensures
            value == *self,
    {
        match self {
            SeriesValue::Counter { current, interval, since_baseline } => SeriesValue::Counter {
                current: *current,
                interval: *interval,
                since_baseline: *since_baseline,
            },
            SeriesValue::Gauge { current, interval, since_baseline } => SeriesValue::Gauge {
                current: *current,
                interval: *interval,
                since_baseline: *since_baseline,
            },
            SeriesValue::State { current, changed_at, continuous_for } => SeriesValue::State {
                current: match current {
                    ProjectedValue::Fresh { value, observed_at } => ProjectedValue::Fresh {
                        value: value.clone(),
                        observed_at: *observed_at,
                    },
                    ProjectedValue::Stale { last, observed_at, age, cause } => ProjectedValue::Stale {
                        last: last.clone(),
                        observed_at: *observed_at,
                        age: *age,
                        cause: *cause,
                    },
                    ProjectedValue::Unavailable { reason } => ProjectedValue::Unavailable {
                        reason: *reason,
                    },
                },
                changed_at: *changed_at,
                continuous_for: *continuous_for,
            },
        }
    }
}

/// What is kept of the readings of a series.
#[derive(Clone, Debug, PartialEq, Eq)]
pub enum RawSeries<T> {
    Counter { last: u64, bits: Option<CounterBits>, last_at: Nanos, since_delta: u64 },
    Gauge { last: u64, last_at: Nanos, min: u64, max: u64, sum: u128, count: u64 },
    State { last: T, last_at: Nanos, changed_at: Option<Nanos> },
}

impl DeepView for RawSeries<String> {
    type V = RawSeries<Seq<char>>;

    open spec fn deep_view(&self) -> RawSeries<Seq<char>> {
        match *self {
            RawSeries::Counter { last, bits, last_at, since_delta } => RawSeries::Counter {
                last,
                bits,
                last_at,
                since_delta,
            },
            RawSeries::Gauge { last, last_at, min, max, sum, count } => RawSeries::Gauge {
                last,
                last_at,
                min,
                max,
                sum,
                count,
            },
            RawSeries::State { last, last_at, changed_at } => RawSeries::State {
                last: last@,
                last_at,
                changed_at,
            },
        }
    }
}

impl<T> RawSeries<T> {
    pub open spec fn kind_of(self) -> MetricKind {
        match self {
            RawSeries::Counter { .. } => MetricKind::Counter,
            RawSeries::Gauge { .. } => MetricKind::Gauge,
            RawSeries::State { .. } => MetricKind::State,
        }
    }

    /// Whether a counter's last value fits the width it claims.
    pub open spec fn fits(self) -> bool {
        self matches RawSeries::Counter { last, bits, .. } ==> catalog::fits_width(last, bits)
    }
}

/// The difference `a - b`, or zero where `b` is larger.
pub open spec fn since(a: Nanos, b: Nanos) -> Nanos {
    if a >= b {
        (a - b) as Nanos
    } else {
        0
    }
}

/// What `a` plus `b` is, held at the largest `u64`.
pub open spec fn capped_sum(a: u64, b: u64) -> u64 {
    if a + b > u64::MAX {
        u64::MAX
    } else {
        (a + b) as u64
    }
}

/// The first state of a series: nothing but the reading itself.
pub open spec fn raw_of<T>(reading: MetricReading<T>, at: Nanos) -> RawSeries<T> {
    match reading {
        MetricReading::Counter { value, bits } => RawSeries::Counter {
            last: value,
            bits,
            last_at: at,
            since_delta: 0,
        },
        MetricReading::Gauge(value) => RawSeries::Gauge {
            last: value,
            last_at: at,
            min: value,
            max: value,
            sum: value as u128,
            count: 1,
        },
        MetricReading::State(text) => RawSeries::State { last: text, last_at: at, changed_at: None },
    }
}

pub fn raw_from_reading(reading: MetricReading<String>, observed_at: Nanos) -> (raw: RawSeries<
    String,
>)
    ensures
        raw == raw_of(reading, observed_at),
        raw.deep_view() == raw_of(reading.deep_view(), observed_at),
{
    match reading {
        MetricReading::Counter { value, bits } => RawSeries::Counter {
            last: value,
            bits,
            last_at: observed_at,
            since_delta: 0,
        },
        MetricReading::Gauge(value) => RawSeries::Gauge {
            last: value,
            last_at: observed_at,
            min: value,
            max: value,
            sum: value as u128,
            count: 1,
        },
        MetricReading::State(text) => RawSeries::State {
            last: text,
            last_at: observed_at,
            changed_at: None,
        },
    }
}

/// The number a reading carries, if it is numeric.
pub open spec fn number_of<T>(reading: MetricReading<T>) -> Option<u64> {
    match reading {
        MetricReading::Counter { value, .. } => Some(value),
        MetricReading::Gauge(value) => Some(value),
        MetricReading::State(_) => None,
    }
}

pub fn numeric_reading(reading: &MetricReading<String>) -> (number: Option<u64>)
    ensures
        number == number_of(*reading),
        number == number_of(reading.deep_view()),
{
    match reading {
        MetricReading::Counter { value, .. } => Some(*value),
        MetricReading::Gauge(value) => Some(*value),
        MetricReading::State(_) => None,
    }
}

/// The largest value of a counter of this width.
pub open spec fn width_maximum(bits: CounterBits) -> u64 {
    match bits {
        CounterBits::Bits32 => u32::MAX as u64,
        CounterBits::Bits64 => u64::MAX,
    }
}

/// A counter that did not fall continues. One that fell has wrapped only if both
/// values have the same known width, the old one stood in the top quarter of the
/// range and the new one stands in the bottom quarter; otherwise it was reset.
pub open spec fn continuity(
    previous: u64,
    current: u64,
    previous_bits: Option<CounterBits>,
    current_bits: Option<CounterBits>,
    elapsed: Nanos,
) -> CounterContinuity {
    if current >= previous {
        CounterContinuity::Continuous { delta: (current - previous) as u64, elapsed }
    } else {
        match previous_bits {
            Some(bits) => {
                let maximum = width_maximum(bits) as int;
                if current_bits == Some(bits) && previous >= maximum * 3 / 4 && current <= maximum
                    / 4 {
                    CounterContinuity::Wrapped {
                        delta: (maximum - previous + 1 + current) as u64,
                        elapsed,
                        bits,
                    }
                } else {
                    CounterContinuity::Reset
                }
            },
            None => CounterContinuity::Reset,
        }
    }
}

pub fn counter_continuity(
    previous: u64,
    current: u64,
    previous_bits: Option<CounterBits>,
    current_bits: Option<CounterBits>,
    elapsed: Nanos,
) -> (result: CounterContinuity)
    requires
        catalog::fits_width(previous, previous_bits),
    ensures
        result == continuity(previous, current, previous_bits, current_bits, elapsed),
{
    if current >= previous {
        return CounterContinuity::Continuous { delta: current - previous, elapsed };
    }
    match previous_bits {
        None => CounterContinuity::Reset,
        Some(bits) => {
            let same: bool = match current_bits {
                Some(other) => other == bits,
                None => false,
            };
            let maximum: u128 = match bits {
                CounterBits::Bits32 => u32::MAX as u128,
                CounterBits::Bits64 => u64::MAX as u128,
            };
            if !same || (previous as u128) < maximum * 3 / 4 || current as u128 > maximum / 4 {
                return CounterContinuity::Reset;
            }
            let delta: u128 = maximum - previous as u128 + 1 + current as u128;
            CounterContinuity::Wrapped { delta: delta as u64, elapsed, bits }
        },
    }
}

/// A wrapped counter's delta is what was counted: it leads from the old value to
/// the new one modulo the width, and is at most half of the range and one.
pub proof fn wrapped_delta_is_modular(
    previous: u64,
    current: u64,
    previous_bits: Option<CounterBits>,
    current_bits: Option<CounterBits>,
    elapsed: Nanos,
)
    requires
        catalog::fits_width(previous, previous_bits),
    ensures
        continuity(previous, current, previous_bits, current_bits, elapsed) matches
            CounterContinuity::Wrapped { delta, elapsed: e, bits } ==> {
            &&& e == elapsed
            &&& previous_bits == Some(bits) && current_bits == Some(bits)
            &&& (previous + delta) % (width_maximum(bits) + 1) == current
            &&& delta <= width_maximum(bits) / 2 + 1
        },
{
    if let CounterContinuity::Wrapped { delta, bits, .. } = continuity(
        previous,
        current,
        previous_bits,
        current_bits,
        elapsed,
    ) {
        let size = width_maximum(bits) + 1;
        assert(previous + delta == size + current);
        assert((size + current) % size == current) by (nonlinear_arith)
            requires
                0 <= current < size,
        ;
    }
}

/// What a continuity adds to the total since the baseline.
pub open spec fn counted(continuity: CounterContinuity) -> u64 {
    match continuity {
        CounterContinuity::Continuous { delta, .. } => delta,
        CounterContinuity::Wrapped { delta, .. } => delta,
        _ => 0,
    }
}

/// What is kept of one series between cycles.
#[derive(Clone, Debug, PartialEq, Eq)]
pub struct SeriesState<T> {
    pub id: u64,
    pub source: T,
    pub first_seen: Nanos,
    pub baseline_origin: BaselineOrigin,
    pub baseline_at: Nanos,
    pub had_gap: bool,
    pub raw: Option<RawSeries<T>>,
    pub last_projection: Option<(Nanos, SeriesValue<T>)>,
}

impl DeepView for SeriesState<String> {
    type V = SeriesState<Seq<char>>;

    open spec fn deep_view(&self) -> SeriesState<Seq<char>> {
        SeriesState {
            id: self.id,
            source: self.source@,
            first_seen: self.first_seen,
            baseline_origin: self.baseline_origin,
            baseline_at: self.baseline_at,
            had_gap: self.had_gap,
            raw: match self.raw {
                Some(raw) => Some(raw.deep_view()),
                None => None,
            },
            last_projection: match self.last_projection {
                Some((at, value)) => Some((at, value.deep_view())),
                None => None,
            },
        }
    }
}

/// What a series shows on its first reading, or on the first one after a gap.
pub open spec fn first_value<T>(
    raw: RawSeries<T>,
    at: Nanos,
    continuity: CounterContinuity,
    baseline_at: Nanos,
) -> SeriesValue<T> {
    match raw {
        RawSeries::Counter { last, .. } => SeriesValue::Counter {
            current: ProjectedValue::Fresh { value: last, observed_at: at },
            interval: Some(continuity),
            since_baseline: None,
        },
        RawSeries::Gauge { last, .. } => SeriesValue::Gauge {
            current: ProjectedValue::Fresh { value: last, observed_at: at },
            interval: None,
            since_baseline: None,
        },
        RawSeries::State { last, .. } => SeriesValue::State {
            current: ProjectedValue::Fresh { value: last, observed_at: at },
            changed_at: None,
            continuous_for: Some(since(at, baseline_at)),
        },
    }
}

pub fn first_series_value(
    raw: &RawSeries<String>,
    observed_at: Nanos,
    continuity: CounterContinuity,
    baseline_at: Nanos,
) -> (value: SeriesValue<String>)
    ensures
        value.deep_view() == first_value(raw.deep_view(), observed_at, continuity, baseline_at),
{
    match raw {
        RawSeries::Counter { last, .. } => SeriesValue::Counter {
            current: ProjectedValue::Fresh { value: *last, observed_at },
            interval: Some(continuity),
            since_baseline: None,
        },
        RawSeries::Gauge { last, .. } => SeriesValue::Gauge {
            current: ProjectedValue::Fresh { value: *last, observed_at },
            interval: None,
            since_baseline: None,
        },
        RawSeries::State { last, .. } => SeriesValue::State {
            current: ProjectedValue::Fresh { value: last.clone(), observed_at },
            changed_at: None,
            continuous_for: Some(observed_at.saturating_sub(baseline_at)),
        },
    }
}

/// Whether a reading can continue the series: its kind is the kind kept so far.
pub open spec fn continues<T>(state: SeriesState<T>, reading: MetricReading<T>) -> bool {
    state.raw matches Some(raw) && raw.kind_of() == reading.kind_of()
}

/// The state after a reading that continues the series.
pub open spec fn continued_state(
    state: SeriesState<Seq<char>>,
    reading: MetricReading<Seq<char>>,
    at: Nanos,
    suppressed: bool,
) -> SeriesState<Seq<char>> {
    match (state.raw->0, reading) {
        (
            RawSeries::Counter { last, bits, last_at, since_delta },
            MetricReading::Counter { value, bits: new_bits },
        ) => {
            let step = continuity(last, value, bits, new_bits, since(at, last_at));
            let reset = step is Reset;
            SeriesState {
                baseline_origin: if reset {
                    BaselineOrigin::Reset
                } else {
                    state.baseline_origin
                },
                baseline_at: if reset {
                    at
                } else {
                    state.baseline_at
                },
                raw: Some(
                    RawSeries::Counter {
                        last: value,
                        bits: new_bits,
                        last_at: at,
                        since_delta: if reset {
                            0
                        } else {
                            capped_sum(since_delta, counted(step))
                        },
                    },
                ),
                ..state
            }
        },
        (
            RawSeries::Gauge { last, last_at, min, max, sum, count },
            MetricReading::Gauge(value),
        ) => SeriesState {
            raw: Some(
                if suppressed {
                    RawSeries::Gauge { last: value, last_at: at, min, max, sum, count }
                } else {
                    RawSeries::Gauge {
                        last: value,
                        last_at: at,
                        min: if value < min {
                            value
                        } else {
                            min
                        },
                        max: if value > max {
                            value
                        } else {
                            max
                        },
                        sum: if sum + value > u128::MAX {
                            u128::MAX
                        } else {
                            (sum + value) as u128
                        },
                        count: capped_sum(count, 1),
                    }
                },
            ),
            ..state
        },
        (RawSeries::State { last, last_at, changed_at }, MetricReading::State(text)) => SeriesState {
            raw: Some(
                RawSeries::State {
                    last: text,
                    last_at: at,
                    changed_at: if last != text {
                        Some(at)
                    } else {
                        changed_at
                    },
                },
            ),
            ..state
        },
        _ => state,
    }
}

/// What is shown after a reading that continues the series; `next` is the state
/// that the reading led to.
pub open spec fn continued_value(
    state: SeriesState<Seq<char>>,
    next: SeriesState<Seq<char>>,
    at: Nanos,
    suppressed: bool,
) -> SeriesValue<Seq<char>> {
    match (state.raw->0, next.raw->0) {
        (
            RawSeries::Counter { last, bits, last_at, .. },
            RawSeries::Counter { last: value, bits: new_bits, since_delta, .. },
        ) => {
            let step = continuity(last, value, bits, new_bits, since(at, last_at));
            let elapsed = since(at, next.baseline_at);
            SeriesValue::Counter {
                current: ProjectedValue::Fresh { value, observed_at: at },
                interval: Some(step),
                since_baseline: if !(step is Reset) && elapsed > 0 {
                    Some(CounterSpan { delta: since_delta, elapsed })
                } else {
                    None
                },
            }
        },
        (
            RawSeries::Gauge { last, last_at, .. },
            RawSeries::Gauge { last: value, min, max, sum, count, .. },
        ) => {
            let interval = since(at, last_at);
            let elapsed = since(at, next.baseline_at);
            SeriesValue::Gauge {
                current: ProjectedValue::Fresh { value, observed_at: at },
                interval: if !suppressed && interval > 0 {
                    Some(GaugeChange { delta: (value - last) as i128, elapsed: interval })
                } else {
                    None
                },
                since_baseline: if !suppressed && elapsed > 0 {
                    Some(GaugeSummary { min, max, sum, count, elapsed })
                } else {
                    None
                },
            }
        },
        (RawSeries::State { .. }, RawSeries::State { last: text, changed_at, .. }) => {
            let start = match changed_at {
                Some(changed) => changed,
                None => next.baseline_at,
            };
            SeriesValue::State {
                current: ProjectedValue::Fresh { value: text, observed_at: at },
                changed_at,
                continuous_for: Some(since(at, start)),
            }
        },
        _ => arbitrary(),
    }
}

/// The state after a reading that ends a gap or comes from another source: a new
/// baseline at the reading.
pub open spec fn recovered_state(
    state: SeriesState<Seq<char>>,
    reading: MetricReading<Seq<char>>,
    at: Nanos,
) -> SeriesState<Seq<char>> {
    SeriesState {
        baseline_origin: BaselineOrigin::RecoveredAfterGap,
        baseline_at: at,
        raw: Some(raw_of(reading, at)),
        ..state
    }
}

/// The state that a reading leads to.
pub open spec fn updated_state(
    state: SeriesState<Seq<char>>,
    reading: MetricReading<Seq<char>>,
    at: Nanos,
    recovered: bool,
    suppressed: bool,
) -> SeriesState<Seq<char>> {
    if recovered {
        recovered_state(state, reading, at)
    } else {
        continued_state(state, reading, at, suppressed)
    }
}

/// What a reading shows.
pub open spec fn updated_value(
    state: SeriesState<Seq<char>>,
    reading: MetricReading<Seq<char>>,
    at: Nanos,
    recovered: bool,
    suppressed: bool,
) -> SeriesValue<Seq<char>> {
    if recovered {
        first_value(raw_of(reading, at), at, CounterContinuity::RecoveredAfterGap, at)
    } else {
        continued_value(state, continued_state(state, reading, at, suppressed), at, suppressed)
    }
}

/// While a counter only grows, what was counted since the baseline is its growth since
/// then: the value at the baseline and the count make the last value.
pub proof fn growth_adds_up(
    state: SeriesState<Seq<char>>,
    value: u64,
    bits: Option<CounterBits>,
    at: Nanos,
    base: u64,
)
    requires
        state.raw matches Some(RawSeries::Counter { last, since_delta, .. }) && last == base
            + since_delta && last <= value,
    ensures
        updated_state(
            state,
            MetricReading::Counter { value, bits },
            at,
            false,
            false,
        ).raw matches Some(RawSeries::Counter { last, since_delta, .. }) && last == value && last
            == base + since_delta,
        raw_of::<Seq<char>>(MetricReading::Counter { value, bits }, at) matches RawSeries::Counter {
            last,
            since_delta,
            ..
        } && last == value + since_delta,
{
}

/// Whether a gauge lies between the least and the greatest of its values, and their sum
/// between as many of the one and of the other.
pub open spec fn is_summary(raw: RawSeries<Seq<char>>) -> bool {
    raw matches RawSeries::Gauge { last, min, max, sum, count, .. } && {
        &&& min <= last <= max
        &&& min * count <= sum <= max * count
    }
}

/// What is kept of a gauge summarises its values, as long as they can be counted.
pub proof fn summaries_bound_their_values(
    state: SeriesState<Seq<char>>,
    value: u64,
    at: Nanos,
)
    requires
        state.raw matches Some(raw) && is_summary(raw) && (raw matches RawSeries::Gauge {
            sum,
            count,
            ..
        } ==> count < u64::MAX && sum + value <= u128::MAX),
    ensures
        updated_state(state, MetricReading::Gauge(value), at, false, false).raw matches Some(raw)
            && is_summary(raw),
        is_summary(raw_of(MetricReading::Gauge(value), at)),
{
    if let Some(RawSeries::Gauge { last, last_at, min, max, sum, count }) = state.raw {
        let low: u64 = if value < min { value } else { min };
        let high: u64 = if value > max { value } else { max };
        assert(low * (count + 1) <= sum + value <= high * (count + 1)) by (nonlinear_arith)
            requires
                low <= min,
                low <= value,
                max <= high,
                value <= high,
                min * count <= sum <= max * count,
                0 <= count,
        ;
    }
    assert(value * 1 == value) by (nonlinear_arith);
}

/// Takes one reading into the series. A reading of another kind than the kind
/// kept so far is an error, unless the series starts anew.
pub fn update_raw_series(
    state: &mut SeriesState<String>,
    reading: MetricReading<String>,
    observed_at: Nanos,
    recovered: bool,
    suppress_gauge_projection: bool,
) -> (result: Result<SeriesValue<String>, MonitorValidationError>)
    requires
        old(state).raw matches Some(raw) ==> raw.fits(),
    ensures
        match result {
            Ok(value) => (recovered || continues(old(state).deep_view(), reading.deep_view()))
                && final(state).deep_view() == updated_state(
                old(state).deep_view(),
                reading.deep_view(),
                observed_at,
                recovered,
                suppress_gauge_projection,
            ) && value.deep_view() == updated_value(
                old(state).deep_view(),
                reading.deep_view(),
                observed_at,
                recovered,
                suppress_gauge_projection,
            ),
            Err(e) => e == MonitorValidationError::MetricKindMismatch && !recovered && !continues(
                old(state).deep_view(),
                reading.deep_view(),
            ) && final(state).deep_view() == old(state).deep_view(),
        },
{
    if recovered {
        let raw = raw_from_reading(reading, observed_at);
        let value = first_series_value(
            &raw,
            observed_at,
            CounterContinuity::RecoveredAfterGap,
            observed_at,
        );
        state.baseline_origin = BaselineOrigin::RecoveredAfterGap;
        state.baseline_at = observed_at;
        state.raw = Some(raw);
        return Ok(value);
    }
    let kept = state.raw.take();
    match (kept, reading) {
        (
            Some(RawSeries::Counter { last, bits, last_at, since_delta }),
            MetricReading::Counter { value, bits: current_bits },
        ) => {
            let elapsed: Nanos = observed_at.saturating_sub(last_at);
            let step = counter_continuity(last, value, bits, current_bits, elapsed);
            let mut reset: bool = false;
            let delta: u64 = match step {
                CounterContinuity::Continuous { delta, .. } => delta,
                CounterContinuity::Wrapped { delta, .. } => delta,
                CounterContinuity::Reset => {
                    reset = true;
                    0
                },
                CounterContinuity::FirstSample => 0,
                CounterContinuity::RecoveredAfterGap => 0,
            };
            let mut total: u64 = since_delta.saturating_add(delta);
            if reset {
                state.baseline_origin = BaselineOrigin::Reset;
                state.baseline_at = observed_at;
                total = 0;
            }
            state.raw = Some(
                RawSeries::Counter {
                    last: value,
                    bits: current_bits,
                    last_at: observed_at,
                    since_delta: total,
                },
            );
            let span: Nanos = observed_at.saturating_sub(state.baseline_at);
            let since_baseline: Option<CounterSpan> = if !reset && span > 0 {
                Some(CounterSpan { delta: total, elapsed: span })
            } else {
                None
            };
            Ok(
                SeriesValue::Counter {
                    current: ProjectedValue::Fresh { value, observed_at },
                    interval: Some(step),
                    since_baseline,
                },
            )
        },
        (
            Some(RawSeries::Gauge { last, last_at, min, max, sum, count }),
            MetricReading::Gauge(value),
        ) => {
            if suppress_gauge_projection {
                state.raw = Some(
                    RawSeries::Gauge { last: value, last_at: observed_at, min, max, sum, count },
                );
                return Ok(
                    SeriesValue::Gauge {
                        current: ProjectedValue::Fresh { value, observed_at },
                        interval: None,
                        since_baseline: None,
                    },
                );
            }
            let interval: Nanos = observed_at.saturating_sub(last_at);
            let change: Option<GaugeChange> = if interval > 0 {
                Some(GaugeChange { delta: value as i128 - last as i128, elapsed: interval })
            } else {
                None
            };
            let low: u64 = if value < min {
                value
            } else {
                min
            };
            let high: u64 = if value > max {
                value
            } else {
                max
            };
            let total: u128 = sum.saturating_add(value as u128);
            let samples: u64 = count.saturating_add(1);
            state.raw = Some(
                RawSeries::Gauge {
                    last: value,
                    last_at: observed_at,
                    min: low,
                    max: high,
                    sum: total,
                    count: samples,
                },
            );
            let elapsed: Nanos = observed_at.saturating_sub(state.baseline_at);
            let since_baseline: Option<GaugeSummary> = if elapsed > 0 {
                Some(GaugeSummary { min: low, max: high, sum: total, count: samples, elapsed })
            } else {
                None
            };
            Ok(
                SeriesValue::Gauge {
                    current: ProjectedValue::Fresh { value, observed_at },
                    interval: change,
                    since_baseline,
                },
            )
        },
        (
            Some(RawSeries::State { last, last_at, changed_at }),
            MetricReading::State(text),
        ) => {
            let changed: Option<Nanos> = if same_text(last.as_str(), text.as_str()) {
                changed_at
            } else {
                Some(observed_at)
            };
            let start: Nanos = match changed {
                Some(at) => at,
                None => state.baseline_at,
            };
            state.raw = Some(
                RawSeries::State { last: text.clone(), last_at: observed_at, changed_at: changed },
            );
            Ok(
                SeriesValue::State {
                    current: ProjectedValue::Fresh { value: text, observed_at },
                    changed_at: changed,
                    continuous_for: Some(observed_at.saturating_sub(start)),
                },
            )
        },
        (kept, _) => {
            state.raw = kept;
            Err(MonitorValidationError::MetricKindMismatch)
        },
    }
}

/// What goes into the history of a series: the value, the growth, whether it was
/// reset, and the time covered. Only current numbers do.
pub open spec fn history_value<T>(value: SeriesValue<T>) -> Option<(u64, u64, bool, Nanos)> {
    match value {
        SeriesValue::Counter {
            current: ProjectedValue::Fresh { value, .. },
            interval,
            ..
        } => Some(
            match interval {
                Some(CounterContinuity::Continuous { delta, elapsed }) => (
                    value,
                    delta,
                    false,
                    elapsed,
                ),
                Some(CounterContinuity::Wrapped { delta, elapsed, .. }) => (
                    value,
                    delta,
                    false,
                    elapsed,
                ),
                Some(CounterContinuity::Reset) => (value, 0, true, 0),
                _ => (value, 0, false, 0),
            },
        ),
        SeriesValue::Gauge { current: ProjectedValue::Fresh { value, .. }, .. } => Some(
            (value, 0, false, 0),
        ),
        _ => None,
    }
}

pub fn numeric_series_value(value: &SeriesValue<String>) -> (result: Option<
    (u64, u64, bool, Nanos),
>)
    ensures
        result == history_value(*value),
        result == history_value(value.deep_view()),
{
    match value {
        SeriesValue::Counter {
            current: ProjectedValue::Fresh { value, .. },
            interval,
            ..
        } => match interval {
            Some(CounterContinuity::Continuous { delta, elapsed }) => Some(
                (*value, *delta, false, *elapsed),
            ),
            Some(CounterContinuity::Wrapped { delta, elapsed, .. }) => Some(
                (*value, *delta, false, *elapsed),
            ),
            Some(CounterContinuity::Reset) => Some((*value, 0, true, 0)),
            _ => Some((*value, 0, false, 0)),
        },
        SeriesValue::Gauge { current: ProjectedValue::Fresh { value, .. }, .. } => Some(
            (*value, 0, false, 0),
        ),
        _ => None,
    }
}

/// The last value, shown as old.
pub open spec fn stale_value<T>(
    raw: RawSeries<T>,
    elapsed: Nanos,
    cause: MonitorErrorCode,
) -> SeriesValue<T> {
    match raw {
        RawSeries::Counter { last, last_at, .. } => SeriesValue::Counter {
            current: ProjectedValue::Stale {
                last,
                observed_at: last_at,
                age: since(elapsed, last_at),
                cause,
            },
            interval: None,
            since_baseline: None,
        },
        RawSeries::Gauge { last, last_at, .. } => SeriesValue::Gauge {
            current: ProjectedValue::Stale {
                last,
                observed_at: last_at,
                age: since(elapsed, last_at),
                cause,
            },
            interval: None,
            since_baseline: None,
        },
        RawSeries::State { last, last_at, .. } => SeriesValue::State {
            current: ProjectedValue::Stale {
                last,
                observed_at: last_at,
                age: since(elapsed, last_at),
                cause,
            },
            changed_at: None,
            continuous_for: None,
        },
    }
}

pub fn stale_series_value(
    raw: &RawSeries<String>,
    elapsed: Nanos,
    cause: MonitorErrorCode,
) -> (value: SeriesValue<String>)
    ensures
        value.deep_view() == stale_value(raw.deep_view(), elapsed, cause),
{
    match raw {
        RawSeries::Counter { last, last_at, .. } => SeriesValue::Counter {
            current: ProjectedValue::Stale {
                last: *last,
                observed_at: *last_at,
                age: elapsed.saturating_sub(*last_at),
                cause,
            },
            interval: None,
            since_baseline: None,
        },
        RawSeries::Gauge { last, last_at, .. } => SeriesValue::Gauge {
            current: ProjectedValue::Stale {
                last: *last,
                observed_at: *last_at,
                age: elapsed.saturating_sub(*last_at),
                cause,
            },
            interval: None,
            since_baseline: None,
        },
        RawSeries::State { last, last_at, .. } => SeriesValue::State {
            current: ProjectedValue::Stale {
                last: last.clone(),
                observed_at: *last_at,
                age: elapsed.saturating_sub(*last_at),
                cause,
            },
            changed_at: None,
            continuous_for: None,
        },
    }
}

/// Nothing to show, with the reason.
pub open spec fn unavailable_value<T>(kind: MetricKind, reason: UnavailableReason) -> SeriesValue<
    T,
> {
    match kind {
        MetricKind::Counter => SeriesValue::Counter {
            current: ProjectedValue::Unavailable { reason },
            interval: None,
            since_baseline: None,
        },
        MetricKind::Gauge => SeriesValue::Gauge {
            current: ProjectedValue::Unavailable { reason },
            interval: None,
            since_baseline: None,
        },
        MetricKind::State => SeriesValue::State {
            current: ProjectedValue::Unavailable { reason },
            changed_at: None,
            continuous_for: None,
        },
    }
}

pub fn unavailable_series_value(kind: MetricKind, reason: UnavailableReason) -> (value: SeriesValue<
    String,
>)
    ensures
        value.deep_view() == unavailable_value::<Seq<char>>(kind, reason),
{
    match kind {
        MetricKind::Counter => SeriesValue::Counter {
            current: ProjectedValue::Unavailable { reason },
            interval: None,
            since_baseline: None,
        },
        MetricKind::Gauge => SeriesValue::Gauge {
            current: ProjectedValue::Unavailable { reason },
            interval: None,
            since_baseline: None,
        },
        MetricKind::State => SeriesValue::State {
            current: ProjectedValue::Unavailable { reason },
            changed_at: None,
            continuous_for: None,
        },
    }
}

} // verus!
