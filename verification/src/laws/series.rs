//! What a reading shows of its series, as relations between what was kept, what was
//! read and what is shown.
use crate::model::{
    CounterBits, MetricKind, MetricReading, MonitorErrorCode, Nanos, UnavailableReason,
};
use crate::series;
use crate::series::{
    BaselineOrigin, CounterContinuity, ProjectedValue, RawSeries, SeriesState, SeriesValue,
};
use vstd::prelude::*;

verus! {

/// A gauge that continues shows what leads from the value kept before to the new one, over
/// the time between them, and says nothing of it where no time passed or where only the
/// value is shown.
pub proof fn gauges_show_how_they_changed(
    state: SeriesState<Seq<char>>,
    value: u64,
    at: Nanos,
    suppressed: bool,
)
    requires
        state.raw matches Some(raw) && raw is Gauge,
    ensures
        state.raw matches Some(RawSeries::Gauge { last, last_at, .. }) && series::updated_value(
            state,
            MetricReading::Gauge(value),
            at,
            false,
            suppressed,
        ) matches SeriesValue::Gauge { current, interval, since_baseline } && {
            &&& current == (ProjectedValue::Fresh { value, observed_at: at })
            &&& interval is Some <==> !suppressed && last_at < at
            &&& interval matches Some(change) ==> last + change.delta == value && last_at
                + change.elapsed == at
            &&& since_baseline is Some <==> !suppressed && state.baseline_at < at
        },
{
}

/// The summary of a gauge takes the new value in: its bounds reach to the value and to the
/// old bounds, and no further, its sum grows by the value, its count by one, and it covers
/// the time since the baseline.
pub proof fn gauge_summaries_take_a_value_in(
    state: SeriesState<Seq<char>>,
    value: u64,
    at: Nanos,
)
    requires
        state.raw matches Some(RawSeries::Gauge { sum, count, .. }) && count < u64::MAX && sum
            + value <= u128::MAX,
    ensures
        ({
            let next = series::updated_state(state, MetricReading::Gauge(value), at, false, false);
            let shown = series::updated_value(state, MetricReading::Gauge(value), at, false, false);
            &&& state.raw matches Some(RawSeries::Gauge { min: low, max: high, sum, count, .. })
                && next.raw matches Some(
                RawSeries::Gauge { last, last_at, min, max, sum: total, count: values },
            ) && {
                &&& last == value && last_at == at
                &&& min <= low && min <= value && (min == low || min == value)
                &&& max >= high && max >= value && (max == high || max == value)
                &&& total == sum + value
                &&& values == count + 1
                &&& shown matches SeriesValue::Gauge { since_baseline: Some(summary), .. } ==> {
                    &&& summary.min == min && summary.max == max
                    &&& summary.sum == total && summary.count == values
                    &&& state.baseline_at + summary.elapsed == at
                }
            }
            &&& next == (SeriesState { raw: next.raw, ..state })
        }),
{
}

/// Where only the value of a gauge is shown, its summary stays as it was.
pub proof fn suppressed_gauges_keep_their_summary(
    state: SeriesState<Seq<char>>,
    value: u64,
    at: Nanos,
)
    requires
        state.raw matches Some(raw) && raw is Gauge,
    ensures
        ({
            let next = series::updated_state(state, MetricReading::Gauge(value), at, false, true);
            &&& state.raw matches Some(RawSeries::Gauge { min: low, max: high, sum, count, .. })
                && next.raw matches Some(
                RawSeries::Gauge { last, last_at, min, max, sum: total, count: values },
            ) && last == value && last_at == at && min == low && max == high && total == sum
                && values == count
            &&& next == (SeriesState { raw: next.raw, ..state })
        }),
{
}

/// A counter that did not fall grew by what is shown, over the time that is shown. It is
/// never taken for one that was reset or that wrapped.
pub proof fn counters_show_their_growth(
    state: SeriesState<Seq<char>>,
    value: u64,
    bits: Option<CounterBits>,
    at: Nanos,
    suppressed: bool,
)
    requires
        state.raw matches Some(RawSeries::Counter { last, last_at, .. }) && last <= value
            && last_at <= at,
    ensures
        ({
            let reading = MetricReading::Counter { value, bits };
            let next = series::updated_state(state, reading, at, false, suppressed);
            let shown = series::updated_value(state, reading, at, false, suppressed);
            &&& state.raw matches Some(RawSeries::Counter { last, last_at, since_delta, .. }) && {
                &&& shown matches SeriesValue::Counter {
                    current,
                    interval: Some(CounterContinuity::Continuous { delta, elapsed }),
                    since_baseline,
                } && {
                    &&& current == (ProjectedValue::Fresh { value, observed_at: at })
                    &&& last + delta == value
                    &&& last_at + elapsed == at
                    &&& since_baseline is Some <==> state.baseline_at < at
                    &&& since_baseline matches Some(span) ==> state.baseline_at + span.elapsed
                        == at && (since_delta + delta <= u64::MAX ==> span.delta == since_delta
                        + delta)
                }
                &&& next.raw matches Some(
                    RawSeries::Counter { last: kept, bits: width, last_at: when, since_delta: total },
                ) && kept == value && width == bits && when == at && (since_delta + (value - last)
                    <= u64::MAX ==> total == since_delta + (value - last))
            }
            &&& next == (SeriesState { raw: next.raw, ..state })
        }),
{
}

/// A counter that fell wrapped only if its width is known and stayed the same, it stood in
/// the top quarter of its range and now stands in the bottom quarter. What it counted leads
/// from the old value past the end of the range to the new one.
pub proof fn a_fallen_counter_wrapped_or_was_reset(
    state: SeriesState<Seq<char>>,
    value: u64,
    bits: Option<CounterBits>,
    at: Nanos,
    suppressed: bool,
)
    requires
        state.raw matches Some(RawSeries::Counter { last, last_at, bits: width, .. }) && value
            < last && last_at <= at && crate::catalog::fits_width(last, width),
    ensures
        ({
            let shown = series::updated_value(
                state,
                MetricReading::Counter { value, bits },
                at,
                false,
                suppressed,
            );
            &&& state.raw matches Some(
                RawSeries::Counter { last, last_at, bits: width, since_delta },
            ) && shown matches SeriesValue::Counter {
                current,
                interval: Some(interval),
                since_baseline,
            } && {
                &&& current == (ProjectedValue::Fresh { value, observed_at: at })
                &&& interval is Wrapped || interval is Reset
                &&& interval is Wrapped <==> width == bits && ((bits == Some(CounterBits::Bits32)
                    && last >= 3_221_225_471 && value <= 1_073_741_823) || (bits == Some(
                    CounterBits::Bits64,
                ) && last >= 13_835_058_055_282_163_711 && value <= 4_611_686_018_427_387_903))
                &&& interval matches CounterContinuity::Wrapped {
                    delta,
                    elapsed,
                    bits: shown_bits,
                } ==> {
                    &&& Some(shown_bits) == bits
                    &&& last_at + elapsed == at
                    &&& last + delta == value + (if bits == Some(CounterBits::Bits32) {
                        0x1_0000_0000int
                    } else {
                        0x1_0000_0000_0000_0000int
                    })
                    &&& since_baseline matches Some(span) ==> state.baseline_at + span.elapsed
                        == at && (since_delta + delta <= u64::MAX ==> span.delta == since_delta
                        + delta)
                    &&& since_baseline is Some <==> state.baseline_at < at
                }
                &&& interval is Reset ==> since_baseline is None
            }
        }),
{
}

/// A reset counter starts anew: its baseline is the reading, nothing has been counted since,
/// and everything else of the series stays. One that was not reset keeps its baseline.
pub proof fn a_reset_moves_the_baseline(
    state: SeriesState<Seq<char>>,
    value: u64,
    bits: Option<CounterBits>,
    at: Nanos,
    suppressed: bool,
)
    requires
        state.raw matches Some(raw) && raw is Counter,
    ensures
        ({
            let reading = MetricReading::Counter { value, bits };
            let next = series::updated_state(state, reading, at, false, suppressed);
            let reset = series::updated_value(state, reading, at, false, suppressed) matches
                SeriesValue::Counter { interval: Some(CounterContinuity::Reset), .. };
            &&& next.raw matches Some(RawSeries::Counter { last, last_at, since_delta, .. }) && last
                == value && last_at == at && (reset ==> since_delta == 0)
            &&& reset ==> next.baseline_at == at && next.baseline_origin == BaselineOrigin::Reset
            &&& !reset ==> next.baseline_at == state.baseline_at && next.baseline_origin
                == state.baseline_origin
            &&& next.id == state.id && next.source == state.source && next.first_seen
                == state.first_seen
        }),
{
}

/// A state that continues shows the new words, when they last changed, and for how long
/// they have been the same.
pub proof fn states_show_since_when_they_hold(
    state: SeriesState<Seq<char>>,
    words: Seq<char>,
    at: Nanos,
    suppressed: bool,
)
    requires
        state.raw matches Some(raw) && raw is State,
        state.baseline_at <= at,
        state.raw matches Some(RawSeries::State { changed_at: Some(before), .. }) ==> before <= at,
    ensures
        ({
            let reading = MetricReading::State(words);
            let next = series::updated_state(state, reading, at, false, suppressed);
            &&& state.raw matches Some(RawSeries::State { last, changed_at: before, .. })
                && series::updated_value(state, reading, at, false, suppressed) matches
                SeriesValue::State { current, changed_at, continuous_for: Some(held) } && {
                &&& current == (ProjectedValue::Fresh { value: words, observed_at: at })
                &&& last != words ==> changed_at == Some(at) && held == 0
                &&& last == words ==> changed_at == before
                &&& changed_at matches Some(changed) ==> changed + held == at
                &&& changed_at is None ==> state.baseline_at + held == at
                &&& next.raw == Some(RawSeries::State { last: words, last_at: at, changed_at })
            }
            &&& next == (SeriesState { raw: next.raw, ..state })
        }),
{
}

/// A reading after a gap stands alone: it shows its value and no change, and from then on
/// everything is counted from it.
pub proof fn readings_after_a_gap_stand_alone(
    state: SeriesState<Seq<char>>,
    reading: MetricReading<Seq<char>>,
    at: Nanos,
    suppressed: bool,
)
    ensures
        ({
            let next = series::updated_state(state, reading, at, true, suppressed);
            let shown = series::updated_value(state, reading, at, true, suppressed);
            &&& next.baseline_at == at
            &&& next.baseline_origin == BaselineOrigin::RecoveredAfterGap
            &&& next.id == state.id && next.first_seen == state.first_seen && next.source
                == state.source
            &&& reading matches MetricReading::Counter { value, bits } ==> {
                &&& next.raw == Some(
                    RawSeries::<Seq<char>>::Counter { last: value, bits, last_at: at, since_delta: 0 },
                )
                &&& shown == (SeriesValue::<Seq<char>>::Counter {
                    current: ProjectedValue::Fresh { value, observed_at: at },
                    interval: Some(CounterContinuity::RecoveredAfterGap),
                    since_baseline: None,
                })
            }
            &&& reading matches MetricReading::Gauge(value) ==> {
                &&& next.raw matches Some(
                    RawSeries::Gauge { last, last_at, min, max, sum, count },
                ) && last == value && last_at == at && min == value && max == value && sum == value
                    && count == 1
                &&& shown == (SeriesValue::<Seq<char>>::Gauge {
                    current: ProjectedValue::Fresh { value, observed_at: at },
                    interval: None,
                    since_baseline: None,
                })
            }
            &&& reading matches MetricReading::State(words) ==> {
                &&& next.raw == Some(
                    RawSeries::State { last: words, last_at: at, changed_at: None },
                )
                &&& shown == (SeriesValue::State {
                    current: ProjectedValue::Fresh { value: words, observed_at: at },
                    changed_at: None,
                    continuous_for: Some(0),
                })
            }
        }),
{
}

/// The history takes numbers as they are shown now: the value, what was counted over the
/// time shown, and whether the counter was reset; it takes no states and nothing old.
pub proof fn history_takes_what_is_shown(value: SeriesValue<Seq<char>>)
    ensures
        series::history_value(value) matches Some((number, delta, reset, elapsed)) ==> {
            &&& value matches SeriesValue::Counter {
                current: ProjectedValue::Fresh { value: current, .. },
                interval,
                ..
            } ==> {
                &&& number == current
                &&& reset <==> interval == Some(CounterContinuity::Reset)
                &&& interval matches Some(
                    CounterContinuity::Continuous { delta: grown, elapsed: time },
                )
                    ==> delta == grown && elapsed == time
                &&& interval matches Some(
                    CounterContinuity::Wrapped { delta: grown, elapsed: time, .. },
                ) ==> delta == grown && elapsed == time
                &&& !(interval matches Some(CounterContinuity::Continuous { .. })) && !(interval
                    matches Some(CounterContinuity::Wrapped { .. })) ==> delta == 0 && elapsed == 0
            }
            &&& value matches SeriesValue::Gauge {
                current: ProjectedValue::Fresh { value: current, .. },
                ..
            } ==> number == current && delta == 0 && !reset && elapsed == 0
        },
        series::history_value(value) is Some <==> (value matches SeriesValue::Counter {
            current: ProjectedValue::Fresh { .. },
            ..
        }) || (value matches SeriesValue::Gauge { current: ProjectedValue::Fresh { .. }, .. }),
{
}

/// A value that is shown as old is the last one that was read, with the time that has
/// passed since and the reason, and shows no change.
pub proof fn old_values_say_how_old(raw: RawSeries<Seq<char>>, now: Nanos, cause: MonitorErrorCode)
    ensures
        match (raw, series::stale_value(raw, now, cause)) {
            (
                RawSeries::Counter { last, last_at, .. },
                SeriesValue::Counter {
                    current: ProjectedValue::Stale { last: shown, observed_at, age, cause: why },
                    interval: None,
                    since_baseline: None,
                },
            ) => shown == last && observed_at == last_at && why == cause && (last_at <= now
                ==> last_at + age == now) && (now < last_at ==> age == 0),
            (
                RawSeries::Gauge { last, last_at, .. },
                SeriesValue::Gauge {
                    current: ProjectedValue::Stale { last: shown, observed_at, age, cause: why },
                    interval: None,
                    since_baseline: None,
                },
            ) => shown == last && observed_at == last_at && why == cause && (last_at <= now
                ==> last_at + age == now) && (now < last_at ==> age == 0),
            (
                RawSeries::State { last, last_at, .. },
                SeriesValue::State {
                    current: ProjectedValue::Stale { last: shown, observed_at, age, cause: why },
                    changed_at: None,
                    continuous_for: None,
                },
            ) => shown == last && observed_at == last_at && why == cause && (last_at <= now
                ==> last_at + age == now) && (now < last_at ==> age == 0),
            _ => false,
        },
{
}

/// What cannot be shown says why, as a value of its kind, and shows no change.
pub proof fn missing_values_say_why(kind: MetricKind, reason: UnavailableReason)
    ensures
        match series::unavailable_value::<Seq<char>>(kind, reason) {
            SeriesValue::Counter { current, interval, since_baseline } => kind
                == MetricKind::Counter && current == (ProjectedValue::<u64>::Unavailable { reason })
                && interval is None && since_baseline is None,
            SeriesValue::Gauge { current, interval, since_baseline } => kind == MetricKind::Gauge
                && current == (ProjectedValue::<u64>::Unavailable { reason }) && interval is None
                && since_baseline is None,
            SeriesValue::State { current, changed_at, continuous_for } => kind
                == MetricKind::State && current == (ProjectedValue::<Seq<char>>::Unavailable {
                reason,
            }) && changed_at is None && continuous_for is None,
        },
{
}

/// Only growth is counted: that of a counter that went on or wrapped, and nothing otherwise.
pub proof fn only_growth_is_counted(step: CounterContinuity)
    ensures
        match step {
            CounterContinuity::Continuous { delta, .. } => series::counted(step) == delta,
            CounterContinuity::Wrapped { delta, .. } => series::counted(step) == delta,
            _ => series::counted(step) == 0,
        },
{
}

} // verus!
