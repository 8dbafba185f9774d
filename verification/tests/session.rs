use netlens::catalog::{MetricCatalog, MetricDescriptor, MetricSource, ProviderSample};
use netlens::engine::{
    project_observed, HistoryEvent, MonitorEngine, MonitorSnapshot, SeriesEntry, SeriesKey,
    MAX_ADMITTED_SERIES, RAW_PRIVATE_NIC_METRIC_ID,
};
use netlens::model::{
    entry, CounterBits, MetricKind, MetricLabel, MetricLabels, MetricReading, MonitorError,
    MonitorErrorCode, MonitorValidationError, Nanos, ProviderHealth, SampleReading,
    UnavailableReason,
};
use netlens::series::{
    counter_continuity, BaselineOrigin, CounterContinuity, ProjectedValue, SeriesValue,
};

const SOURCE: &str = "linux.proc.net.snmp";
const METRIC: &str = "linux.socket.tcp.retransmitted_segments";
const SOCKSTAT: &str = "linux.proc.net.sockstat";
const SOFTNET_METRIC: &str = "linux.softirq.softnet.processed";
const SOFTNET_SOURCE: &str = "linux.proc.net.softnet_stat";
const OWNER_SOCKET: &str = "linux.socket";
const SECOND: Nanos = 1_000_000_000;
const MILLI: Nanos = 1_000_000;

fn described(
    id: &str,
    kind: MetricKind,
    labels: &[MetricLabel],
    sources: &[&str],
) -> MetricDescriptor {
    MetricDescriptor {
        id: id.to_owned(),
        kind,
        owner: OWNER_SOCKET.to_owned(),
        allowed_labels: labels.to_vec(),
        sources: sources
            .iter()
            .map(|provider| MetricSource {
                provider: (*provider).to_owned(),
                raw_metric: id.to_owned(),
            })
            .collect(),
    }
}

fn catalog() -> MetricCatalog {
    let interface = [MetricLabel::Interface, MetricLabel::Ifindex];
    let statistic = [MetricLabel::Interface, MetricLabel::Ifindex, MetricLabel::Statistic];
    MetricCatalog {
        metrics: vec![
            described(METRIC, MetricKind::Counter, &[], &[SOURCE]),
            described("linux.socket.tcp.in_use", MetricKind::Gauge, &[], &[SOCKSTAT]),
            described("linux.socket.udp.in_use", MetricKind::Gauge, &[], &[SOCKSTAT]),
            described(SOFTNET_METRIC, MetricKind::Counter, &[MetricLabel::Cpu], &[SOFTNET_SOURCE]),
            described(
                "linux.netdevice.rx_packets",
                MetricKind::Counter,
                &interface,
                &["linux.rtnetlink.link_stats", "linux.sysfs.net.statistics"],
            ),
            described(
                RAW_PRIVATE_NIC_METRIC_ID,
                MetricKind::Gauge,
                &statistic,
                &["linux.ethtool.netlink", "linux.ethtool.text"],
            ),
            described(
                "linux.nic.setting",
                MetricKind::State,
                &statistic,
                &["linux.ethtool.link_text"],
            ),
        ],
    }
}

fn new_engine() -> MonitorEngine {
    MonitorEngine::new(catalog(), 1)
}

fn labels(entries: &[(MetricLabel, &str)]) -> MetricLabels {
    MetricLabels::new(entries.iter().map(|(label, value)| entry(*label, value)).collect()).unwrap()
}

fn observed(metric: &str, labels: MetricLabels, reading: MetricReading<String>) -> SampleReading {
    SampleReading::observed(metric.to_owned(), labels, reading)
}

fn unavailable(metric: &str, reason: UnavailableReason) -> SampleReading {
    SampleReading::unavailable(metric.to_owned(), MetricLabels::none(), reason)
}

fn built(
    source: &str,
    at: u64,
    health: ProviderHealth<String>,
    readings: Vec<SampleReading>,
) -> ProviderSample {
    ProviderSample::new(
        &catalog(),
        source.to_owned(),
        Nanos::from(at) * SECOND,
        0,
        health,
        readings,
    )
    .unwrap()
}

fn failed(code: MonitorErrorCode, words: &str) -> ProviderHealth<String> {
    ProviderHealth::Error { error: MonitorError::new(code, words).unwrap() }
}

fn sample(at: u64, value: u64, health: ProviderHealth<String>) -> ProviderSample {
    let readings = if health.allows_readings() {
        vec![observed(METRIC, MetricLabels::none(), MetricReading::Counter { value, bits: None })]
    } else {
        Vec::new()
    };
    ProviderSample::new(
        &catalog(),
        SOURCE.to_owned(),
        Nanos::from(at) * SECOND,
        MILLI,
        health,
        readings,
    )
    .unwrap()
}

fn ingest(engine: &mut MonitorEngine, at: u64, samples: Vec<ProviderSample>) -> MonitorSnapshot {
    engine.ingest(Nanos::from(at) * SECOND, samples, None).unwrap().0
}

fn rate(interval: &Option<CounterContinuity>) -> Option<f64> {
    match interval {
        Some(
            CounterContinuity::Continuous { delta, elapsed }
            | CounterContinuity::Wrapped { delta, elapsed, .. },
        ) => Some(*delta as f64 / (*elapsed as f64 / 1e9)),
        _ => None,
    }
}

fn only(provider: &str) -> Option<Vec<String>> {
    Some(vec![provider.to_owned()])
}

#[test]
fn suspended_cached_settings_and_gauges_keep_their_original_observation() {
    let setting = labels(&[
        (MetricLabel::Interface, "eth0"),
        (MetricLabel::Ifindex, "2"),
        (MetricLabel::Statistic, "Speed"),
    ]);
    for (source, metric, labels, reading) in [
        (
            "linux.ethtool.link_text",
            "linux.nic.setting",
            setting,
            MetricReading::State("1000Mb/s".to_owned()),
        ),
        (SOCKSTAT, "linux.socket.tcp.in_use", MetricLabels::none(), MetricReading::Gauge(7)),
    ] {
        let sample =
            built(source, 2, ProviderHealth::Fresh, vec![observed(metric, labels, reading)]);
        let mut engine = new_engine();
        engine.set_focus(only(source));
        ingest(&mut engine, 1, vec![]);
        let first = ingest(&mut engine, 2, vec![sample.clone()]);
        engine.set_focus(only("linux.proc.interrupts"));
        assert!(ingest(&mut engine, 3, vec![]).series.is_empty());
        engine.set_focus(only(source));
        let resumed = ingest(&mut engine, 4, vec![sample]);
        assert_eq!(resumed.series[0], first.series[0]);
        assert_eq!(resumed.providers[0].last_attempt_at, 2 * SECOND);
    }
}

#[test]
fn suspended_sources_disappear_and_resume_with_a_fresh_rate_baseline() {
    let mut engine = new_engine();
    engine.set_focus(only(SOURCE));
    let mut identity = None;
    for (at, value, expected_rate) in [(1, 10, None), (2, 20, Some(10.0))] {
        let snapshot = ingest(&mut engine, at, vec![sample(at, value, ProviderHealth::Fresh)]);
        let row = &snapshot.series[0];
        identity = Some(row.id);
        let SeriesValue::Counter { interval, .. } = &row.value else {
            panic!("expected counter")
        };
        assert_eq!(rate(interval), expected_rate);
    }

    engine.set_focus(only("linux.proc.interrupts"));
    for at in [3, 9] {
        let snapshot = ingest(&mut engine, at, Vec::new());
        assert!(snapshot.series.is_empty());
        assert!(snapshot.providers.is_empty());
    }
    engine.set_focus(only(SOURCE));
    for (at, value, expected_rate) in [(10, 10_000, None), (11, 10_010, Some(10.0))] {
        let snapshot = ingest(&mut engine, at, vec![sample(at, value, ProviderHealth::Fresh)]);
        let row = &snapshot.series[0];
        assert_eq!(Some(row.id), identity);
        let SeriesValue::Counter { interval, .. } = &row.value else {
            panic!("expected counter")
        };
        assert_eq!(rate(interval), expected_rate);
    }
    let missing = ingest(
        &mut engine,
        12,
        vec![sample(12, 0, failed(MonitorErrorCode::Io, "failed probe"))],
    );
    assert!(matches!(
        missing.series[0].value,
        SeriesValue::Counter { current: ProjectedValue::Stale { last: 10_010, .. }, .. }
    ));
}

#[test]
fn reversed_cached_provider_order_preserves_fresh_stale_and_unavailable_rows() {
    let gauges = built(
        SOCKSTAT,
        1,
        ProviderHealth::Fresh,
        vec![
            observed("linux.socket.tcp.in_use", MetricLabels::none(), MetricReading::Gauge(7)),
            unavailable("linux.socket.udp.in_use", UnavailableReason::InvalidValue),
        ],
    );
    let initial = vec![sample(1, 10, ProviderHealth::Fresh), gauges.clone()];
    let mut reordered = new_engine();
    let mut reference = new_engine();
    for engine in [&mut reordered, &mut reference] {
        ingest(engine, 1, initial.clone());
    }
    let failed = sample(2, 0, failed(MonitorErrorCode::Io, "failed"));
    let mut retained = Vec::new();
    for at in 2..=6 {
        let ordered = vec![failed.clone(), gauges.clone()];
        let mut input = ordered.clone();
        if at % 2 == 0 {
            input.reverse();
        }
        let snapshot = ingest(&mut reordered, at, input);
        let expected = ingest(&mut reference, at, ordered);
        assert_eq!(snapshot, expected);
        assert_eq!(snapshot.series.len(), 3);
        for row in &snapshot.series {
            match row.metric.as_str() {
                METRIC => assert!(matches!(row.value, SeriesValue::Counter {
                    current: ProjectedValue::Stale { last: 10, observed_at, age, .. }, ..
                } if observed_at == SECOND && age == Nanos::from(at - 1) * SECOND)),
                "linux.socket.tcp.in_use" => {
                    assert!(matches!(row.value, SeriesValue::Gauge {
                        current: ProjectedValue::Fresh { value: 7, observed_at }, ..
                    } if observed_at == SECOND));
                }
                "linux.socket.udp.in_use" => assert!(matches!(
                    row.value,
                    SeriesValue::Gauge {
                        current: ProjectedValue::Unavailable {
                            reason: UnavailableReason::InvalidValue
                        },
                        ..
                    }
                )),
                metric => panic!("unexpected metric: {metric}"),
            }
        }
        retained.push((snapshot, expected));
    }
    for (snapshot, expected) in retained {
        assert_eq!(snapshot, expected);
    }
}

#[test]
fn equal_values_with_new_timestamps_keep_observations_and_full_validation() {
    let mut engine = new_engine();
    let mut counted = 0;
    for at in 1..=40 {
        let input = sample(at, 10, ProviderHealth::Fresh);
        let (snapshot, events) =
            engine.ingest(Nanos::from(at) * SECOND, vec![input.clone()], None).unwrap();
        let row = &snapshot.series[0];
        counted += events.len() as u64;
        assert_eq!(counted, at);
        assert!(matches!(
            events[0],
            HistoryEvent::Observed { end, .. } if end == Nanos::from(at) * SECOND
        ));
        if at > 1 {
            assert!(matches!(row.value, SeriesValue::Counter {
                current: ProjectedValue::Fresh { value: 10, observed_at },
                interval: Some(CounterContinuity::Continuous { delta: 0, elapsed }), ..
            } if observed_at == Nanos::from(at) * SECOND && elapsed == SECOND));
        }
        let (cached, none) = engine
            .ingest(Nanos::from(at) * SECOND + 500 * MILLI, vec![input], None)
            .unwrap();
        assert_eq!(cached.series, snapshot.series);
        assert!(none.is_empty());
    }
}

#[test]
fn counter_keeps_a_stable_id_and_since_start_delta() {
    let mut engine = new_engine();
    let first = ingest(&mut engine, 1, vec![sample(1, 10, ProviderHealth::Fresh)]);
    let (second, events) = engine
        .ingest(2 * SECOND, vec![sample(2, 15, ProviderHealth::Fresh)], None)
        .unwrap();

    assert_eq!(first.series[0].id, second.series[0].id);
    assert_eq!(second.series[0].owner, OWNER_SOCKET);
    assert!(matches!(
        second.series[0].value,
        SeriesValue::Counter {
            interval: Some(CounterContinuity::Continuous { delta: 5, .. }),
            since_baseline: Some(span),
            ..
        } if span.delta == 5
    ));
    assert_eq!(
        events,
        vec![HistoryEvent::Observed {
            series: second.series[0].id,
            start: SECOND,
            end: 2 * SECOND,
            value: 15,
            delta: 5,
            interval: SECOND,
            reset: false,
        }]
    );
}

#[test]
fn unknown_width_decrease_is_a_reset() {
    let mut engine = new_engine();
    ingest(&mut engine, 1, vec![sample(1, 10, ProviderHealth::Fresh)]);
    let snapshot = ingest(&mut engine, 2, vec![sample(2, 2, ProviderHealth::Fresh)]);

    assert!(matches!(
        snapshot.series[0].value,
        SeriesValue::Counter {
            interval: Some(CounterContinuity::Reset),
            since_baseline: None,
            ..
        }
    ));
    assert_eq!(snapshot.series[0].baseline_origin, BaselineOrigin::Reset);
}

#[test]
fn cached_counter_samples_preserve_rates_history_and_real_intervals() {
    let mut engine = new_engine();
    ingest(&mut engine, 1, vec![sample(1, 10, ProviderHealth::Fresh)]);
    let second = ingest(&mut engine, 6, vec![sample(6, 35, ProviderHealth::Fresh)]);
    for now in 7..11 {
        let cached = ingest(&mut engine, now, vec![sample(6, 35, ProviderHealth::Fresh)]);
        assert_eq!(cached.series, second.series);
        assert_eq!(cached.providers[0].last_attempt_at, 6 * SECOND);
    }
    let next = ingest(&mut engine, 11, vec![sample(11, 85, ProviderHealth::Fresh)]);
    assert!(matches!(next.series[0].value, SeriesValue::Counter {
        interval: Some(CounterContinuity::Continuous { delta: 50, elapsed }),
        since_baseline: Some(span), ..
    } if elapsed == 5 * SECOND && span.delta == 75));
}

#[test]
fn cached_gauges_do_not_bias_summary_or_history() {
    let gauge = |at: u64, value: u64| {
        built(
            SOCKSTAT,
            at,
            ProviderHealth::Fresh,
            vec![observed(
                "linux.socket.tcp.in_use",
                MetricLabels::none(),
                MetricReading::Gauge(value),
            )],
        )
    };
    let mut engine = new_engine();
    ingest(&mut engine, 1, vec![gauge(1, 10)]);
    let second = ingest(&mut engine, 2, vec![gauge(2, 20)]);
    for now in 3..6 {
        let cached = ingest(&mut engine, now, vec![gauge(2, 20)]);
        assert_eq!(cached.series, second.series);
    }
    let next = ingest(&mut engine, 6, vec![gauge(6, 30)]);
    assert!(matches!(next.series[0].value, SeriesValue::Gauge {
        since_baseline: Some(summary), ..
    } if summary.count == 3 && summary.sum as f64 / summary.count as f64 == 20.0));
}

#[test]
fn cached_failure_keeps_one_gap_and_recovery_starts_a_new_baseline() {
    let mut engine = new_engine();
    ingest(&mut engine, 1, vec![sample(1, 10, ProviderHealth::Fresh)]);
    let failed = sample(6, 0, failed(MonitorErrorCode::Io, "probe failed"));
    let mut gaps = 0;
    for now in 6_u64..11 {
        let (snapshot, events) =
            engine.ingest(Nanos::from(now) * SECOND, vec![failed.clone()], None).unwrap();
        assert!(matches!(
            snapshot.series[0].value,
            SeriesValue::Counter {
                current: ProjectedValue::Stale { last: 10, .. },
                interval: None,
                ..
            }
        ));
        gaps += events.iter().filter(|event| matches!(event, HistoryEvent::Gap { .. })).count();
        assert_eq!(gaps, 1);
    }
    let recovered = ingest(&mut engine, 11, vec![sample(11, 50, ProviderHealth::Fresh)]);
    assert!(matches!(
        recovered.series[0].value,
        SeriesValue::Counter { interval: Some(CounterContinuity::RecoveredAfterGap), .. }
    ));
    let next = ingest(&mut engine, 16, vec![sample(16, 75, ProviderHealth::Fresh)]);
    assert!(matches!(next.series[0].value, SeriesValue::Counter {
        interval: Some(CounterContinuity::Continuous { delta: 25, elapsed }), ..
    } if elapsed == 5 * SECOND));
}

#[test]
fn failed_provider_keeps_the_previous_value_as_stale() {
    let mut engine = new_engine();
    ingest(&mut engine, 1, vec![sample(1, 10, ProviderHealth::Fresh)]);
    let snapshot = ingest(
        &mut engine,
        2,
        vec![sample(2, 0, failed(MonitorErrorCode::Io, "read failed"))],
    );

    assert_eq!(snapshot.providers[0].health.as_str(), "stale");
    assert!(matches!(
        snapshot.series[0].value,
        SeriesValue::Counter { current: ProjectedValue::Stale { last: 10, .. }, .. }
    ));
}

#[test]
fn partial_provider_keeps_current_rows_fresh_and_missing_rows_stale() {
    fn nic_sample(
        at: u64,
        health: ProviderHealth<String>,
        values: &[(&str, u64)],
    ) -> ProviderSample {
        let readings = values
            .iter()
            .map(|(interface, value)| {
                observed(
                    RAW_PRIVATE_NIC_METRIC_ID,
                    labels(&[
                        (MetricLabel::Interface, interface),
                        (MetricLabel::Ifindex, if *interface == "eth0" { "2" } else { "3" }),
                        (MetricLabel::Statistic, "driver_stat"),
                    ]),
                    MetricReading::Gauge(*value),
                )
            })
            .collect();
        built("linux.ethtool.text", at, health, readings)
    }

    let mut engine = new_engine();
    ingest(
        &mut engine,
        1,
        vec![nic_sample(1, ProviderHealth::Fresh, &[("eth0", 10), ("eth1", 20)])],
    );
    let warning =
        MonitorError::new(MonitorErrorCode::Timeout, "eth1 collection timed out").unwrap();
    let snapshot = ingest(
        &mut engine,
        2,
        vec![nic_sample(2, ProviderHealth::Partial { warning }, &[("eth0", 11)])],
    );

    assert!(matches!(
        &snapshot.providers[0].health,
        ProviderHealth::Partial { warning } if warning.code == MonitorErrorCode::Timeout
    ));
    let eth0 = snapshot
        .series
        .iter()
        .find(|series| series.labels.get(MetricLabel::Interface) == Some("eth0"))
        .unwrap();
    let eth1 = snapshot
        .series
        .iter()
        .find(|series| series.labels.get(MetricLabel::Interface) == Some("eth1"))
        .unwrap();
    assert!(matches!(
        eth0.value,
        SeriesValue::Gauge { current: ProjectedValue::Fresh { value: 11, .. }, .. }
    ));
    assert!(matches!(
        eth1.value,
        SeriesValue::Gauge {
            current: ProjectedValue::Stale {
                last: 20,
                cause: MonitorErrorCode::Timeout,
                ..
            },
            ..
        }
    ));
}

#[test]
fn partial_provider_preserves_an_explicit_unavailable_reason() {
    let mut engine = new_engine();
    ingest(&mut engine, 1, vec![sample(1, 10, ProviderHealth::Fresh)]);
    let warning = MonitorError::new(MonitorErrorCode::Timeout, "some fields timed out").unwrap();
    let partial = built(
        SOURCE,
        2,
        ProviderHealth::Partial { warning },
        vec![unavailable(METRIC, UnavailableReason::InvalidValue)],
    );

    let snapshot = ingest(&mut engine, 2, vec![partial]);

    assert!(matches!(
        snapshot.series[0].value,
        SeriesValue::Counter {
            current: ProjectedValue::Unavailable { reason: UnavailableReason::InvalidValue },
            ..
        }
    ));
}

#[test]
fn first_unavailable_reading_is_visible_and_recovers_with_the_same_id() {
    let missing = built(
        SOURCE,
        1,
        ProviderHealth::Fresh,
        vec![unavailable(METRIC, UnavailableReason::Missing)],
    );
    let mut engine = new_engine();
    let first = ingest(&mut engine, 1, vec![missing]);

    assert_eq!(first.series.len(), 1);
    assert!(matches!(
        first.series[0].value,
        SeriesValue::Counter {
            current: ProjectedValue::Unavailable { reason: UnavailableReason::Missing },
            ..
        }
    ));

    let second = ingest(&mut engine, 2, vec![sample(2, 10, ProviderHealth::Fresh)]);
    assert_eq!(first.series[0].id, second.series[0].id);
    assert_eq!(second.series[0].baseline_origin, BaselineOrigin::RecoveredAfterGap);
    assert!(matches!(
        second.series[0].value,
        SeriesValue::Counter {
            current: ProjectedValue::Fresh { value: 10, .. },
            interval: Some(CounterContinuity::RecoveredAfterGap),
            ..
        }
    ));
}

#[test]
fn bits64_wrap_requires_the_previous_value_to_be_in_the_top_quarter() {
    assert_eq!(
        counter_continuity(
            u64::MAX / 2,
            1,
            Some(CounterBits::Bits64),
            Some(CounterBits::Bits64),
            SECOND,
        ),
        CounterContinuity::Reset
    );
    assert!(matches!(
        counter_continuity(
            u64::MAX - 2,
            1,
            Some(CounterBits::Bits64),
            Some(CounterBits::Bits64),
            SECOND,
        ),
        CounterContinuity::Wrapped { delta: 4, .. }
    ));
}

#[test]
fn raw_private_gauges_never_project_rate_or_since_baseline() {
    fn raw_private_sample(at: u64, value: u64) -> ProviderSample {
        let labels = labels(&[
            (MetricLabel::Interface, "eth0"),
            (MetricLabel::Ifindex, "2"),
            (MetricLabel::Statistic, "vendor_counter"),
        ]);
        built(
            "linux.ethtool.netlink",
            at,
            ProviderHealth::Fresh,
            vec![observed(RAW_PRIVATE_NIC_METRIC_ID, labels, MetricReading::Gauge(value))],
        )
    }

    let mut engine = new_engine();
    ingest(&mut engine, 1, vec![raw_private_sample(1, 10)]);
    let (snapshot, events) =
        engine.ingest(2 * SECOND, vec![raw_private_sample(2, 15)], None).unwrap();

    assert!(matches!(
        snapshot.series[0].value,
        SeriesValue::Gauge {
            current: ProjectedValue::Fresh { value: 15, .. },
            interval: None,
            since_baseline: None,
        }
    ));
    assert!(events.is_empty());
}

#[test]
fn link_fallback_sources_keep_one_canonical_interface_series() {
    fn link_labels() -> MetricLabels {
        labels(&[(MetricLabel::Interface, "eth0"), (MetricLabel::Ifindex, "2")])
    }
    fn link_sample(source: &str, at: u64, value: u64) -> ProviderSample {
        built(
            source,
            at,
            ProviderHealth::Fresh,
            vec![observed(
                "linux.netdevice.rx_packets",
                link_labels(),
                MetricReading::Counter { value, bits: Some(CounterBits::Bits64) },
            )],
        )
    }

    let mut engine = new_engine();
    let rtnetlink =
        ingest(&mut engine, 1, vec![link_sample("linux.rtnetlink.link_stats", 1, 10)]);
    let sysfs = ingest(&mut engine, 2, vec![link_sample("linux.sysfs.net.statistics", 2, 11)]);
    let recovered =
        ingest(&mut engine, 3, vec![link_sample("linux.rtnetlink.link_stats", 3, 12)]);

    assert_eq!(rtnetlink.series.len(), 1);
    assert_eq!(sysfs.series.len(), 1);
    assert_eq!(recovered.series.len(), 1);
    assert_eq!(rtnetlink.series[0].id, sysfs.series[0].id);
    assert_eq!(sysfs.series[0].id, recovered.series[0].id);
    assert_eq!(recovered.series[0].baseline_origin, BaselineOrigin::RecoveredAfterGap);

    let primary = "linux.rtnetlink.link_stats";
    let fallback = "linux.sysfs.net.statistics";
    let failed = built(primary, 3, failed(MonitorErrorCode::Io, "read failed"), Vec::new());
    let unavailable = built(
        fallback,
        9,
        ProviderHealth::Fresh,
        vec![SampleReading::unavailable(
            "linux.netdevice.rx_packets".to_owned(),
            link_labels(),
            UnavailableReason::Missing,
        )],
    );
    let mut engine = new_engine();
    let mut reversed = new_engine();
    let shown: Vec<(Option<u64>, bool)> = [
        vec![link_sample(primary, 1, 10), link_sample(fallback, 1, 10)],
        vec![link_sample(primary, 2, 20), link_sample(fallback, 2, 20)],
        vec![failed.clone(), link_sample(fallback, 2, 20)],
        vec![failed, link_sample(fallback, 4, 40)],
        vec![link_sample(primary, 5, 50), link_sample(fallback, 4, 40)],
        vec![link_sample(primary, 5, 50), link_sample(fallback, 4, 40)],
        vec![],
        vec![link_sample(primary, 8, 80), link_sample(fallback, 8, 80)],
        vec![unavailable],
        vec![link_sample(fallback, 10, 100)],
        vec![link_sample(primary, 11, 110)],
    ]
    .into_iter()
    .enumerate()
    .map(|(index, samples)| {
        let mut backwards = samples.clone();
        backwards.reverse();
        let actual = ingest(&mut engine, index as u64 + 1, samples);
        let expected = ingest(&mut reversed, index as u64 + 1, backwards);
        assert_eq!(actual, expected, "cycle {}", index + 1);
        match actual.series.first() {
            None => (None, true),
            Some(series) => match &series.value {
                SeriesValue::Counter { current: ProjectedValue::Fresh { value, .. }, .. } => {
                    (Some(*value), series.source == primary)
                }
                _ => (None, false),
            },
        }
    })
    .collect();
    assert_eq!(
        shown,
        vec![
            (Some(10), true),
            (Some(20), true),
            (Some(20), false),
            (Some(40), false),
            (Some(50), true),
            (Some(50), true),
            (None, true),
            (Some(80), true),
            (None, false),
            (Some(100), false),
            (Some(110), true),
        ]
    );
}

#[test]
fn reused_snapshot_buffers_match_fresh_storage_through_gaps_and_resets() {
    let mut reused = new_engine();
    let mut fresh = new_engine();
    let mut retained = Vec::new();
    for at in 1..=60 {
        let health = if at == 13 || at == 14 {
            failed(MonitorErrorCode::Io, "read failed")
        } else {
            ProviderHealth::Fresh
        };
        let value = if at < 30 { at * 10 } else { (at - 30) * 5 };
        let input = sample(at, value, health);
        let expected = ingest(&mut fresh, at, vec![input.clone()]);
        let actual = ingest(&mut reused, at, vec![input]);
        assert_eq!(actual, expected);
        if at % 7 == 0 {
            retained.push((actual, expected));
        }
    }
    for (actual, expected) in retained {
        assert_eq!(actual, expected);
    }
}

#[test]
fn changed_labels_with_the_same_reading_count_rebuild_the_slot_mapping() {
    let make_sample = |at: u64, cpu: &str, value: u64| {
        built(
            SOFTNET_SOURCE,
            at,
            ProviderHealth::Fresh,
            vec![observed(
                SOFTNET_METRIC,
                labels(&[(MetricLabel::Cpu, cpu)]),
                MetricReading::Counter { value, bits: None },
            )],
        )
    };
    let mut engine = new_engine();
    let initial = ingest(&mut engine, 1, vec![make_sample(1, "0", 10)]);
    let changed = ingest(&mut engine, 2, vec![make_sample(2, "1", 20)]);
    assert_eq!(changed.series.len(), 2);
    assert_eq!(changed.series[0].id, initial.series[0].id);
    assert_eq!(changed.series[0].labels.get(MetricLabel::Cpu), Some("0"));
    assert_eq!(changed.series[1].labels.get(MetricLabel::Cpu), Some("1"));
    assert!(matches!(
        changed.series[0].value,
        SeriesValue::Counter { current: ProjectedValue::Unavailable { .. }, .. }
    ));
    let next = ingest(&mut engine, 3, vec![make_sample(3, "1", 25)]);
    assert!(matches!(
        next.series[1].value,
        SeriesValue::Counter { current: ProjectedValue::Fresh { value: 25, .. }, .. }
    ));
    assert_eq!(next.series[1].id, changed.series[1].id);
    assert!(matches!(
        initial.series[0].value,
        SeriesValue::Counter { current: ProjectedValue::Fresh { value: 10, .. }, .. }
    ));
}

#[test]
fn new_series_are_rejected_at_capacity_without_stopping_snapshots() {
    let mut engine = new_engine();
    for cpu in 0..MAX_ADMITTED_SERIES {
        let key = SeriesKey {
            metric: SOFTNET_METRIC.to_owned(),
            labels: labels(&[(MetricLabel::Cpu, &cpu.to_string())]),
        };
        let mut entry = SeriesEntry { key, state: None };
        project_observed(
            &engine.catalog,
            &mut entry,
            cpu,
            SOFTNET_SOURCE,
            &MetricReading::Counter { value: 1, bits: None },
            SECOND,
            true,
        );
        engine.series.push(entry);
    }

    let overflow = built(
        SOFTNET_SOURCE,
        2,
        ProviderHealth::Fresh,
        vec![observed(
            SOFTNET_METRIC,
            labels(&[(MetricLabel::Cpu, &MAX_ADMITTED_SERIES.to_string())]),
            MetricReading::Counter { value: 2, bits: None },
        )],
    );

    let snapshot = ingest(&mut engine, 2, vec![overflow]);

    assert_eq!(snapshot.series.len(), MAX_ADMITTED_SERIES);
    assert_eq!(snapshot.telemetry.rejected_series, 1);
    assert_eq!(snapshot.telemetry.evicted_series, 0);
    assert_eq!(snapshot.sequence, 1);
}

#[test]
fn a_full_engine_rejects_a_new_series_in_every_cycle() {
    let mut engine = new_engine();
    for cpu in 0..MAX_ADMITTED_SERIES {
        let key = SeriesKey {
            metric: SOFTNET_METRIC.to_owned(),
            labels: labels(&[(MetricLabel::Cpu, &cpu.to_string())]),
        };
        let mut entry = SeriesEntry { key, state: None };
        project_observed(
            &engine.catalog,
            &mut entry,
            cpu,
            SOFTNET_SOURCE,
            &MetricReading::Counter { value: 1, bits: None },
            SECOND,
            true,
        );
        engine.series.push(entry);
    }
    for at in 2..5 {
        let readings = [MAX_ADMITTED_SERIES, MAX_ADMITTED_SERIES + 1]
            .map(|cpu| {
                observed(
                    SOFTNET_METRIC,
                    labels(&[(MetricLabel::Cpu, &cpu.to_string())]),
                    MetricReading::Counter { value: at, bits: None },
                )
            })
            .to_vec();
        let overflow = built(SOFTNET_SOURCE, at, ProviderHealth::Fresh, readings);
        let snapshot = ingest(&mut engine, at, vec![overflow]);
        assert_eq!(snapshot.series.len(), MAX_ADMITTED_SERIES);
        assert_eq!(snapshot.telemetry.rejected_series, 2 * (at - 1));
    }
}

#[test]
fn a_cycle_with_the_same_sample_shows_the_same_series() {
    let mut engine = new_engine();
    let gauges = |readings: Vec<SampleReading>| {
        built(SOCKSTAT, 1, ProviderHealth::Fresh, readings)
    };
    let in_use = || {
        observed("linux.socket.tcp.in_use", MetricLabels::none(), MetricReading::Gauge(7))
    };
    let both = || {
        let missing = unavailable("linux.socket.udp.in_use", UnavailableReason::Missing);
        vec![sample(1, 10, ProviderHealth::Fresh), gauges(vec![in_use(), missing])]
    };
    let one = || vec![gauges(vec![in_use()]), sample(1, 10, ProviderHealth::Fresh)];
    for (at, samples) in [(1, [both(), both()]), (3, [one(), one()])] {
        let [samples, again] = samples;
        let first = ingest(&mut engine, at, samples);
        let second = ingest(&mut engine, at + 1, again);
        assert_eq!(first.series.len(), 3);
        assert_eq!(first.series, second.series);
        assert_eq!(first.providers, second.providers);
        assert_eq!(second.sequence, first.sequence + 1);
    }
}

#[test]
fn ids_are_equal_exactly_where_metric_and_labels_are() {
    let on = |at: u64, cpus: &[&str]| {
        let readings = cpus
            .iter()
            .map(|cpu| {
                observed(
                    SOFTNET_METRIC,
                    labels(&[(MetricLabel::Cpu, cpu)]),
                    MetricReading::Counter { value: at, bits: None },
                )
            })
            .collect();
        built(SOFTNET_SOURCE, at, ProviderHealth::Fresh, readings)
    };
    let mut engine = new_engine();
    let mut rows = Vec::new();
    for (at, cpus) in [(1, vec!["3", "1"]), (2, vec!["1", "2", "3"]), (3, vec!["2"])] {
        let snapshot = ingest(&mut engine, at, vec![on(at, &cpus)]);
        rows.extend(snapshot.series);
    }
    for a in &rows {
        for b in &rows {
            assert_eq!(a.id == b.id, a.metric == b.metric && a.labels == b.labels);
        }
    }
}

#[test]
fn a_provider_that_occurs_twice_is_refused_and_telemetry_is_counted() {
    let mut engine = new_engine();
    let twice = vec![
        sample(1, 1, ProviderHealth::Fresh),
        sample(1, 2, ProviderHealth::Fresh),
    ];
    assert!(matches!(
        engine.ingest(SECOND, twice, None),
        Err(MonitorValidationError::DuplicateProvider)
    ));
    engine.note_skipped_snapshot();
    engine.note_missed_samples(3);
    let snapshot = ingest(&mut engine, 2, vec![sample(2, 1, ProviderHealth::Fresh)]);
    assert_eq!(snapshot.telemetry.skipped_snapshots, 1);
    assert_eq!(snapshot.telemetry.provider_missed_samples, 3);
    let mut snapshot = snapshot;
    engine.note_history(&mut snapshot, 7);
    assert_eq!(snapshot.telemetry.history_buckets, 7);
    assert_eq!(snapshot.telemetry.history_bytes, 896);
    assert_eq!(engine.telemetry, snapshot.telemetry);
    engine.note_history(&mut snapshot, u64::MAX / 2);
    assert_eq!(snapshot.telemetry.history_bytes, u64::MAX);
}

#[test]
fn samples_that_disagree_with_the_catalog_are_refused() {
    let sample = |health: ProviderHealth<String>, source: &str, readings: Vec<SampleReading>| {
        ProviderSample::new(&catalog(), source.to_owned(), 0, 0, health, readings).err()
    };
    let gauge = || observed(METRIC, MetricLabels::none(), MetricReading::Gauge(1));
    let counter = |value: u64, bits: Option<CounterBits>| {
        observed(METRIC, MetricLabels::none(), MetricReading::Counter { value, bits })
    };
    let fresh = || ProviderHealth::Fresh;
    for (refused, error) in [
        (
            sample(fresh(), SOURCE, vec![observed(
                "linux.unknown",
                MetricLabels::none(),
                MetricReading::Gauge(1),
            )]),
            MonitorValidationError::UnknownMetric,
        ),
        (
            sample(fresh(), SOCKSTAT, vec![counter(1, None)]),
            MonitorValidationError::MetricSourceMismatch,
        ),
        (sample(fresh(), SOURCE, vec![gauge()]), MonitorValidationError::MetricKindMismatch),
        (
            sample(fresh(), SOURCE, vec![counter(1, None), counter(2, None)]),
            MonitorValidationError::DuplicateReading,
        ),
        (
            sample(failed(MonitorErrorCode::Io, "no"), SOURCE, vec![counter(1, None)]),
            MonitorValidationError::UnexpectedReadings,
        ),
    ] {
        assert_eq!(refused, Some(error));
    }
}

#[test]
fn a_growing_counter_adds_up_since_its_baseline() {
    let mut engine = new_engine();
    for (at, value, expected) in [(1, 10, None), (2, 25, Some(15)), (3, 25, Some(15)), (4, 40, Some(30))] {
        let snapshot = ingest(&mut engine, at, vec![sample(at, value, ProviderHealth::Fresh)]);
        let SeriesValue::Counter { since_baseline, .. } = &snapshot.series[0].value else {
            panic!("counter expected");
        };
        assert_eq!(since_baseline.map(|span| span.delta), expected);
    }
}

#[test]
fn a_gauge_summary_holds_its_values() {
    let mut engine = new_engine();
    let mut last = None;
    for (at, value) in [(1, 7), (2, 3), (3, 11)] {
        let reading = observed(
            "linux.socket.tcp.in_use",
            MetricLabels::none(),
            MetricReading::Gauge(value),
        );
        let sample = built(SOCKSTAT, at, ProviderHealth::Fresh, vec![reading]);
        let snapshot = ingest(&mut engine, at, vec![sample]);
        if let SeriesValue::Gauge { since_baseline, .. } = &snapshot.series[0].value {
            last = *since_baseline;
        }
    }
    let summary = last.unwrap();
    assert_eq!((summary.min, summary.max, summary.sum, summary.count), (3, 11, 21, 3));
}
