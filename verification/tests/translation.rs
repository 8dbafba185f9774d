use std::collections::BTreeSet;

use netlens::catalog::{MetricCatalog, MetricDescriptor, MetricSource, ProviderSample};
use netlens::diagnostics::{explain, provider_sample, AttemptError};
use netlens::model::{
    CounterBits, MetricKind, MetricLabel, MetricReading, MonitorErrorCode, MonitorValidationError,
    Nanos, ProviderHealth, ReadingOutcome, SampleReading, UnavailableReason,
    MAX_READINGS_PER_PROVIDER,
};
use netlens::order::CanonicalReadingOrder;
use netlens::translate::{
    collect_attempt, collect_hardirq_sample, collect_rtnetlink_sample, link_counter_name,
    provider_for_raw_source, translate_affinity, translate_link_counters, translate_metrics,
    AffinityRecord, CollectionTiming, HardirqCollection, LinkCounters, LinkReadingsCache,
    MetricKey, MetricReadingsCache, MetricSample, RawLabel, LINK_COUNTERS, PROC_INTERRUPTS,
    PROC_NETSTAT, PROC_SNMP, PROC_SNMP6, PROC_SOFTIRQS, PROC_SOFTNET, PROC_SYS_NET_CORE,
    RTNETLINK_LINK, SYSFS_LINK,
};

const SECOND: Nanos = 1_000_000_000;
const MILLI: Nanos = 1_000_000;

fn described(
    id: &str,
    kind: MetricKind,
    labels: &[MetricLabel],
    sources: &[(&str, &str)],
) -> MetricDescriptor {
    MetricDescriptor {
        id: id.to_owned(),
        kind,
        owner: "linux.socket".to_owned(),
        allowed_labels: labels.to_vec(),
        sources: sources
            .iter()
            .map(|(provider, raw_metric)| MetricSource {
                provider: (*provider).to_owned(),
                raw_metric: (*raw_metric).to_owned(),
            })
            .collect(),
    }
}

fn catalog() -> MetricCatalog {
    let counter = MetricKind::Counter;
    let gauge = MetricKind::Gauge;
    let cpu = [MetricLabel::Cpu];
    let link = [MetricLabel::Interface, MetricLabel::Ifindex];
    let mut metrics = vec![
        described("linux.socket.tcp.segments_in", counter, &[], &[(PROC_SNMP, "Tcp.InSegs")]),
        described("linux.socket.udp.segments_in", counter, &[], &[(PROC_SNMP, "Udp.InSegs")]),
        described(
            "linux.socket.ip.output_no_routes",
            counter,
            &[],
            &[(PROC_SNMP, "Ip.OutNoRoutes")],
        ),
        described(
            "linux.socket.icmp.input_destination_unreachable",
            counter,
            &[],
            &[(PROC_SNMP, "Icmp.InDestUnreachs")],
        ),
        described(
            "linux.socket.ip.input_octets",
            counter,
            &[],
            &[(PROC_NETSTAT, "IpExt.InOctets")],
        ),
        described(
            "linux.socket.ipv6.output_no_routes",
            counter,
            &[],
            &[(PROC_SNMP6, "Ip6OutNoRoutes")],
        ),
        described(
            "linux.socket.icmpv6.input_packet_too_big",
            counter,
            &[],
            &[(PROC_SNMP6, "Icmp6InPktTooBigs")],
        ),
        described("linux.softirq.softnet.processed", counter, &cpu, &[(PROC_SOFTNET, "processed")]),
        described("linux.softirq.softnet.dropped", counter, &cpu, &[(PROC_SOFTNET, "dropped")]),
        described("linux.softirq.net_rx", counter, &cpu, &[(PROC_SOFTIRQS, "NET_RX")]),
        described(
            "linux.hardirq.network_interrupts",
            counter,
            &[
                MetricLabel::Interface,
                MetricLabel::Ifindex,
                MetricLabel::Cpu,
                MetricLabel::InterruptClass,
            ],
            &[(PROC_INTERRUPTS, "network_interrupts")],
        ),
        described(
            "linux.hardirq.affinity",
            MetricKind::State,
            &link,
            &[(PROC_INTERRUPTS, "affinity")],
        ),
        described(
            "linux.driver.any",
            gauge,
            &link,
            &[("linux.driver.text", "driver.*"), ("linux.driver.netlink", "driver.*")],
        ),
        described("linux.driver.special", gauge, &link, &[("linux.driver.text", "driver.special")]),
    ];
    for name in ["backlog_len", "input_qlen", "process_qlen"] {
        let id = format!("linux.softirq.softnet.{name}");
        metrics.push(described(&id, gauge, &cpu, &[(PROC_SOFTNET, name)]));
    }
    for name in ["netdev_budget", "netdev_budget_usecs", "dev_weight", "netdev_max_backlog"] {
        let id = format!("linux.softirq.config.{name}");
        metrics.push(described(&id, gauge, &[], &[(PROC_SYS_NET_CORE, name)]));
    }
    for index in 0..LINK_COUNTERS {
        let name = link_counter_name(index);
        let id = format!("linux.netdevice.{name}");
        metrics.push(described(&id, counter, &link, &[(RTNETLINK_LINK, name), (SYSFS_LINK, name)]));
    }
    metrics.push(described(
        "linux.netdevice.carrier_changes",
        counter,
        &link,
        &[(RTNETLINK_LINK, "carrier_changes")],
    ));
    MetricCatalog { metrics }
}

fn key(source: &str, group: &str, metric: &str, labels: &[(&str, &str)]) -> MetricKey {
    let mut key = MetricKey::new(source, group, metric);
    for (name, value) in labels {
        key.labels.push(RawLabel { name: (*name).to_owned(), value: (*value).to_owned() });
    }
    key
}

fn raw(source: &str, group: &str, metric: &str, labels: &[(&str, &str)], value: u64) -> MetricSample {
    MetricSample { key: key(source, group, metric, labels), value }
}

fn softnet(metric: &str, cpu: &str, value: u64) -> MetricSample {
    raw("proc_softnet", "softnet_cpu", metric, &[("cpu", cpu)], value)
}

fn translated(provider: &str, samples: Vec<MetricSample>) -> Vec<SampleReading> {
    translate_metrics(&catalog(), provider, &samples).unwrap()
}

fn relabel(sample: &mut MetricSample, name: &str, value: &str) {
    for label in &mut sample.key.labels {
        if label.name == name {
            label.value = value.to_owned();
        }
    }
}

fn canonical_translation(
    provider: &str,
    readings: Result<Vec<SampleReading>, MonitorValidationError>,
    tick: u64,
) -> Result<ProviderSample, MonitorValidationError> {
    readings.and_then(|readings| {
        ProviderSample::new(
            &catalog(),
            provider.to_owned(),
            Nanos::from(tick) * SECOND,
            Nanos::from(tick) * MILLI,
            ProviderHealth::Fresh,
            readings,
        )
    })
}

fn assert_canonical_readings(readings: &[SampleReading]) {
    assert!(readings.windows(2).all(|pair| !pair[1].precedes(&pair[0])));
}

fn cached_softnet_fixture() -> Vec<MetricSample> {
    [("2", "dropped"), ("10", "backlog_len"), ("1", "future_field")]
        .into_iter()
        .enumerate()
        .map(|(index, (cpu, metric))| {
            raw(
                "proc_softnet",
                "softnet_cpu",
                metric,
                &[("cpu", cpu), ("counter_bits", "32")],
                index as u64 + 1,
            )
        })
        .collect()
}

#[test]
fn indexed_source_lookup_matches_catalog_order_and_wildcards() {
    let catalog = catalog();
    for metric in &catalog.metrics {
        for source in &metric.sources {
            for name in [
                source.raw_metric.clone(),
                source.raw_metric.replace(".*", ".counter"),
                "missing_field".to_owned(),
            ] {
                let expected = catalog.metrics.iter().find(|descriptor| {
                    descriptor.sources.iter().any(|candidate| {
                        candidate.provider == source.provider
                            && (candidate.raw_metric == name
                                || candidate
                                    .raw_metric
                                    .strip_suffix(".*")
                                    .is_some_and(|prefix| name.starts_with(prefix)))
                    })
                });
                assert_eq!(catalog.descriptor_for_source(&source.provider, &name), expected);
            }
        }
    }
}

#[test]
fn an_exact_source_yields_to_a_wildcard_that_comes_earlier() {
    let catalog = catalog();
    let found = |provider: &str, name: &str| {
        catalog.descriptor_for_source(provider, name).map(|metric| metric.id.as_str())
    };
    assert_eq!(found("linux.driver.text", "driver.special"), Some("linux.driver.any"));
    assert_eq!(found("linux.driver.text", "other.special"), None);
    assert_eq!(found("linux.driver.unknown", "driver.special"), None);
    assert_eq!(catalog.descriptor("linux.driver.special").unwrap().kind, MetricKind::Gauge);
    assert!(catalog.descriptor("linux.driver.absent").is_none());
    let any = catalog.descriptor("linux.driver.any").unwrap();
    assert_eq!(any.source_priority("linux.driver.text"), Some(0));
    assert_eq!(any.source_priority("linux.driver.netlink"), Some(1));
    assert_eq!(any.source_priority(PROC_SNMP), None);
}

#[test]
fn metric_templates_match_uncached_translation_after_full_schema_mutations() {
    let catalog = catalog();
    let mut cache = MetricReadingsCache::new();
    for mutation in 0..16 {
        let mut metrics = cached_softnet_fixture();
        match mutation {
            0 | 15 => {}
            1 => metrics.iter_mut().for_each(|sample| sample.value += 100),
            2 => metrics.reverse(),
            3 => metrics[0].key.metric = "backlog_len".to_owned(),
            4 => relabel(&mut metrics[0], "cpu", "3"),
            5 => metrics[2].key.metric = "processed".to_owned(),
            6 => metrics[0].key.source = "proc_net_snmp".to_owned(),
            7 => metrics[0].key.group = "softnet".to_owned(),
            8 => metrics[0].key.labels.retain(|label| label.name != "cpu"),
            9 => relabel(&mut metrics[0], "cpu", "invalid"),
            10 => relabel(&mut metrics[0], "counter_bits", "64"),
            11 => relabel(&mut metrics[0], "counter_bits", "unknown"),
            12 => metrics[1] = metrics[0].clone(),
            13 => metrics.clear(),
            14 => metrics[0].value = u64::MAX,
            _ => unreachable!(),
        }
        let expected = canonical_translation(
            PROC_SOFTNET,
            translate_metrics(&catalog, PROC_SOFTNET, &metrics),
            mutation + 1,
        );
        let actual = cache.translate(&catalog, PROC_SOFTNET, &metrics);
        if let Ok(readings) = &actual {
            assert_canonical_readings(readings);
        }
        assert_eq!(
            canonical_translation(PROC_SOFTNET, actual, mutation + 1),
            expected,
            "schema mutation {mutation}"
        );
    }
    let metrics = cached_softnet_fixture();
    assert_eq!(
        cache.translate(&catalog, PROC_SNMP, &metrics).unwrap(),
        translate_metrics(&catalog, PROC_SNMP, &metrics).unwrap(),
        "changing the provider cannot reuse another source's templates"
    );

    let mut snmp = vec![raw("proc_net_snmp", "Tcp", "InSegs", &[], 11)];
    cache.translate(&catalog, PROC_SNMP, &snmp).unwrap();
    snmp[0].key.group = "Udp".to_owned();
    assert_eq!(
        cache.translate(&catalog, PROC_SNMP, &snmp),
        translate_metrics(&catalog, PROC_SNMP, &snmp),
        "raw group changes must redo descriptor selection"
    );
}

#[test]
fn metric_templates_share_identities_but_keep_current_values_and_collection_results() {
    let catalog = catalog();
    let mut cache = MetricReadingsCache::new();
    let mut metrics = cached_softnet_fixture();
    let before = cache.translate(&catalog, PROC_SOFTNET, &metrics).unwrap();
    let templates = cache.templates.as_ptr();
    metrics.iter_mut().for_each(|sample| sample.value += 100);
    let after = cache.translate(&catalog, PROC_SOFTNET, &metrics).unwrap();
    assert_eq!(cache.templates.as_ptr(), templates);
    assert_eq!(before.len(), after.len());
    for (old, new) in before.iter().zip(&after) {
        assert_eq!(old.metric, new.metric);
        assert_eq!(
            old.labels.get(MetricLabel::Cpu).unwrap(),
            new.labels.get(MetricLabel::Cpu).unwrap()
        );
        assert_ne!(old.outcome, new.outcome);
    }
    assert_eq!(
        canonical_translation(PROC_SOFTNET, Ok(after), 2),
        canonical_translation(
            PROC_SOFTNET,
            translate_metrics(&catalog, PROC_SOFTNET, &metrics),
            2
        )
    );
    assert_eq!(
        canonical_translation(PROC_SOFTNET, Ok(before), 1),
        canonical_translation(
            PROC_SOFTNET,
            translate_metrics(&catalog, PROC_SOFTNET, &cached_softnet_fixture()),
            1
        )
    );

    let mut attempts = MetricReadingsCache::new();
    let at = |second: Nanos| CollectionTiming {
        finished_at: second * SECOND,
        collection_duration: MILLI,
    };
    let first = collect_attempt(
        &catalog,
        &mut attempts,
        PROC_SOFTNET,
        at(2),
        Ok(cached_softnet_fixture()),
    );
    let failed = collect_attempt(
        &catalog,
        &mut attempts,
        PROC_SOFTNET,
        at(2),
        Err(AttemptError {
            code: MonitorErrorCode::Timeout,
            message: "current probe timed out".to_owned(),
        }),
    );
    assert!(!failed.health.is_fresh());
    assert!(failed.readings.is_empty());
    assert!(matches!(
        &failed.health,
        ProviderHealth::Error { error }
            if error.code() == MonitorErrorCode::Timeout
                && error.diagnostic() == "current probe timed out"
    ));
    let recovered = collect_attempt(&catalog, &mut attempts, PROC_SOFTNET, at(3), Ok(metrics));
    assert!(recovered.health.is_fresh());
    assert!(recovered.finished_at() >= first.finished_at() + SECOND);
    assert_ne!(recovered.readings, first.readings);
}

#[test]
fn canonical_order_cache_matches_all_small_permutations_and_fresh_outcomes() {
    let base = translated(
        PROC_SOFTNET,
        vec![
            softnet("dropped", "10", 1),
            softnet("processed", "2", 2),
            softnet("backlog_len", "2", 3),
            softnet("dropped", "1", 4),
        ],
    );
    let mut cache = CanonicalReadingOrder::new();
    for encoded in 0..256_usize {
        let indices = [encoded % 4, encoded / 4 % 4, encoded / 16 % 4, encoded / 64];
        if indices.into_iter().collect::<BTreeSet<_>>().len() != 4 {
            continue;
        }
        let input = indices.map(|index| base[index].clone());
        let mut first = input.to_vec();
        cache.reorder(&mut first);
        let identities = cache.identities.as_ptr();
        let mut current = input
            .iter()
            .map(|reading| {
                SampleReading::unavailable(
                    reading.metric.clone(),
                    reading.labels.clone(),
                    UnavailableReason::Missing,
                )
            })
            .collect::<Vec<_>>();
        let expected = canonical_translation(PROC_SOFTNET, Ok(current.clone()), 2).unwrap();
        cache.reorder(&mut current);
        assert_eq!(cache.identities.as_ptr(), identities);
        assert_canonical_readings(&first);
        assert_canonical_readings(&current);
        assert_eq!(current, expected.readings);
        assert_eq!(
            canonical_translation(PROC_SOFTNET, Ok(first), 1),
            canonical_translation(PROC_SOFTNET, Ok(input.to_vec()), 1)
        );
    }
}

#[test]
fn canonical_order_keeps_provider_kind_duplicate_and_cardinality_validation() {
    let base = translated(PROC_SOFTNET, cached_softnet_fixture());
    let mut cache = CanonicalReadingOrder::new();
    cache.reorder(&mut base.clone());
    let mut cases = vec![
        base.clone(),
        base.clone(),
        base.clone(),
        vec![base[0].clone(); MAX_READINGS_PER_PROVIDER + 1],
    ];
    cases[0][0] = SampleReading::observed(
        base[0].metric.clone(),
        base[0].labels.clone(),
        MetricReading::Gauge(99),
    );
    cases[1][1] = cases[1][0].clone();
    let mut errors = Vec::new();
    for (index, mut readings) in cases.into_iter().enumerate() {
        let provider = if index == 2 { PROC_SNMP } else { PROC_SOFTNET };
        let expected = canonical_translation(provider, Ok(readings.clone()), 1);
        assert!(expected.is_err());
        cache.reorder(&mut readings);
        assert_eq!(canonical_translation(provider, Ok(readings), 1), expected);
        errors.push(expected.unwrap_err());
    }
    assert_eq!(
        errors,
        [
            MonitorValidationError::MetricKindMismatch,
            MonitorValidationError::DuplicateReading,
            MonitorValidationError::MetricSourceMismatch,
            MonitorValidationError::TooManyProviderReadings,
        ]
    );
    assert!(cache.identities.is_empty());
    let mut readings = base;
    cache.reorder(&mut readings);
    assert_canonical_readings(&readings);
    canonical_translation(PROC_SOFTNET, Ok(readings), 2).unwrap();
}

#[test]
fn samples_name_every_disagreement_with_the_catalog() {
    let made = |health: ProviderHealth<String>, readings: Vec<SampleReading>| {
        ProviderSample::new(&catalog(), PROC_SOFTNET.to_owned(), SECOND, 0, health, readings)
    };
    let mut unknown = translated(PROC_SOFTNET, vec![softnet("dropped", "1", 4)]);
    unknown[0].metric = "linux.unknown".to_owned();
    assert_eq!(
        made(ProviderHealth::Fresh, unknown.clone()).unwrap_err(),
        MonitorValidationError::UnknownMetric
    );
    let failed = provider_sample(
        &catalog(),
        PROC_SOFTNET,
        SECOND,
        MILLI,
        ProviderHealth::Fresh,
        unknown,
    );
    assert!(failed.readings.is_empty());
    assert!(matches!(
        &failed.health,
        ProviderHealth::Error { error }
            if error.code() == MonitorErrorCode::Internal
                && error
                    .diagnostic()
                    .contains(explain(MonitorValidationError::UnknownMetric))
    ));
    let wide = vec![SampleReading::observed(
        "linux.softirq.softnet.dropped".to_owned(),
        netlens::model::MetricLabels::none(),
        MetricReading::Counter { value: u64::MAX, bits: Some(CounterBits::Bits32) },
    )];
    assert_eq!(
        made(ProviderHealth::Fresh, wide).unwrap_err(),
        MonitorValidationError::MetricKindMismatch
    );
    let readings = translated(PROC_SOFTNET, vec![softnet("dropped", "1", 4)]);
    assert_eq!(
        made(failed.health.clone(), readings).unwrap_err(),
        MonitorValidationError::UnexpectedReadings
    );
    assert!(made(failed.health.clone(), Vec::new()).is_ok());
}

#[test]
fn link_templates_match_uncached_translation_through_identity_and_width_changes() {
    let catalog = catalog();
    let mut cache = LinkReadingsCache::new();
    for mutation in 0..15 {
        let mut links = vec![
            LinkCounters {
                interface: "eth10".to_owned(),
                ifindex: 10,
                counter_bits: 64,
                values: (100..124).collect(),
                carrier_changes: Some(7),
            },
            LinkCounters {
                interface: "eth2".to_owned(),
                ifindex: 2,
                counter_bits: 64,
                values: (200..225).collect(),
                carrier_changes: None,
            },
        ];
        match mutation {
            0 | 14 => {}
            1 => links.iter_mut().for_each(|link| {
                link.values.iter_mut().for_each(|value| *value += 1000);
                link.carrier_changes = link.carrier_changes.map(|value| value + 1);
            }),
            2 => links.reverse(),
            3 => links[0].interface = "renamed0".to_owned(),
            4 => links[0].ifindex = 77,
            5 => links[0].values.push(124),
            6 => {
                links[0].carrier_changes = None;
                links[0].values.push(124);
            }
            7 => links[0].counter_bits = 32,
            8 => {
                links[0].counter_bits = 32;
                links[0].values[0] = u64::MAX;
            }
            9 => links[0].interface = "invalid\n".to_owned(),
            10 => {
                links[0].interface = "eth2".to_owned();
                links[0].ifindex = 2;
            }
            11 => {
                links.pop();
            }
            12 => links.clear(),
            13 => links[1].values.push(999),
            _ => unreachable!(),
        }
        let expected = canonical_translation(
            RTNETLINK_LINK,
            translate_link_counters(&catalog, &links),
            mutation + 1,
        );
        let templates = cache.templates.as_ptr();
        let actual = cache.translate(&catalog, &links);
        if mutation == 1 {
            assert_eq!(cache.templates.as_ptr(), templates, "values do not rebuild identities");
        }
        if let Ok(readings) = &actual {
            assert_canonical_readings(readings);
        }
        assert_eq!(
            canonical_translation(RTNETLINK_LINK, actual, mutation + 1),
            expected,
            "link mutation {mutation}"
        );
    }
}

#[test]
fn translation_cache_limits_do_not_truncate_or_admit_invalid_samples() {
    let catalog = catalog();
    let metrics = (0..=MAX_READINGS_PER_PROVIDER)
        .map(|cpu| softnet("dropped", &cpu.to_string(), cpu as u64))
        .collect::<Vec<_>>();
    let mut metrics_cache = MetricReadingsCache::new();
    let expected = canonical_translation(
        PROC_SOFTNET,
        translate_metrics(&catalog, PROC_SOFTNET, &metrics),
        1,
    );
    assert_eq!(expected, Err(MonitorValidationError::TooManyProviderReadings));
    assert_eq!(
        canonical_translation(
            PROC_SOFTNET,
            metrics_cache.translate(&catalog, PROC_SOFTNET, &metrics),
            1
        ),
        expected
    );
    assert!(metrics_cache.templates.is_empty());

    let links = (0..=MAX_READINGS_PER_PROVIDER / 24)
        .map(|index| LinkCounters {
            interface: format!("eth{index}"),
            ifindex: index as u32 + 1,
            counter_bits: 64,
            values: vec![1; 24],
            carrier_changes: None,
        })
        .collect::<Vec<_>>();
    let mut link_cache = LinkReadingsCache::new();
    let expected =
        canonical_translation(RTNETLINK_LINK, translate_link_counters(&catalog, &links), 1);
    assert_eq!(expected, Err(MonitorValidationError::TooManyProviderReadings));
    assert_eq!(
        canonical_translation(RTNETLINK_LINK, link_cache.translate(&catalog, &links), 1),
        expected
    );
    assert!(link_cache.templates.is_empty());
}

#[test]
fn maps_proc_group_and_metric_through_the_catalog() {
    let readings = translated(
        PROC_SNMP,
        vec![
            raw("proc_net_snmp", "Tcp", "InSegs", &[], 42),
            raw("proc_net_snmp", "Tcp", "FutureField", &[], 7),
        ],
    );
    assert_eq!(readings.len(), 1);
    assert_eq!(readings[0].metric, "linux.socket.tcp.segments_in");
    assert!(matches!(
        readings[0].outcome,
        ReadingOutcome::Observed(MetricReading::Counter { value: 42, bits: None })
    ));
}

#[test]
fn maps_network_route_mibs_without_merging_ipv4_and_ipv6() {
    let snmp = translated(
        PROC_SNMP,
        vec![
            raw("proc_net_snmp", "Ip", "OutNoRoutes", &[], 3),
            raw("proc_net_snmp", "Icmp", "InDestUnreachs", &[], 5),
        ],
    );
    let netstat =
        translated(PROC_NETSTAT, vec![raw("proc_net_netstat", "IpExt", "InOctets", &[], 1_024)]);
    let snmp6 = translated(
        PROC_SNMP6,
        vec![
            raw("proc_net_snmp6", "snmp6", "Ip6OutNoRoutes", &[], 7),
            raw("proc_net_snmp6", "snmp6", "Icmp6InPktTooBigs", &[], 11),
        ],
    );
    let ids = snmp
        .iter()
        .chain(&netstat)
        .chain(&snmp6)
        .map(|reading| reading.metric.as_str())
        .collect::<BTreeSet<_>>();
    assert_eq!(
        ids,
        BTreeSet::from([
            "linux.socket.icmp.input_destination_unreachable",
            "linux.socket.icmpv6.input_packet_too_big",
            "linux.socket.ip.input_octets",
            "linux.socket.ip.output_no_routes",
            "linux.socket.ipv6.output_no_routes",
        ])
    );
}

#[test]
fn typed_link_counters_match_the_generic_adapter() {
    for bits in [32, 64] {
        let links = vec![LinkCounters {
            interface: "vf7".to_owned(),
            ifindex: 47,
            counter_bits: bits,
            values: (0..25)
                .map(|index| {
                    if bits == 64 {
                        u64::MAX - index
                    } else {
                        u64::from(u32::MAX) - index
                    }
                })
                .collect(),
            carrier_changes: Some(u32::MAX),
        }];
        let width = if bits == 64 { "64" } else { "32" };
        let labels = |bits| [("interface", "vf7"), ("ifindex", "47"), ("counter_bits", bits)];
        let mut generic: Vec<_> = (0..LINK_COUNTERS)
            .map(|index| {
                raw(
                    "rtnetlink_link_stats",
                    "link",
                    link_counter_name(index),
                    &labels(width),
                    links[0].values[index],
                )
            })
            .collect();
        generic.push(raw(
            "rtnetlink_link_stats",
            "link",
            "carrier_changes",
            &labels("32"),
            u64::from(u32::MAX),
        ));
        let actual = translate_link_counters(&catalog(), &links).unwrap();
        assert_eq!(actual, translated(RTNETLINK_LINK, generic));
        canonical_translation(RTNETLINK_LINK, Ok(actual), 1).unwrap();
    }
}

#[test]
fn preserves_counter_width_without_copying_private_labels() {
    let readings = translated(
        RTNETLINK_LINK,
        vec![raw(
            "rtnetlink_link_stats",
            "link",
            "rx_packets",
            &[("interface", "eth0"), ("ifindex", "2"), ("counter_bits", "32"), ("queue", "7")],
            99,
        )],
    );
    assert_eq!(readings[0].labels.len(), 2);
    assert_eq!(readings[0].labels.get(MetricLabel::Interface), Some("eth0"));
    assert_eq!(readings[0].labels.get(MetricLabel::Ifindex), Some("2"));
    assert!(matches!(
        readings[0].outcome,
        ReadingOutcome::Observed(MetricReading::Counter {
            value: 99,
            bits: Some(CounterBits::Bits32)
        })
    ));
}

#[test]
fn softnet_only_admits_rows_with_stable_cpu_identity() {
    let readings = translated(
        PROC_SOFTNET,
        vec![
            raw("proc_softnet", "softnet", "dropped", &[], 30),
            raw("proc_softnet", "softnet_cpu", "dropped", &[("cpu_row", "0")], 10),
            raw("proc_softnet", "softnet_cpu", "dropped", &[("cpu", "3")], 20),
        ],
    );
    assert_eq!(readings.len(), 1);
    assert_eq!(readings[0].metric, "linux.softirq.softnet.dropped");
    assert_eq!(readings[0].labels.get(MetricLabel::Cpu), Some("3"));
}

#[test]
fn softnet_queue_lengths_translate_as_per_cpu_gauges() {
    let readings = translated(
        PROC_SOFTNET,
        [("backlog_len", 7), ("input_qlen", 5), ("process_qlen", 2)]
            .into_iter()
            .map(|(metric, value)| softnet(metric, "3", value))
            .collect(),
    );
    assert_eq!(readings.len(), 3);
    for (reading, (metric, value)) in readings.iter().zip([
        ("linux.softirq.softnet.backlog_len", 7),
        ("linux.softirq.softnet.input_qlen", 5),
        ("linux.softirq.softnet.process_qlen", 2),
    ]) {
        assert_eq!(reading.metric, metric);
        assert_eq!(reading.labels.get(MetricLabel::Cpu), Some("3"));
        assert!(matches!(
            reading.outcome,
            ReadingOutcome::Observed(MetricReading::Gauge(current)) if current == value
        ));
    }
}

#[test]
fn net_core_softirq_settings_translate_as_host_gauges() {
    let readings = translated(
        PROC_SYS_NET_CORE,
        [
            ("netdev_budget", 300),
            ("netdev_budget_usecs", 2_000),
            ("dev_weight", 64),
            ("netdev_max_backlog", 1_000),
        ]
        .into_iter()
        .map(|(metric, value)| raw("proc_sys_net_core", "net_core", metric, &[], value))
        .collect(),
    );
    assert_eq!(readings.len(), 4);
    for (reading, (metric, value)) in readings.iter().zip([
        ("linux.softirq.config.netdev_budget", 300),
        ("linux.softirq.config.netdev_budget_usecs", 2_000),
        ("linux.softirq.config.dev_weight", 64),
        ("linux.softirq.config.netdev_max_backlog", 1_000),
    ]) {
        assert_eq!(reading.metric, metric);
        assert!(reading.labels.is_empty());
        assert!(matches!(
            reading.outcome,
            ReadingOutcome::Observed(MetricReading::Gauge(current)) if current == value
        ));
    }
}

#[test]
fn translates_irq_rows_with_stable_interface_and_cpu_identity() {
    let softirq = translated(
        PROC_SOFTIRQS,
        vec![raw("proc_softirqs", "softirq_cpu", "NET_RX", &[("cpu", "3")], 11)],
    );
    assert_eq!(softirq[0].metric, "linux.softirq.net_rx");
    assert_eq!(softirq[0].labels.get(MetricLabel::Cpu), Some("3"));

    let hardirq = translated(
        PROC_INTERRUPTS,
        vec![raw(
            "proc_interrupts",
            "hardirq_cpu",
            "network_interrupts",
            &[("interface", "eth0"), ("ifindex", "2"), ("cpu", "3"), ("interrupt_class", "network")],
            17,
        )],
    );
    assert_eq!(hardirq[0].metric, "linux.hardirq.network_interrupts");
    assert_eq!(hardirq[0].labels.get(MetricLabel::Interface), Some("eth0"));
    assert_eq!(hardirq[0].labels.get(MetricLabel::Ifindex), Some("2"));
    assert_eq!(hardirq[0].labels.get(MetricLabel::Cpu), Some("3"));
    assert_eq!(hardirq[0].labels.get(MetricLabel::InterruptClass), Some("network"));
}

fn affinity(cpu_list: &str, complete: bool) -> AffinityRecord {
    AffinityRecord {
        interface: "eth0".to_owned(),
        ifindex: 2,
        cpu_list: Some(cpu_list.to_owned()),
        complete,
    }
}

#[test]
fn incomplete_irq_affinity_is_unavailable_instead_of_partial() {
    let complete = translate_affinity(&affinity("0-3", true)).unwrap();
    assert!(matches!(
        complete.outcome,
        ReadingOutcome::Observed(MetricReading::State(value)) if value == "0-3"
    ));
    let incomplete = translate_affinity(&affinity("0-1", false)).unwrap();
    assert!(matches!(
        incomplete.outcome,
        ReadingOutcome::Unavailable(UnavailableReason::Missing)
    ));
}

#[test]
fn shared_hardirq_mapping_degrades_provider_without_exposing_irq_identity() {
    let timing = CollectionTiming { finished_at: SECOND, collection_duration: MILLI };
    let sample = collect_hardirq_sample(
        &catalog(),
        timing,
        Ok(HardirqCollection {
            metrics: Vec::new(),
            affinities: Vec::new(),
            skipped_shared_irqs: 1,
        }),
    );
    assert!(matches!(
        &sample.health,
        ProviderHealth::Partial { warning }
            if warning.code() == MonitorErrorCode::Unsupported
                && warning.diagnostic().contains("mapped to multiple network interfaces")
                && !warning.diagnostic().contains("40")
    ));
    assert!(sample.readings.is_empty());

    let shown = collect_hardirq_sample(
        &catalog(),
        timing,
        Ok(HardirqCollection {
            metrics: Vec::new(),
            affinities: vec![affinity("0-3", true)],
            skipped_shared_irqs: 0,
        }),
    );
    assert!(shown.health.is_fresh());
    assert_eq!(shown.readings.len(), 1);
}

#[test]
fn link_metadata_is_used_only_with_fresh_counters() {
    let catalog = catalog();
    let timing = CollectionTiming { finished_at: SECOND, collection_duration: MILLI };
    let mut cache = LinkReadingsCache::new();
    let links = vec![LinkCounters {
        interface: "eth0".to_owned(),
        ifindex: 2,
        counter_bits: 64,
        values: vec![1, 2],
        carrier_changes: None,
    }];
    let (sample, usable) = collect_rtnetlink_sample(&catalog, &mut cache, timing, Ok(links));
    assert!(sample.health.is_fresh());
    assert!(usable);
    assert_eq!(sample.readings.len(), 2);
    let (sample, usable) = collect_rtnetlink_sample(
        &catalog,
        &mut cache,
        timing,
        Err(AttemptError { code: MonitorErrorCode::Io, message: "no socket".to_owned() }),
    );
    assert!(!sample.health.is_fresh());
    assert!(!usable);
}

#[test]
fn collection_timing_counts_from_the_session_start() {
    assert_eq!(
        CollectionTiming::observed(5, 7, 20),
        CollectionTiming { finished_at: 15, collection_duration: 13 }
    );
    assert_eq!(
        CollectionTiming::observed(50, 70, 20),
        CollectionTiming { finished_at: 0, collection_duration: 0 }
    );
    assert_eq!(provider_for_raw_source("sys_class_net"), Some(SYSFS_LINK));
    assert_eq!(provider_for_raw_source("sys_class_nets"), None);
}
