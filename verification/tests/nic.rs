use netlens::catalog::{MetricCatalog, MetricDescriptor, MetricSource, ProviderSample};
use netlens::engine::RAW_PRIVATE_NIC_METRIC_ID;
use netlens::interleave::interleave_readings;
use netlens::model::{
    MetricKind, MetricLabel, MetricReading, MonitorErrorCode, MonitorValidationError, Nanos,
    ProviderHealth, ReadingOutcome, SampleReading, UnavailableReason, MAX_DIAGNOSTIC_BYTES,
    MAX_READINGS_PER_PROVIDER,
};
use netlens::nic::{
    describe_failure, ethtool_failure_class, ethtool_failure_status, ethtool_status_reading,
    nic_state_value, nic_statistic_labels, translate_nic_settings, EthtoolFailure, EthtoolOutcome,
    EthtoolSetting, EthtoolSettings, EthtoolSettingsOutcome, NicCollection, NicCollectionError,
    NicInterface, NicReadingsCache, NicSettingsCache, NicStatistics, NicSysfsInfo, OperState,
    PrivateNicStatistic, StandardNicStatistic, StandardStatistic, ETHTOOL_LINK_TEXT, ETHTOOL_TEXT,
    NIC_ETHTOOL_SETTINGS_STATUS_METRIC_ID, NIC_ETHTOOL_STATISTICS_STATUS_METRIC_ID,
    RAW_NIC_SETTING_METRIC_ID, SYSFS_NIC,
};
use netlens::translate::{interface_labels, CollectionTiming};

const SECOND: Nanos = 1_000_000_000;
const MILLI: Nanos = 1_000_000;

fn described(id: &str, kind: MetricKind, statistic: bool, sources: &[&str]) -> MetricDescriptor {
    let mut allowed_labels = vec![MetricLabel::Interface, MetricLabel::Ifindex];
    if statistic {
        allowed_labels.push(MetricLabel::Statistic);
    }
    MetricDescriptor {
        id: id.to_owned(),
        kind,
        owner: "linux.nic".to_owned(),
        allowed_labels,
        sources: sources
            .iter()
            .map(|provider| MetricSource {
                provider: (*provider).to_owned(),
                raw_metric: id.to_owned(),
            })
            .collect(),
    }
}

fn catalog() -> MetricCatalog {
    let state = MetricKind::State;
    MetricCatalog {
        metrics: vec![
            described("linux.nic.interface_kind", state, false, &[SYSFS_NIC]),
            described("linux.nic.link_state", state, false, &[SYSFS_NIC]),
            described("linux.nic.mtu", MetricKind::Gauge, false, &[SYSFS_NIC]),
            described(RAW_NIC_SETTING_METRIC_ID, state, true, &[SYSFS_NIC, ETHTOOL_LINK_TEXT]),
            described(RAW_PRIVATE_NIC_METRIC_ID, MetricKind::Gauge, true, &[ETHTOOL_TEXT]),
            described(NIC_ETHTOOL_STATISTICS_STATUS_METRIC_ID, state, false, &[ETHTOOL_TEXT]),
            described(NIC_ETHTOOL_SETTINGS_STATUS_METRIC_ID, state, false, &[ETHTOOL_LINK_TEXT]),
        ],
    }
}

fn no_sysfs() -> NicSysfsInfo {
    NicSysfsInfo {
        driver: None,
        rx_queue_count: None,
        tx_queue_count: None,
        tx_queue_len: None,
        mtu: None,
    }
}

fn setting(name: &str, value: &str) -> EthtoolSetting {
    EthtoolSetting { name: name.to_owned(), value: value.to_owned() }
}

fn settings(fields: Vec<EthtoolSetting>) -> EthtoolSettings {
    EthtoolSettings { fields }
}

fn no_statistics() -> NicStatistics {
    NicStatistics { standard: Vec::new(), private: Vec::new() }
}

fn nic_interface(interface: &str, ifindex: u32, setting_value: &str) -> NicInterface {
    NicInterface {
        interface: interface.to_owned(),
        ifindex,
        hardware_backed: true,
        operstate: OperState::Up,
        sysfs: no_sysfs(),
        channels: Vec::new(),
        fallback_settings: Vec::new(),
        settings: EthtoolSettingsOutcome::Collected(settings(vec![setting(
            "Ring RX",
            setting_value,
        )])),
        ethtool: EthtoolOutcome::Collected(no_statistics()),
    }
}

fn virtual_interface(name: &str, ifindex: u32) -> NicInterface {
    NicInterface {
        hardware_backed: false,
        settings: EthtoolSettingsOutcome::NotHardwareInterface,
        ethtool: EthtoolOutcome::NotHardwareInterface,
        ..nic_interface(name, ifindex, "")
    }
}

fn collected(interfaces: Vec<NicInterface>) -> NicCollection {
    NicCollection { interfaces, errors: Vec::new() }
}

fn timing(finished_at: Nanos, collection_duration: Nanos) -> CollectionTiming {
    CollectionTiming { finished_at, collection_duration }
}

fn translate_with(
    cache: &mut NicReadingsCache,
    collection: &NicCollection,
    timing: CollectionTiming,
) -> Vec<ProviderSample> {
    let catalog = catalog();
    let settings = translate_nic_settings(&catalog, collection, timing);
    netlens::nic::translate_nic_collection(&catalog, collection, timing, settings, cache)
}

fn translate_nic_collection(
    collection: NicCollection,
    finished_at: Nanos,
    collection_duration: Nanos,
) -> Vec<ProviderSample> {
    translate_with(
        &mut NicReadingsCache::new(),
        &collection,
        timing(finished_at, collection_duration),
    )
}

fn nic_dynamic_samples(
    cache: &mut NicReadingsCache,
    collection: &NicCollection,
    second: u64,
) -> Vec<ProviderSample> {
    translate_with(cache, collection, timing(Nanos::from(second) * SECOND, 5 * MILLI))
}

fn uncached_samples(collection: &NicCollection, second: u64) -> Vec<ProviderSample> {
    nic_dynamic_samples(&mut NicReadingsCache::new(), collection, second)
}

/// Collects until the kept settings belong to the interfaces that were found.
fn collect_samples(
    cache: &mut NicSettingsCache,
    now: Nanos,
    mut collect: impl FnMut(bool) -> (NicCollection, CollectionTiming),
) -> Vec<ProviderSample> {
    let catalog = catalog();
    let mut with_settings_read = cache.refresh_due(now);
    loop {
        let (collection, timing) = collect(with_settings_read);
        if cache.accept(&catalog, with_settings_read, &collection, timing) {
            let settings = cache.current_sample(&catalog, &collection, timing);
            return netlens::nic::translate_nic_collection(
                &catalog,
                &collection,
                timing,
                settings,
                &mut NicReadingsCache::new(),
            );
        }
        with_settings_read = true;
    }
}

fn of<'a>(samples: &'a [ProviderSample], provider: &str) -> &'a ProviderSample {
    samples.iter().find(|sample| sample.provider() == provider).unwrap()
}

fn nic_settings_sample(samples: &[ProviderSample]) -> &ProviderSample {
    of(samples, ETHTOOL_LINK_TEXT)
}

fn private(fields: &[(&str, u64)]) -> Vec<PrivateNicStatistic> {
    fields
        .iter()
        .map(|(name, value)| PrivateNicStatistic { name: (*name).to_owned(), value: *value })
        .collect()
}

fn numbered(prefix: &str, count: usize) -> Vec<PrivateNicStatistic> {
    (0..count)
        .map(|index| PrivateNicStatistic {
            name: format!("{prefix}_{index:04}"),
            value: index as u64,
        })
        .collect()
}

fn numbered_settings(count: usize) -> EthtoolSettings {
    settings((0..count).map(|index| setting(&format!("setting_{index:04}"), "enabled")).collect())
}

fn nic_statistics(fields: &[(&str, u64)]) -> NicStatistics {
    NicStatistics { standard: Vec::new(), private: private(fields) }
}

fn interface_of(reading: &SampleReading) -> Option<&str> {
    reading.labels.get(MetricLabel::Interface)
}

fn state_of(reading: &SampleReading) -> &str {
    match &reading.outcome {
        ReadingOutcome::Observed(MetricReading::State(value)) => value,
        _ => panic!("expected an observed state"),
    }
}

fn statuses<'a>(sample: &'a ProviderSample, metric: &str) -> Vec<(&'a str, &'a str)> {
    sample
        .readings
        .iter()
        .filter(|reading| reading.metric == metric)
        .map(|reading| (interface_of(reading).unwrap(), state_of(reading)))
        .collect()
}

fn partial_code(sample: &ProviderSample) -> MonitorErrorCode {
    match &sample.health {
        ProviderHealth::Partial { warning } => warning.code(),
        _ => panic!("expected partial health"),
    }
}

fn diagnostic(sample: &ProviderSample) -> &str {
    match &sample.health {
        ProviderHealth::Partial { warning } => warning.diagnostic(),
        _ => panic!("expected partial health"),
    }
}

#[test]
fn nic_readings_cache_shares_identities_but_observes_new_values() {
    let mut cache = NicReadingsCache::new();
    let mut interface = nic_interface("eth0", 2, "512");
    interface.sysfs.driver = Some("test_driver".to_owned());
    interface.ethtool = EthtoolOutcome::Collected(NicStatistics {
        standard: Vec::new(),
        private: numbered("field", MAX_READINGS_PER_PROVIDER - 1),
    });
    let mut collection = collected(vec![interface]);
    let before = nic_dynamic_samples(&mut cache, &collection, 1);
    let interface = &mut collection.interfaces[0];
    interface.operstate = OperState::Down;
    interface.sysfs.driver = None;
    let EthtoolOutcome::Collected(statistics) = &mut interface.ethtool else {
        unreachable!();
    };
    for statistic in &mut statistics.private {
        statistic.value += 100;
    }
    let after = nic_dynamic_samples(&mut cache, &collection, 2);
    assert_eq!(after, uncached_samples(&collection, 2));
    for provider in [SYSFS_NIC, ETHTOOL_TEXT] {
        let old = of(&before, provider);
        let new = of(&after, provider);
        assert_eq!(old.readings.len(), new.readings.len());
        for (old, new) in old.readings.iter().zip(&new.readings) {
            assert_eq!(old.labels, new.labels);
            assert_eq!(old.metric, new.metric);
            if let ReadingOutcome::Observed(MetricReading::Gauge(value)) = &old.outcome {
                assert_eq!(
                    new.outcome,
                    ReadingOutcome::Observed(MetricReading::Gauge(value + 100))
                );
            }
        }
    }
    assert_eq!(before[2].readings.len(), MAX_READINGS_PER_PROVIDER);
    assert_eq!(before[2].finished_at(), SECOND);
    assert_eq!(after[2].finished_at(), 2 * SECOND);
}

#[test]
fn nic_readings_cache_detects_same_count_schema_changes_and_invalid_names() {
    let mut cache = NicReadingsCache::new();
    let mut collection = collected(vec![nic_interface("eth0", 2, "512")]);
    for (index, fields) in [
        [("alpha", 1), ("beta", 2), ("bad\nname", 3)],
        [("beta", 20), ("gamma", 30), ("bad\nname", 40)],
        [("gamma", 300), ("beta", 200), ("recovered", 400)],
        [("gamma", 3000), ("gamma", 2000), ("recovered", 4000)],
        [("alpha", 100), ("beta", 200), ("recovered", 300)],
    ]
    .into_iter()
    .enumerate()
    {
        let mut statistics = nic_statistics(&fields);
        statistics.standard.push(StandardNicStatistic {
            statistic: if index == 0 {
                StandardStatistic::RxPackets
            } else {
                StandardStatistic::TxBytes
            },
            value: index as u64,
        });
        collection.interfaces[0].ethtool = EthtoolOutcome::Collected(statistics);
        let samples = nic_dynamic_samples(&mut cache, &collection, index as u64 + 1);
        assert_eq!(samples, uncached_samples(&collection, index as u64 + 1));
        if index == 1 {
            let fields: Vec<_> = samples[2]
                .readings
                .iter()
                .filter_map(|reading| {
                    reading
                        .labels
                        .get(MetricLabel::Statistic)
                        .map(|name| (name, &reading.outcome))
                })
                .collect();
            assert_eq!(
                fields,
                [
                    ("beta", &ReadingOutcome::Observed(MetricReading::Gauge(20))),
                    ("gamma", &ReadingOutcome::Observed(MetricReading::Gauge(30))),
                    ("tx_bytes", &ReadingOutcome::Observed(MetricReading::Gauge(1))),
                ]
            );
        }
    }
    collection.interfaces[0].ethtool = EthtoolOutcome::Collected(nic_statistics(&[("smaller", 1)]));
    assert_eq!(nic_dynamic_samples(&mut cache, &collection, 6), uncached_samples(&collection, 6));
}

#[test]
fn nic_readings_cache_retires_removed_or_replaced_interface_identities() {
    let mut cache = NicReadingsCache::new();
    let mut interface = nic_interface("eth0", 2, "512");
    interface.ethtool = EthtoolOutcome::Collected(nic_statistics(&[("vendor", 1)]));
    let mut collection = collected(vec![interface]);
    let original = nic_dynamic_samples(&mut cache, &collection, 1);
    nic_dynamic_samples(&mut cache, &collected(Vec::new()), 2);
    assert!(cache.interfaces.is_empty());
    let recreated = nic_dynamic_samples(&mut cache, &collection, 3);
    assert_eq!(
        interface_of(&original[2].readings[0]).unwrap(),
        interface_of(&recreated[2].readings[0]).unwrap()
    );
    for (second, name, ifindex, hardware_backed) in [
        (4, "eth0", 9, true),
        (5, "renamed0", 9, true),
        (6, "renamed0", 9, false),
        (7, "renamed0", 9, true),
    ] {
        let interface = &mut collection.interfaces[0];
        interface.interface = name.to_owned();
        interface.ifindex = ifindex;
        interface.hardware_backed = hardware_backed;
        interface.ethtool = if hardware_backed {
            EthtoolOutcome::Collected(nic_statistics(&[("new_vendor", second)]))
        } else {
            EthtoolOutcome::NotHardwareInterface
        };
        let samples = nic_dynamic_samples(&mut cache, &collection, second);
        assert_eq!(samples, uncached_samples(&collection, second));
        assert_eq!(cache.interfaces.len(), 1);
        assert!(samples[0].readings.iter().all(|reading| interface_of(reading) == Some(name)
            && reading.labels.get(MetricLabel::Ifindex) == Some("9")));
    }
}

#[test]
fn interfaces_that_share_a_name_share_their_labels_and_are_refused() {
    let mut cache = NicReadingsCache::new();
    let shared = collected(vec![nic_interface("eth0", 2, "512"), nic_interface("eth0", 9, "512")]);
    let samples = nic_dynamic_samples(&mut cache, &shared, 1);
    for provider in [SYSFS_NIC, ETHTOOL_TEXT] {
        let sample = of(&samples, provider);
        assert!(sample.readings.is_empty());
        assert!(matches!(
            &sample.health,
            ProviderHealth::Error { error } if error.code() == MonitorErrorCode::Internal
        ));
    }
    assert_eq!(cache.interfaces.len(), 1);
    let alone = collected(vec![nic_interface("eth0", 9, "512")]);
    let samples = nic_dynamic_samples(&mut cache, &alone, 2);
    assert_eq!(samples, uncached_samples(&alone, 2));
    assert!(of(&samples, SYSFS_NIC)
        .readings
        .iter()
        .all(|reading| reading.labels.get(MetricLabel::Ifindex) == Some("9")));
    assert!(!of(&samples, SYSFS_NIC).readings.is_empty());
}

#[test]
fn nic_readings_cache_preserves_fair_budget_and_current_partial_failures() {
    let mut cache = NicReadingsCache::new();
    let large = NicStatistics {
        standard: Vec::new(),
        private: numbered("field", MAX_READINGS_PER_PROVIDER),
    };
    let mut interfaces: Vec<_> = (0..4)
        .map(|index| nic_interface(&format!("eth{index}"), index + 2, "512"))
        .collect();
    interfaces[0].ethtool = EthtoolOutcome::Collected(large.clone());
    interfaces[1].ethtool = EthtoolOutcome::Collected(nic_statistics(&[("small", 17)]));
    interfaces[2].ethtool = EthtoolOutcome::Failed(EthtoolFailure::TimedOut);
    interfaces[3].ethtool = EthtoolOutcome::Partial {
        statistics: large,
        rejected_lines: 3,
        omitted_private: 4,
    };
    let mut collection = collected(interfaces);
    nic_dynamic_samples(&mut cache, &collection, 1);
    collection.interfaces[0].ethtool =
        EthtoolOutcome::Failed(EthtoolFailure::PermissionDenied { detail: "denied".to_owned() });
    collection.interfaces[2].ethtool =
        EthtoolOutcome::Collected(nic_statistics(&[("recovered", 23)]));
    let EthtoolOutcome::Partial { statistics, rejected_lines, .. } =
        &mut collection.interfaces[3].ethtool
    else {
        unreachable!()
    };
    statistics.private[0].name = "replacement".to_owned();
    statistics.private[0].value = 99;
    *rejected_lines = 7;
    let samples = nic_dynamic_samples(&mut cache, &collection, 2);
    assert_eq!(samples, uncached_samples(&collection, 2));
    let stats = &samples[2];
    assert_eq!(stats.readings.len(), MAX_READINGS_PER_PROVIDER);
    assert!(
        matches!(&stats.health, ProviderHealth::Partial { warning } if warning.code() == MonitorErrorCode::CardinalityLimit && warning.diagnostic().contains("schema partials 1") && warning.diagnostic().contains("rejected=7"))
    );
    for name in ["small", "recovered", "replacement"] {
        assert!(stats
            .readings
            .iter()
            .any(|reading| reading.labels.get(MetricLabel::Statistic) == Some(name)));
    }
    assert!(!stats.readings.iter().any(|reading| interface_of(reading) == Some("eth0")
        && reading.labels.get(MetricLabel::Statistic).is_some()));
    assert_eq!(
        stats
            .readings
            .iter()
            .filter(|reading| reading.metric == NIC_ETHTOOL_STATISTICS_STATUS_METRIC_ID)
            .count(),
        4
    );
}

#[test]
fn nic_settings_cache_refreshes_first_and_at_thirty_seconds() {
    let mut cache = NicSettingsCache::new();
    assert!(cache.refresh_due(0));
    let initial = collected(vec![nic_interface("eth0", 2, "512")]);
    collect_samples(&mut cache, 0, |include_settings| {
        assert!(include_settings);
        (initial.clone(), timing(SECOND, 20 * MILLI))
    });
    assert!(!cache.refresh_due(30 * SECOND));
    assert!(cache.refresh_due(31 * SECOND));
}

#[test]
fn nic_settings_cache_shares_immutable_readings_during_dynamic_cycles() {
    let mut cache = NicSettingsCache::new();
    let mut initial = collected(vec![nic_interface("eth0", 2, "512")]);
    cache.record(&catalog(), &initial, timing(SECOND, 20 * MILLI));
    let cached = cache.sample.as_ref().unwrap().clone();
    let original_readings = cached.readings.to_vec();
    initial.interfaces[0] = nic_interface("eth0", 2, "1024");
    for second in 2..=30 {
        let samples = collect_samples(&mut cache, second * SECOND, |include_settings| {
            assert!(!include_settings);
            let mut dynamic = initial.clone();
            dynamic.interfaces[0].settings = EthtoolSettingsOutcome::RefreshPending;
            dynamic.interfaces[0].operstate = OperState::Down;
            (dynamic, timing(second * SECOND, 5 * MILLI))
        });
        assert_eq!(nic_settings_sample(&samples), &cached);
        assert!(samples[0].readings.iter().any(|reading| {
            reading.metric == "linux.nic.link_state"
                && matches!(&reading.outcome, ReadingOutcome::Observed(MetricReading::State(value)) if value == "down")
        }));
    }

    let refreshed = collect_samples(&mut cache, 31 * SECOND, |include_settings| {
        assert!(include_settings);
        (initial.clone(), timing(31 * SECOND, 25 * MILLI))
    });
    assert_ne!(nic_settings_sample(&refreshed).readings, cached.readings);
    assert_eq!(cached.readings, original_readings);
    assert_eq!(cached.finished_at(), SECOND);
    assert_eq!(cached.collection_duration, 20 * MILLI);
    assert!(!cache.refresh_due(60 * SECOND));
    assert!(cache.refresh_due(61 * SECOND));
}

#[test]
fn nic_settings_cache_requests_immediate_refresh_for_identity_changes() {
    for interfaces in [
        vec![nic_interface("eth0", 9, "1024")],
        vec![nic_interface("renamed0", 2, "1024")],
        vec![nic_interface("eth0", 2, "512"), nic_interface("eth1", 3, "1024")],
        vec![virtual_interface("eth0", 2)],
        Vec::new(),
    ] {
        let mut cache = NicSettingsCache::new();
        cache.record(
            &catalog(),
            &collected(vec![nic_interface("eth0", 2, "512")]),
            timing(SECOND, 20 * MILLI),
        );
        let changed = collected(interfaces);
        let mut attempts = Vec::new();
        let changed_timing = timing(3 * SECOND, 25 * MILLI);
        let samples = collect_samples(&mut cache, 2 * SECOND, |include_settings| {
            attempts.push(include_settings);
            let mut collection = changed.clone();
            if !include_settings {
                for interface in &mut collection.interfaces {
                    if interface.hardware_backed {
                        interface.settings = EthtoolSettingsOutcome::RefreshPending;
                    }
                }
            }
            (collection, changed_timing)
        });
        assert_eq!(attempts, [false, true]);
        assert_eq!(
            nic_settings_sample(&samples),
            &translate_nic_settings(&catalog(), &changed, changed_timing)
        );
        assert!(cache.matches_inventory(&changed));
        assert!(!cache.refresh_due(32 * SECOND));
        assert!(cache.refresh_due(33 * SECOND));
    }
}

#[test]
fn cached_settings_keep_the_actual_refresh_time_and_cost() {
    let collection = collected(vec![nic_interface("eth0", 2, "512")]);
    let mut cache = NicSettingsCache::new();
    cache.record(&catalog(), &collection, timing(2 * SECOND, 30 * MILLI));
    let samples = collect_samples(&mut cache, 10 * SECOND, |include_settings| {
        assert!(!include_settings);
        let mut dynamic = collection.clone();
        dynamic.interfaces[0].settings = EthtoolSettingsOutcome::RefreshPending;
        (dynamic, timing(10 * SECOND, 5 * MILLI))
    });
    for provider in [SYSFS_NIC, ETHTOOL_TEXT] {
        let sample = of(&samples, provider);
        assert_eq!(sample.finished_at(), 10 * SECOND);
        assert_eq!(sample.collection_duration, 5 * MILLI);
    }
    let settings = nic_settings_sample(&samples);
    assert_eq!(settings.finished_at(), 2 * SECOND);
    assert_eq!(settings.collection_duration, 30 * MILLI);
}

#[test]
fn nic_settings_cache_ignores_inventory_order_including_virtual_interfaces() {
    let mut cache = NicSettingsCache::new();
    let mut collection =
        collected(vec![nic_interface("eth0", 2, "512"), nic_interface("eth1", 3, "1024")]);
    let first_timing = timing(SECOND, 20 * MILLI);
    let mut virtual_interface = virtual_interface("veth0", 4);
    virtual_interface.channels = vec![setting("Queue source", "fixed")];
    collection.interfaces.push(virtual_interface);
    cache.record(&catalog(), &collection, first_timing);
    let cached = cache.sample.as_ref().unwrap().clone();
    collection.interfaces.reverse();
    for interface in &mut collection.interfaces {
        interface.settings = EthtoolSettingsOutcome::RefreshPending;
    }
    let samples = collect_samples(&mut cache, 2 * SECOND, |include_settings| {
        assert!(!include_settings);
        (collection.clone(), first_timing)
    });
    assert_eq!(nic_settings_sample(&samples).readings, cached.readings);
    assert_eq!(nic_settings_sample(&samples).finished_at(), SECOND);
    assert!(cached.readings.iter().any(|reading| {
        interface_of(reading) == Some("veth0")
            && reading.labels.get(MetricLabel::Statistic) == Some("Queue source")
            && matches!(&reading.outcome, ReadingOutcome::Observed(MetricReading::State(value)) if value == "fixed")
    }));
    collection.interfaces.last_mut().unwrap().ifindex += 100;
    assert!(!cache.matches_inventory(&collection));
}

#[test]
fn nic_settings_cache_retains_partial_health_and_per_interface_statuses() {
    let partial = EthtoolSettingsOutcome::Partial {
        settings: settings(vec![setting("Ring RX", "256")]),
        rejected_lines: 3,
    };
    for (outcome, status, code) in [
        (partial, "partial_schema_mismatch", MonitorErrorCode::SchemaMismatch),
        (
            EthtoolSettingsOutcome::Failed(EthtoolFailure::TimedOut),
            "timed_out",
            MonitorErrorCode::Timeout,
        ),
        (
            EthtoolSettingsOutcome::Failed(EthtoolFailure::Unsupported {
                detail: "unsupported probe".to_owned(),
            }),
            "unsupported",
            MonitorErrorCode::Unsupported,
        ),
        (EthtoolSettingsOutcome::RefreshPending, "refresh_pending", MonitorErrorCode::Internal),
    ] {
        let mut cache = NicSettingsCache::new();
        let mut collection =
            collected(vec![nic_interface("eth0", 2, "512"), nic_interface("eth1", 3, "1024")]);
        cache.record(&catalog(), &collection, timing(SECOND, 20 * MILLI));
        let successful = cache.sample.as_ref().unwrap().clone();
        collection.interfaces[1].settings = outcome;
        let refreshed = collect_samples(&mut cache, 31 * SECOND, |include_settings| {
            assert!(include_settings);
            (collection.clone(), timing(31 * SECOND, 20 * MILLI))
        });
        let cached = nic_settings_sample(&refreshed);
        assert!(matches!(successful.health, ProviderHealth::Fresh));
        assert_eq!(cached.finished_at(), 31 * SECOND);
        assert_eq!(partial_code(cached), code);
        assert_eq!(
            statuses(cached, NIC_ETHTOOL_SETTINGS_STATUS_METRIC_ID),
            [("eth0", "complete"), ("eth1", status)]
        );
        for interface in &mut collection.interfaces {
            interface.settings = EthtoolSettingsOutcome::RefreshPending;
        }
        collection.errors.push(NicCollectionError {
            interface: Some("eth0".to_owned()),
            detail: "dynamic sysfs failure".to_owned(),
        });
        let samples = collect_samples(&mut cache, 32 * SECOND, |include_settings| {
            assert!(!include_settings);
            (collection.clone(), timing(32 * SECOND, 20 * MILLI))
        });
        assert_eq!(nic_settings_sample(&samples), cached);
        assert_eq!(partial_code(&samples[0]), MonitorErrorCode::Io);
    }
}

#[test]
fn nic_settings_cache_drops_removed_failures_and_refreshes_reused_identity() {
    let mut cache = NicSettingsCache::new();
    let mut initial =
        collected(vec![nic_interface("eth0", 2, "512"), nic_interface("eth1", 3, "")]);
    initial.interfaces[1].settings = EthtoolSettingsOutcome::Failed(EthtoolFailure::TimedOut);
    cache.record(&catalog(), &initial, timing(SECOND, 20 * MILLI));
    let mut attempts = Vec::new();
    let removed = collect_samples(&mut cache, 2 * SECOND, |include_settings| {
        attempts.push(include_settings);
        (collected(vec![nic_interface("eth0", 2, "512")]), timing(2 * SECOND, 15 * MILLI))
    });
    assert_eq!(attempts, [false, true]);
    assert!(matches!(nic_settings_sample(&removed).health, ProviderHealth::Fresh));
    assert!(nic_settings_sample(&removed)
        .readings
        .iter()
        .all(|reading| interface_of(reading) == Some("eth0")));

    attempts.clear();
    initial.interfaces[1] = nic_interface("eth1", 3, "2048");
    let recreated_timing = timing(3 * SECOND, 25 * MILLI);
    let recreated = collect_samples(&mut cache, 3 * SECOND, |include_settings| {
        attempts.push(include_settings);
        (initial.clone(), recreated_timing)
    });
    assert_eq!(attempts, [false, true]);
    assert_eq!(
        nic_settings_sample(&recreated),
        &translate_nic_settings(&catalog(), &initial, recreated_timing)
    );
    assert!(matches!(nic_settings_sample(&recreated).health, ProviderHealth::Fresh));
}

#[test]
fn nic_settings_cache_uses_the_inventory_from_the_hotplug_retry() {
    let mut cache = NicSettingsCache::new();
    cache.record(&catalog(), &collected(Vec::new()), timing(SECOND, 20 * MILLI));
    let mut attempts = Vec::new();
    let refreshed = collected(vec![nic_interface("eth1", 9, "1024")]);
    let refreshed_timing = timing(3 * SECOND, 20 * MILLI);
    let samples = collect_samples(&mut cache, 2 * SECOND, |include_settings| {
        attempts.push(include_settings);
        if include_settings {
            (refreshed.clone(), refreshed_timing)
        } else {
            (collected(vec![nic_interface("eth0", 2, "")]), timing(2 * SECOND, 20 * MILLI))
        }
    });
    assert_eq!(attempts, [false, true]);
    assert!(cache.matches_inventory(&refreshed));
    assert_eq!(
        nic_settings_sample(&samples),
        &translate_nic_settings(&catalog(), &refreshed, refreshed_timing)
    );
    assert!(samples
        .iter()
        .all(|sample| sample.finished_at() == refreshed_timing.finished_at));
}

#[test]
fn shared_metadata_timing_extends_duration_without_moving_completion() {
    let session_start = 100 * SECOND;
    let metadata_started = session_start + SECOND;
    let nic_started = session_start + 2 * SECOND;
    let finished = session_start + 3 * SECOND;
    let shared = CollectionTiming::observed(session_start, metadata_started, finished);
    let independent = CollectionTiming::observed(session_start, nic_started, finished);
    assert_eq!(shared.finished_at, independent.finished_at);
    assert_eq!(shared.finished_at, 3 * SECOND);
    assert_eq!(shared.collection_duration, 2 * SECOND);
    assert_eq!(independent.collection_duration, SECOND);
}

#[test]
fn no_hardware_uses_current_inventory_time_and_zero_settings_cost() {
    let mut cache = NicSettingsCache::new();
    cache.record(&catalog(), &collected(Vec::new()), timing(2 * SECOND, 30 * MILLI));
    let samples = collect_samples(&mut cache, 10 * SECOND, |include_settings| {
        assert!(!include_settings);
        (collected(Vec::new()), timing(10 * SECOND, 5 * MILLI))
    });
    let settings = nic_settings_sample(&samples);
    assert_eq!(settings.finished_at(), 10 * SECOND);
    assert_eq!(settings.collection_duration, 0);
    assert!(matches!(settings.health, ProviderHealth::Unsupported { .. }));
    assert!(!cache.refresh_due(31 * SECOND));
    assert!(cache.refresh_due(32 * SECOND));
}

#[test]
fn pending_settings_make_the_provider_partial() {
    let mut interface = nic_interface("eth0", 2, "");
    interface.settings = EthtoolSettingsOutcome::RefreshPending;
    let samples = translate_nic_collection(collected(vec![interface]), 2 * SECOND, 30 * MILLI);
    let settings = nic_settings_sample(&samples);
    assert!(matches!(
        &settings.health,
        ProviderHealth::Partial { warning }
            if warning.code() == MonitorErrorCode::Internal
                && warning.diagnostic().contains("pending after collection")
    ));
}

#[test]
fn sysfs_nic_provider_emits_kind_from_the_collected_hardware_marker() {
    let collection = collected(vec![
        NicInterface {
            settings: EthtoolSettingsOutcome::Failed(EthtoolFailure::TimedOut),
            ethtool: EthtoolOutcome::Failed(EthtoolFailure::TimedOut),
            ..nic_interface("veth0", 2, "")
        },
        virtual_interface("eth0", 3),
    ]);
    let samples = translate_nic_collection(collection, 2 * SECOND, 30 * MILLI);
    assert_eq!(
        statuses(of(&samples, SYSFS_NIC), "linux.nic.interface_kind"),
        vec![("eth0", "virtual"), ("veth0", "physical")]
    );
}

#[test]
fn sysfs_nic_provider_maps_settings_as_observed_or_missing_states() {
    let collection = collected(vec![NicInterface {
        sysfs: NicSysfsInfo {
            driver: Some("ixgbe".to_owned()),
            rx_queue_count: Some(8),
            tx_queue_count: None,
            tx_queue_len: Some(1_000),
            mtu: Some(9_000),
        },
        settings: EthtoolSettingsOutcome::NotHardwareInterface,
        ethtool: EthtoolOutcome::NotHardwareInterface,
        ..nic_interface("eth0", 2, "")
    }]);
    let samples = translate_nic_collection(collection, 2 * SECOND, 30 * MILLI);
    let sysfs = of(&samples, SYSFS_NIC);
    let setting = |statistic: &str| {
        sysfs
            .readings
            .iter()
            .find(|reading| {
                reading.metric == RAW_NIC_SETTING_METRIC_ID
                    && reading.labels.get(MetricLabel::Statistic) == Some(statistic)
            })
            .unwrap()
    };
    assert_eq!(
        sysfs
            .readings
            .iter()
            .filter(|reading| reading.metric == RAW_NIC_SETTING_METRIC_ID)
            .count(),
        4
    );
    assert!(sysfs.readings.iter().all(|reading| {
        interface_of(reading) == Some("eth0")
            && reading.labels.get(MetricLabel::Ifindex) == Some("2")
    }));
    assert_eq!(state_of(setting("Driver")), "ixgbe");
    assert_eq!(state_of(setting("RX Queues")), "8");
    assert!(matches!(
        setting("TX Queues").outcome,
        ReadingOutcome::Unavailable(UnavailableReason::Missing)
    ));
    assert_eq!(state_of(setting("TX Queue Length")), "1000");
    assert!(sysfs.readings.iter().any(|reading| {
        reading.metric == "linux.nic.mtu"
            && reading.outcome == ReadingOutcome::Observed(MetricReading::Gauge(9_000))
    }));
}

#[test]
fn nic_mtu_refreshes_as_a_gauge_on_virtual_interfaces_without_settings_queries() {
    let mut collection = collected(vec![virtual_interface("veth0", 2)]);
    let mut cache = NicReadingsCache::new();
    for mtu in [Some(1500), Some(9000), None] {
        collection.interfaces[0].sysfs.mtu = mtu;
        let samples = nic_dynamic_samples(&mut cache, &collection, 1);
        let sysfs = of(&samples, SYSFS_NIC);
        let reading =
            sysfs.readings.iter().find(|reading| reading.metric == "linux.nic.mtu").unwrap();
        let expected = match mtu {
            Some(mtu) => ReadingOutcome::Observed(MetricReading::Gauge(u64::from(mtu))),
            None => ReadingOutcome::Unavailable(UnavailableReason::Missing),
        };
        assert_eq!(reading.outcome, expected);
        assert_eq!(interface_of(reading), Some("veth0"));
        assert_eq!(reading.labels.get(MetricLabel::Ifindex), Some("2"));
    }
}

#[test]
fn sysfs_nic_budget_preserves_interface_inventory_before_link_state_and_settings() {
    let interfaces = (0_u32..2_049)
        .map(|index| virtual_interface(&format!("v{index}"), index + 1))
        .collect();
    let samples = translate_nic_collection(
        NicCollection {
            interfaces,
            errors: vec![NicCollectionError {
                interface: Some("broken0".to_owned()),
                detail: "broken0: cannot read ifindex".to_owned(),
            }],
        },
        2 * SECOND,
        30 * MILLI,
    );
    let sysfs = of(&samples, SYSFS_NIC);
    assert!(matches!(
        &sysfs.health,
        ProviderHealth::Partial { warning }
            if warning.code() == MonitorErrorCode::CardinalityLimit
                && warning.diagnostic().contains("omitted 0 interface kind readings")
                && warning.diagnostic().contains("10247 link-state or setting readings")
                && warning.diagnostic().contains("cannot read ifindex")
    ));
    assert_eq!(sysfs.readings.len(), MAX_READINGS_PER_PROVIDER);
    let count = |metric: &str| {
        sysfs.readings.iter().filter(|reading| reading.metric == metric).count()
    };
    assert_eq!(count("linux.nic.interface_kind"), 2_049);
    assert_eq!(count("linux.nic.link_state"), 2_047);
    assert_eq!(count(RAW_NIC_SETTING_METRIC_ID), 0);
}

#[test]
fn mixed_ethtool_results_keep_successful_interfaces_and_report_partial_health() {
    let none = || EthtoolSettingsOutcome::Collected(settings(Vec::new()));
    let collection = collected(vec![
        NicInterface {
            settings: none(),
            ethtool: EthtoolOutcome::Collected(nic_statistics(&[("driver_stat", 7)])),
            ..nic_interface("eth0", 2, "")
        },
        NicInterface {
            operstate: OperState::Down,
            settings: none(),
            ethtool: EthtoolOutcome::Failed(EthtoolFailure::TimedOut),
            ..nic_interface("eth1", 3, "")
        },
    ]);
    let samples = translate_nic_collection(collection, 2 * SECOND, 30 * MILLI);
    let ethtool = of(&samples, ETHTOOL_TEXT);
    assert!(matches!(
        &ethtool.health,
        ProviderHealth::Partial { warning }
            if warning.code() == MonitorErrorCode::Timeout
                && warning.diagnostic().contains("eth1")
    ));
    assert_eq!(ethtool.readings.len(), 3);
    assert_eq!(
        statuses(ethtool, "linux.nic.ethtool_statistics_status"),
        [("eth0", "complete"), ("eth1", "timed_out")]
    );
}

#[test]
fn all_ethtool_setting_failures_still_emit_per_interface_statuses() {
    let interface = |name: &str, ifindex: u32, failure| NicInterface {
        settings: EthtoolSettingsOutcome::Failed(failure),
        ..nic_interface(name, ifindex, "")
    };
    let collection = collected(vec![
        interface("eth0", 2, EthtoolFailure::TimedOut),
        interface("eth1", 3, EthtoolFailure::CommandNotFound),
        interface(
            "eth2",
            4,
            EthtoolFailure::PermissionDenied { detail: "Operation not permitted".to_owned() },
        ),
    ]);
    let samples = translate_nic_collection(collection, 2 * SECOND, 30 * MILLI);
    let settings = nic_settings_sample(&samples);
    assert_eq!(partial_code(settings), MonitorErrorCode::Timeout);
    assert_eq!(
        settings
            .readings
            .iter()
            .map(|reading| (interface_of(reading).unwrap(), state_of(reading)))
            .collect::<Vec<_>>(),
        [
            ("eth0", "timed_out"),
            ("eth1", "command_not_found"),
            ("eth2", "permission_denied"),
        ]
    );
}

fn check_interleaving(lengths: &[usize], limits: impl IntoIterator<Item = usize>) {
    let catalog = catalog();
    let groups = lengths
        .iter()
        .enumerate()
        .map(|(group, &length)| {
            let name = format!("e{group}");
            let ifindex = group as u32 + 1;
            (0..length)
                .map(|row| {
                    if row == 0 {
                        ethtool_status_reading(
                            NIC_ETHTOOL_SETTINGS_STATUS_METRIC_ID,
                            interface_labels(&name, ifindex).unwrap(),
                            "complete",
                        )
                    } else {
                        SampleReading::observed(
                            RAW_NIC_SETTING_METRIC_ID.to_owned(),
                            nic_statistic_labels(&name, ifindex, &format!("field_{row}")).unwrap(),
                            MetricReading::State(format!("value_{group}_{row}")),
                        )
                    }
                })
                .collect::<Vec<_>>()
        })
        .collect::<Vec<_>>();
    let round_robin = (0..lengths.iter().copied().max().unwrap_or(0))
        .flat_map(|row| {
            lengths
                .iter()
                .enumerate()
                .filter_map(move |(group, &length)| (row < length).then_some((group, row)))
        })
        .collect::<Vec<_>>();
    let canonical = |readings| {
        ProviderSample::new(
            &catalog,
            ETHTOOL_LINK_TEXT.to_owned(),
            SECOND,
            0,
            ProviderHealth::Fresh,
            readings,
        )
        .unwrap()
    };
    for limit in limits {
        let expected = round_robin
            .iter()
            .take(limit)
            .map(|&(group, row)| groups[group][row].clone())
            .collect();
        let mut omitted_primary = 0;
        let mut omitted_payload_by_group = vec![0; groups.len()];
        for &(group, row) in round_robin.iter().skip(limit) {
            if row == 0 {
                omitted_primary += 1;
            } else {
                omitted_payload_by_group[group] += 1;
            }
        }
        let actual = interleave_readings(&groups, limit);
        assert_eq!(
            canonical(actual.readings),
            canonical(expected),
            "lengths={lengths:?}, limit={limit}"
        );
        assert_eq!(
            (actual.omitted_primary, actual.omitted_payload, actual.omitted_payload_by_group),
            (
                omitted_primary,
                omitted_payload_by_group.iter().sum::<usize>(),
                omitted_payload_by_group,
            ),
            "lengths={lengths:?}, limit={limit}"
        );
    }
}

#[test]
fn packed_interface_readings_preserve_round_robin_selection_and_omissions() {
    for group_count in 0..=4 {
        for mut encoded in 0..5_usize.pow(group_count) {
            let lengths = (0..group_count)
                .map(|_| {
                    let length = encoded % 5;
                    encoded /= 5;
                    length
                })
                .collect::<Vec<_>>();
            check_interleaving(&lengths, 0..=lengths.iter().sum::<usize>() + 1);
        }
    }
    for lengths in [
        vec![0, MAX_READINGS_PER_PROVIDER + 2, 1, 3, 7],
        vec![7, 3, 1, MAX_READINGS_PER_PROVIDER + 2, 0],
        vec![2; MAX_READINGS_PER_PROVIDER + 1],
    ] {
        check_interleaving(
            &lengths,
            [0, 1, 4, 5, 6, MAX_READINGS_PER_PROVIDER - 1, MAX_READINGS_PER_PROVIDER],
        );
    }
    check_interleaving(&[0, 3, 1, 0, 4], [usize::MAX]);
}

#[test]
fn interface_statuses_are_prioritized_and_counted_separately_from_payload() {
    let groups = (0..=MAX_READINGS_PER_PROVIDER)
        .map(|index| {
            vec![ethtool_status_reading(
                NIC_ETHTOOL_STATISTICS_STATUS_METRIC_ID,
                interface_labels(&format!("e{index}"), (index + 1) as u32).unwrap(),
                "complete",
            )]
        })
        .collect::<Vec<_>>();
    let bounded = interleave_readings(&groups, MAX_READINGS_PER_PROVIDER);
    assert_eq!(bounded.readings.len(), MAX_READINGS_PER_PROVIDER);
    assert_eq!(bounded.omitted_primary, 1);
    assert_eq!(bounded.omitted_payload, 0);
    assert!(bounded.omitted_payload_by_group.iter().all(|omitted| *omitted == 0));
    assert_eq!(interface_of(&bounded.readings[0]), Some("e0"));
    assert_eq!(interface_of(&bounded.readings[MAX_READINGS_PER_PROVIDER - 1]), Some("e4095"));
}

#[test]
fn ethtool_link_settings_are_an_independent_opaque_provider() {
    let collection = collected(vec![NicInterface {
        settings: EthtoolSettingsOutcome::Collected(settings(vec![
            setting("Speed", "10000Mb/s"),
            setting("Link detected", "yes"),
        ])),
        ethtool: EthtoolOutcome::Failed(EthtoolFailure::TimedOut),
        ..nic_interface("eth0", 2, "")
    }]);
    let samples = translate_nic_collection(collection, 2 * SECOND, 30 * MILLI);
    let settings = nic_settings_sample(&samples);
    let statistics = of(&samples, ETHTOOL_TEXT);
    assert!(matches!(settings.health, ProviderHealth::Fresh));
    assert_eq!(settings.readings.len(), 3);
    assert!(settings
        .readings
        .iter()
        .filter(|reading| reading.metric == RAW_NIC_SETTING_METRIC_ID)
        .all(|reading| {
            interface_of(reading) == Some("eth0")
                && matches!(
                    reading.outcome,
                    ReadingOutcome::Observed(MetricReading::State(_))
                )
        }));
    assert_eq!(partial_code(statistics), MonitorErrorCode::Timeout);
    assert!(statistics.readings.iter().any(|reading| {
        reading.metric == "linux.nic.ethtool_statistics_status" && state_of(reading) == "timed_out"
    }));
}

fn shows_cardinality_limit(sample: &ProviderSample, metric: &str) -> bool {
    sample.readings.iter().any(|reading| {
        reading.metric == metric
            && interface_of(reading) == Some("eth0")
            && state_of(reading) == "partial_cardinality_limit"
    })
}

#[test]
fn ethtool_setting_schema_partial_remains_visible_when_provider_budget_is_exceeded() {
    let collection = collected(vec![NicInterface {
        settings: EthtoolSettingsOutcome::Partial {
            settings: numbered_settings(MAX_READINGS_PER_PROVIDER),
            rejected_lines: 3,
        },
        ..nic_interface("eth0", 2, "")
    }]);
    let samples = translate_nic_collection(collection, 2 * SECOND, 30 * MILLI);
    let settings = nic_settings_sample(&samples);
    assert_eq!(settings.readings.len(), MAX_READINGS_PER_PROVIDER);
    assert_eq!(partial_code(settings), MonitorErrorCode::CardinalityLimit);
    assert!(diagnostic(settings).contains("rejected=3"));
    assert!(diagnostic(settings).contains("omitted 1 setting fields"));
    assert!(!diagnostic(settings).contains("2/1"));
    assert!(shows_cardinality_limit(settings, NIC_ETHTOOL_SETTINGS_STATUS_METRIC_ID));
}

#[test]
fn ethtool_statistic_schema_partial_remains_visible_when_provider_budget_is_exceeded() {
    let collection = collected(vec![NicInterface {
        settings: EthtoolSettingsOutcome::Collected(settings(Vec::new())),
        ethtool: EthtoolOutcome::Partial {
            statistics: NicStatistics {
                standard: Vec::new(),
                private: numbered("driver", MAX_READINGS_PER_PROVIDER),
            },
            rejected_lines: 4,
            omitted_private: 2,
        },
        ..nic_interface("eth0", 2, "")
    }]);
    let samples = translate_nic_collection(collection, 2 * SECOND, 30 * MILLI);
    let statistics = of(&samples, ETHTOOL_TEXT);
    assert_eq!(statistics.readings.len(), MAX_READINGS_PER_PROVIDER);
    assert_eq!(partial_code(statistics), MonitorErrorCode::CardinalityLimit);
    assert!(diagnostic(statistics).contains("rejected=4"));
    assert!(diagnostic(statistics).contains("private_omitted=2"));
    assert!(diagnostic(statistics).contains("omitted 1 statistics"));
    assert!(!diagnostic(statistics).contains("2/1"));
    assert!(statistics.readings.iter().any(|reading| {
        reading.metric == NIC_ETHTOOL_STATISTICS_STATUS_METRIC_ID
            && interface_of(reading) == Some("eth0")
            && state_of(reading) == "partial_cardinality_limit"
    }));
}

fn long_failure() -> EthtoolFailure {
    EthtoolFailure::ExitFailure {
        code: Some(1),
        detail: format!("LONG_STDERR_{}", "x".repeat(512)),
    }
}

#[test]
fn ethtool_setting_cardinality_preserves_issue_counts_with_long_failure() {
    let collection = collected(vec![
        NicInterface {
            settings: EthtoolSettingsOutcome::Failed(long_failure()),
            ..nic_interface("failed0", 2, "")
        },
        NicInterface {
            settings: EthtoolSettingsOutcome::Partial {
                settings: numbered_settings(MAX_READINGS_PER_PROVIDER),
                rejected_lines: 3,
            },
            ..nic_interface("partial0", 3, "")
        },
    ]);
    let samples = translate_nic_collection(collection, 2 * SECOND, 30 * MILLI);
    let settings = nic_settings_sample(&samples);
    let diagnostic = diagnostic(settings);
    assert_eq!(partial_code(settings), MonitorErrorCode::CardinalityLimit);
    assert!(diagnostic.contains("omitted 2 setting fields"));
    assert!(diagnostic.contains("failures 1"));
    assert!(diagnostic.contains("schema partials 1"));
    assert!(diagnostic.contains("first failure failed0: command_failed"));
    assert!(diagnostic.contains("first schema partial partial0: rejected=3"));
    assert!(!diagnostic.contains("LONG_STDERR"));
    assert!(diagnostic.len() <= MAX_DIAGNOSTIC_BYTES);
}

#[test]
fn ethtool_statistic_cardinality_preserves_issue_counts_with_long_failure() {
    let none = || EthtoolSettingsOutcome::Collected(settings(Vec::new()));
    let collection = collected(vec![
        NicInterface {
            settings: none(),
            ethtool: EthtoolOutcome::Failed(long_failure()),
            ..nic_interface("failed0", 2, "")
        },
        NicInterface {
            settings: none(),
            ethtool: EthtoolOutcome::Partial {
                statistics: NicStatistics {
                    standard: Vec::new(),
                    private: numbered("driver", MAX_READINGS_PER_PROVIDER),
                },
                rejected_lines: 4,
                omitted_private: 2,
            },
            ..nic_interface("partial0", 3, "")
        },
    ]);
    let samples = translate_nic_collection(collection, 2 * SECOND, 30 * MILLI);
    let statistics = of(&samples, ETHTOOL_TEXT);
    let diagnostic = diagnostic(statistics);
    assert_eq!(partial_code(statistics), MonitorErrorCode::CardinalityLimit);
    assert!(diagnostic.contains("omitted 2 statistics"));
    assert!(diagnostic.contains("failures 1"));
    assert!(diagnostic.contains("schema partials 1"));
    assert!(diagnostic.contains("first failure failed0: command_failed"));
    assert!(diagnostic.contains("first schema partial partial0: rejected=4, private_omitted=2"));
    assert!(!diagnostic.contains("LONG_STDERR"));
    assert!(diagnostic.len() <= MAX_DIAGNOSTIC_BYTES);
}

#[test]
fn ethtool_statistic_budget_is_fair_and_explicitly_partial() {
    let interface = |name: &str, ifindex: u32, prefix: &str| NicInterface {
        settings: EthtoolSettingsOutcome::Collected(settings(Vec::new())),
        ethtool: EthtoolOutcome::Collected(NicStatistics {
            standard: Vec::new(),
            private: numbered(prefix, 2_050),
        }),
        ..nic_interface(name, ifindex, "")
    };
    let collection = collected(vec![interface("eth0", 2, "a"), interface("eth1", 3, "b")]);
    let samples = translate_nic_collection(collection, 2 * SECOND, 30 * MILLI);
    let statistics = of(&samples, ETHTOOL_TEXT);
    assert_eq!(statistics.readings.len(), MAX_READINGS_PER_PROVIDER);
    assert!(matches!(
        &statistics.health,
        ProviderHealth::Partial { warning }
            if warning.code() == MonitorErrorCode::CardinalityLimit
                && warning.diagnostic().contains("omitted 6 statistics")
    ));
    for interface in ["eth0", "eth1"] {
        assert_eq!(
            statistics
                .readings
                .iter()
                .filter(|reading| interface_of(reading) == Some(interface))
                .count(),
            MAX_READINGS_PER_PROVIDER / 2
        );
    }
    assert_eq!(
        statuses(statistics, NIC_ETHTOOL_STATISTICS_STATUS_METRIC_ID),
        [("eth0", "partial_cardinality_limit"), ("eth1", "partial_cardinality_limit")]
    );
}

#[test]
fn every_ethtool_failure_has_a_status_a_code_and_words() {
    let detail = || "probe said no".to_owned();
    for (failure, status, code) in [
        (EthtoolFailure::CommandNotFound, "command_not_found", MonitorErrorCode::NotFound),
        (
            EthtoolFailure::PermissionDenied { detail: detail() },
            "permission_denied",
            MonitorErrorCode::PermissionDenied,
        ),
        (
            EthtoolFailure::Unsupported { detail: detail() },
            "unsupported",
            MonitorErrorCode::Unsupported,
        ),
        (
            EthtoolFailure::InterfaceUnavailable { detail: detail() },
            "interface_unavailable",
            MonitorErrorCode::NotFound,
        ),
        (EthtoolFailure::TimedOut, "timed_out", MonitorErrorCode::Timeout),
        (
            EthtoolFailure::OutputTooLarge { limit: 10 },
            "output_limit",
            MonitorErrorCode::OutputLimit,
        ),
        (
            EthtoolFailure::ExitFailure { code: Some(1), detail: detail() },
            "command_failed",
            MonitorErrorCode::Io,
        ),
        (EthtoolFailure::Io { detail: detail() }, "io_error", MonitorErrorCode::Io),
    ] {
        assert_eq!(ethtool_failure_status(&failure), status);
        assert_eq!(ethtool_failure_class(&failure).0, code, "{status}");
        assert!(!describe_failure(&failure).is_empty());
    }
    assert_eq!(nic_state_value(&OperState::Up), Some("up"));
    assert_eq!(nic_state_value(&OperState::Unavailable), None);
    assert_eq!(StandardStatistic::TxBytes.as_str(), "tx_bytes");
    assert_eq!(
        nic_statistic_labels("eth0", 2, "bad\nname").unwrap_err(),
        MonitorValidationError::InvalidLabelValue
    );
}
