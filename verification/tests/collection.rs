use netlens::catalog::{MetricCatalog, MetricDescriptor, MetricSource, ProviderSample};
use netlens::collector::{
    add_unsupported_samples, apply_nic_configuration, finish_nic_collection,
    is_implemented_provider, plan_settings, task_providers, unsupported_providers,
    BuiltinCollector, CachedSamples, CollectionFocus, Cycle, GroupFocus, Task, NOT_IMPLEMENTED,
    RULES_REFRESH_INTERVAL,
};
use netlens::configuration::{
    batch_count, finish_batch, offset, without_statistics, Batch, Identity, InventoryEntry,
    Polled, RequestStep, Service, BATCH_SIZE, STAGGER, WORKER_STOPPED,
};
use netlens::diagnostics::{
    error_sample, is_permission_message, monitor_error, AttemptError, IoErrorKind, IrqErrorKind,
    NetfilterErrorKind, TcErrorKind, NO_DIAGNOSTIC,
};
use netlens::model::{
    MetricKind, MetricLabels, MetricReading, MonitorErrorCode, Nanos, ProviderHealth,
    SampleReading, MAX_DIAGNOSTIC_BYTES,
};
use netlens::nic::{
    EthtoolOutcome, EthtoolSettingsOutcome, NicCollection, NicInterface, NicReadingsCache,
    NicSettingsCache, NicSysfsInfo, OperState, ETHTOOL_LINK_TEXT,
};
use netlens::qdisc::{TC_JSON, TC_NETLINK};
use netlens::translate::{CollectionTiming, PROC_INTERRUPTS, RTNETLINK_LINK};

const SECOND: Nanos = 1_000_000_000;
const MILLI: Nanos = 1_000_000;

fn catalog() -> MetricCatalog {
    let described = |id: &str, providers: &[&str]| MetricDescriptor {
        id: id.to_owned(),
        kind: MetricKind::Gauge,
        owner: "linux.nic".to_owned(),
        allowed_labels: Vec::new(),
        sources: providers
            .iter()
            .map(|provider| MetricSource {
                provider: (*provider).to_owned(),
                raw_metric: id.to_owned(),
            })
            .collect(),
    };
    MetricCatalog {
        metrics: vec![
            described("linux.nic.statistic", &["linux.ethtool.netlink", "linux.ethtool.text"]),
            described("linux.tc.drops", &[TC_NETLINK, TC_JSON]),
            described("linux.audit.denials", &["linux.audit", "linux.ethtool.netlink"]),
        ],
    }
}

const OFF: GroupFocus = GroupFocus { needed: false, foreground: false };
const ON: GroupFocus = GroupFocus { needed: true, foreground: false };
const FOREGROUND: GroupFocus = GroupFocus { needed: true, foreground: true };

fn nothing() -> CollectionFocus {
    CollectionFocus {
        configuration: OFF,
        protocols: OFF,
        sockets: OFF,
        conntrack: OFF,
        rules: OFF,
        softnet: OFF,
        softirq: OFF,
        hardirq: OFF,
        tc: OFF,
        links: OFF,
        nic: OFF,
        all: false,
    }
}

fn overview() -> CollectionFocus {
    CollectionFocus {
        configuration: ON,
        protocols: ON,
        sockets: ON,
        conntrack: ON,
        rules: ON,
        softnet: ON,
        softirq: ON,
        hardirq: ON,
        tc: FOREGROUND,
        links: ON,
        nic: ON,
        all: true,
    }
}

fn probe(provider: &str, at: Nanos) -> ProviderSample {
    error_sample(provider, at, 0, MonitorErrorCode::Io, "cached test probe")
}

/// Runs a cycle in which every task that is due gives one sample under its own name.
fn run(collector: &mut BuiltinCollector, now: Nanos) -> (Vec<Task>, Vec<ProviderSample>) {
    let mut cycle = Cycle::start();
    let mut tasks = Vec::new();
    while let Some(task) = collector.next_task(&mut cycle, now) {
        tasks.push(task);
        let name = format!("test.{task:?}");
        collector.finish_task(&mut cycle, now, vec![probe(&name, now)]);
    }
    let samples = collector.finish_cycle(&catalog(), cycle, now);
    (tasks, samples)
}

fn record_all(collector: &mut BuiltinCollector, at: Nanos, samples: &[&str]) {
    let made = |index: usize| -> Vec<ProviderSample> {
        samples.get(index).map(|name| probe(name, at)).into_iter().collect()
    };
    collector.caches.tc.record(at, made(0));
    collector.caches.rules.record(at, made(1));
    collector.caches.nic.record(at, made(2));
    collector.caches.hardirq.record(at, made(3));
}

#[test]
fn page_scope_collects_only_dependencies_and_leaves_expired_caches_untouched() {
    let mut collector = BuiltinCollector::new(overview(), true);
    record_all(&mut collector, 0, &[]);
    let sockets = CollectionFocus {
        configuration: ON,
        protocols: FOREGROUND,
        sockets: FOREGROUND,
        ..nothing()
    };
    let network = CollectionFocus { protocols: FOREGROUND, ..nothing() };
    let flows = CollectionFocus { conntrack: FOREGROUND, ..nothing() };
    let softirq =
        CollectionFocus { configuration: ON, softnet: FOREGROUND, softirq: FOREGROUND, ..nothing() };
    let mut now = 60 * SECOND;
    for (focus, expected) in [
        (sockets, vec![Task::Configuration, Task::Protocols, Task::Sockets]),
        (network, vec![Task::Protocols]),
        (flows, vec![Task::Conntrack]),
        (softirq, vec![Task::Configuration, Task::Softnet, Task::Softirq]),
    ] {
        collector.set_focus(focus);
        let (tasks, samples) = run(&mut collector, now);
        assert_eq!(tasks, expected);
        assert_eq!(samples.len(), expected.len());
        for cache in [
            &collector.caches.tc,
            &collector.caches.rules,
            &collector.caches.nic,
            &collector.caches.hardirq,
        ] {
            assert_eq!(cache.collected_at, Some(0));
        }
        now += 60 * SECOND;
    }
    collector.set_focus(CollectionFocus { hardirq: FOREGROUND, ..nothing() });
    let (tasks, samples) = run(&mut collector, now);
    assert_eq!(tasks, [Task::Hardirq]);
    assert_eq!(samples.len(), 1);
    assert_eq!(collector.caches.hardirq.collected_at, Some(now));
}

#[test]
fn resuming_overview_invalidates_counter_caches_but_keeps_configuration() {
    let mut collector = BuiltinCollector::new(overview(), true);
    record_all(&mut collector, SECOND, &[]);
    collector.caches.configuration.record(SECOND, Vec::new());
    let left = collector.set_focus(CollectionFocus { sockets: FOREGROUND, ..nothing() });
    assert!(left.stops_nic_configuration);
    assert!(!left.resets_hardirq_table);
    let back = collector.set_focus(overview());
    assert!(!back.stops_nic_configuration);
    assert!(back.resets_hardirq_table);
    for cache in [
        &collector.caches.tc,
        &collector.caches.rules,
        &collector.caches.nic,
        &collector.caches.hardirq,
    ] {
        assert!(cache.refresh_due(2 * SECOND, false, 10 * SECOND));
        assert_eq!(cache.collected_at, None);
    }
    assert_eq!(collector.caches.configuration.collected_at, Some(SECOND));
}

#[test]
fn cached_provider_schedule_keeps_timestamps_and_promotes_foreground() {
    let mut cache = CachedSamples::new();
    assert!(cache.refresh_due(0, false, RULES_REFRESH_INTERVAL));
    let sample = error_sample(TC_JSON, SECOND, 20 * MILLI, MonitorErrorCode::Io, "failed probe");
    cache.record(SECOND, vec![sample.clone()]);
    assert!(!cache.refresh_due(10 * SECOND, false, RULES_REFRESH_INTERVAL));
    assert!(cache.refresh_due(11 * SECOND, false, RULES_REFRESH_INTERVAL));
    assert!(cache.refresh_due(2 * SECOND, true, RULES_REFRESH_INTERVAL));
    assert_eq!(cache.samples, vec![sample]);
}

#[test]
fn overview_reuses_heavy_providers_and_focus_refreshes_only_its_group() {
    let mut collector = BuiltinCollector::new(overview(), true);
    let at = SECOND;
    record_all(&mut collector, at, &["cached.tc", "cached.rules", "cached.nic", PROC_INTERRUPTS]);
    collector.caches.configuration.record(at, vec![probe("cached.configuration", at)]);
    let holds = |samples: &[ProviderSample], provider: &str| {
        samples.contains(&probe(provider, at))
    };
    let (tasks, background) = run(&mut collector, 2 * SECOND);
    assert!(tasks.contains(&Task::Tc));
    assert!(!holds(&background, "cached.tc"));
    for provider in ["cached.rules", "cached.nic", PROC_INTERRUPTS, "cached.configuration"] {
        assert!(holds(&background, provider), "{provider} was resampled");
    }
    collector.set_focus(CollectionFocus { hardirq: FOREGROUND, ..nothing() });
    let (tasks, focused) = run(&mut collector, 2 * SECOND);
    assert_eq!(tasks, [Task::Hardirq]);
    for provider in ["cached.tc", "cached.rules", "cached.nic", PROC_INTERRUPTS] {
        assert!(!holds(&focused, provider));
    }
    assert!(focused[0].finished_at() > at);
}

#[test]
fn further_link_sources_are_read_only_where_one_gave_nothing() {
    let mut collector =
        BuiltinCollector::new(CollectionFocus { links: FOREGROUND, ..nothing() }, false);
    let (tasks, _) = run(&mut collector, SECOND);
    assert_eq!(tasks, [Task::Links, Task::SysfsLinks, Task::ProcLinks]);
    let mut cycle = Cycle::start();
    assert_eq!(collector.next_task(&mut cycle, SECOND), Some(Task::Links));
    let mut fresh = probe(RTNETLINK_LINK, SECOND);
    fresh.health = ProviderHealth::Fresh;
    fresh.readings.push(SampleReading::observed(
        "linux.nic.statistic".to_owned(),
        MetricLabels::none(),
        MetricReading::Gauge(1),
    ));
    collector.finish_task(&mut cycle, SECOND, vec![fresh]);
    assert_eq!(collector.next_task(&mut cycle, SECOND), None);
    assert!(!collector.shares_metadata(SECOND));
    assert!(BuiltinCollector::new(overview(), true).shares_metadata(SECOND));
}

#[test]
fn advertises_unimplemented_source_families_as_unsupported() {
    let mut samples = Vec::new();
    add_unsupported_samples(&catalog(), &mut samples, SECOND);
    assert!(!samples.iter().any(|sample| sample.provider() == TC_NETLINK));
    let expected = "linux.ethtool.netlink";
    let sample = samples.iter().find(|sample| sample.provider() == expected).unwrap();
    assert!(matches!(
        &sample.health,
        ProviderHealth::Unsupported { reason } if reason.diagnostic() == NOT_IMPLEMENTED
    ));
    assert!(sample.readings.is_empty());
    assert_eq!(unsupported_providers(&catalog()), ["linux.audit", "linux.ethtool.netlink"]);
    assert!(is_implemented_provider(TC_JSON));
    assert!(!is_implemented_provider(expected));
}

#[test]
fn sanitizes_and_bounds_provider_diagnostics() {
    let error = monitor_error(MonitorErrorCode::Io, &format!("bad\n{}", "x".repeat(300)));
    assert!(error.diagnostic().is_ascii());
    assert!(!error.diagnostic().contains('\n'));
    assert_eq!(error.diagnostic().len(), MAX_DIAGNOSTIC_BYTES);
    assert!(monitor_error(MonitorErrorCode::Io, "a\u{e9}b").diagnostic().is_ascii());
    assert_eq!(monitor_error(MonitorErrorCode::Io, "").diagnostic(), NO_DIAGNOSTIC);
}

#[test]
fn failures_of_every_source_keep_their_class() {
    let words = || "words".to_owned();
    assert_eq!(AttemptError::internal(words()).code, MonitorErrorCode::Internal);
    assert_eq!(AttemptError::proc(None, words()).code, MonitorErrorCode::Parse);
    assert_eq!(
        AttemptError::proc(Some(IoErrorKind::NotFound), words()).code,
        MonitorErrorCode::NotFound
    );
    assert_eq!(
        AttemptError::irq(IrqErrorKind::Io(IoErrorKind::PermissionDenied), words()).code,
        MonitorErrorCode::PermissionDenied
    );
    assert_eq!(AttemptError::irq(IrqErrorKind::Parse, words()).code, MonitorErrorCode::Parse);
    assert_eq!(AttemptError::tc(TcErrorKind::Timeout, words()).code, MonitorErrorCode::Timeout);
    assert_eq!(
        AttemptError::netfilter(NetfilterErrorKind::OutputLimit, words()).code,
        MonitorErrorCode::OutputLimit
    );
    assert!(is_permission_message("Operation not permitted"));
    assert!(!is_permission_message("Operation not supported"));
}

fn virtual_interface(name: &str, ifindex: u32) -> NicInterface {
    NicInterface {
        interface: name.to_owned(),
        ifindex,
        hardware_backed: false,
        operstate: OperState::Up,
        sysfs: NicSysfsInfo {
            driver: None,
            rx_queue_count: None,
            tx_queue_count: None,
            tx_queue_len: None,
            mtu: None,
        },
        channels: Vec::new(),
        fallback_settings: Vec::new(),
        settings: EthtoolSettingsOutcome::NotHardwareInterface,
        ethtool: EthtoolOutcome::NotHardwareInterface,
    }
}

fn inventory(name: &str, index: u32) -> Vec<InventoryEntry<String>> {
    vec![InventoryEntry {
        name: name.to_owned(),
        identity: Identity { index, hardware: false, driver: None, directory: None, device: None },
    }]
}

fn batch(name: &str, index: u32, valid: bool) -> Batch {
    Batch {
        collection: NicCollection {
            interfaces: vec![virtual_interface(name, index)],
            errors: Vec::new(),
        },
        timing: CollectionTiming { finished_at: SECOND, collection_duration: 0 },
        inventory: inventory(name, index),
        valid,
    }
}

#[test]
fn recurring_batches_span_the_window_without_delaying_a_single_batch() {
    assert_eq!(offset(STAGGER, 0, 1), 0);
    assert_eq!(offset(STAGGER, 0, 7), 0);
    assert_eq!(offset(STAGGER, 3, 7), 2500 * MILLI);
    assert_eq!(offset(STAGGER, 6, 7), STAGGER);
    assert_eq!(offset(STAGGER, 1, 7), 833_333_333);
    assert_eq!(offset(STAGGER, 2, 7), 1_666_666_667);
    assert_eq!(batch_count(0), 0);
    assert_eq!(batch_count(BATCH_SIZE), 1);
    assert_eq!(batch_count(BATCH_SIZE + 1), 2);
}

#[test]
fn completed_batch_is_discarded_after_inventory_change() {
    let mut service = Service { running: true, pending: true, ..Service::new() };
    assert!(service.poll(Polled::Finished(batch("removed", 2, true))).unwrap().is_none());
    assert!(!service.pending);
    assert!(!service.current());
}

#[test]
fn a_batch_is_published_where_it_is_valid_and_of_the_current_interfaces() {
    let mut service = Service::new();
    service.observe_inventory(inventory("veth0", 1));
    assert_eq!(service.next_request_step(), RequestStep::Start);
    service.started();
    assert_eq!(service.next_request_step(), RequestStep::Send);
    service.requested();
    assert_eq!(service.next_request_step(), RequestStep::Wait);
    assert!(service.poll(Polled::Nothing).unwrap().is_none());
    assert!(service.poll(Polled::Finished(batch("veth0", 1, false))).unwrap().is_none());
    assert!(!service.current());
    service.requested();
    let published = service.poll(Polled::Finished(batch("veth0", 1, true))).unwrap().unwrap();
    assert_eq!(published.collection.interfaces.len(), 1);
    assert!(service.current());
    service.observe_inventory(inventory("veth0", 9));
    assert!(!service.current());
    service.requested();
    assert_eq!(service.poll(Polled::Disconnected).unwrap_err(), WORKER_STOPPED);
    assert_eq!(service.next_request_step(), RequestStep::Start);
    service.stop();
    assert!(!service.running);
}

#[test]
fn a_batch_counts_only_for_the_interfaces_it_was_made_for() {
    let collection = batch("veth0", 1, true).collection;
    let made = |found: Vec<InventoryEntry<String>>, spent: Nanos| {
        finish_batch(collection.clone(), inventory("veth0", 1), &found, SECOND, spent)
    };
    assert!(made(inventory("veth0", 1), 5).valid);
    assert!(!made(inventory("veth0", 2), 5).valid);
    assert_eq!(
        made(Vec::new(), 2 * SECOND).timing,
        CollectionTiming { finished_at: SECOND, collection_duration: SECOND }
    );
    assert_eq!(made(Vec::new(), 5).timing.collection_duration, 5);
}

#[test]
fn a_configuration_request_carries_no_statistics() {
    let mut collection = batch("veth0", 1, true).collection;
    collection.interfaces[0].ethtool =
        EthtoolOutcome::Failed(netlens::nic::EthtoolFailure::TimedOut);
    let request = without_statistics(collection);
    assert_eq!(request.interfaces[0].ethtool, EthtoolOutcome::NotHardwareInterface);
}

#[test]
fn settings_that_do_not_belong_to_the_interfaces_are_asked_for_at_once() {
    let settings = NicSettingsCache::new();
    let collection = batch("veth0", 1, true).collection;
    let plan = plan_settings(&settings, false, &collection, 10 * SECOND);
    assert!(!plan.current);
    assert_eq!(plan.request, Some(0));

    let mut kept = NicSettingsCache::new();
    let timing = CollectionTiming { finished_at: 10 * SECOND, collection_duration: 0 };
    kept.record(&catalog(), &collection, timing);
    let plan = plan_settings(&kept, true, &collection, 11 * SECOND);
    assert!(plan.current);
    assert_eq!(plan.request, None);
    let plan = plan_settings(&kept, true, &collection, 40 * SECOND);
    assert!(plan.current);
    assert_eq!(plan.request, Some(STAGGER));
}

#[test]
fn a_failed_configuration_worker_shows_in_the_settings() {
    let collection = batch("veth0", 1, true).collection;
    let timing = CollectionTiming { finished_at: SECOND, collection_duration: 0 };
    let samples = finish_nic_collection(
        &catalog(),
        &NicSettingsCache::new(),
        false,
        Some((SECOND, WORKER_STOPPED.to_owned())),
        &collection,
        timing,
        &mut NicReadingsCache::new(),
    );
    let shown =
        samples.iter().find(|sample| sample.provider() == ETHTOOL_LINK_TEXT).unwrap();
    assert!(matches!(
        &shown.health,
        ProviderHealth::Error { error } if error.diagnostic() == WORKER_STOPPED
    ));
}

#[test]
fn a_published_batch_replaces_the_settings_that_are_shown() {
    let mut settings = NicSettingsCache::new();
    let mut cache = CachedSamples::new();
    cache.record(SECOND, vec![probe(ETHTOOL_LINK_TEXT, SECOND), probe("other", SECOND)]);
    let finished = batch("veth0", 1, true);
    let timing = finished.timing;
    apply_nic_configuration(
        &catalog(),
        &mut settings,
        &mut cache,
        Ok(Some((finished.collection.clone(), timing))),
        2 * SECOND,
    );
    assert!(settings.matches_inventory(&finished.collection));
    assert!(cache.samples.contains(settings.sample.as_ref().unwrap()));
    assert!(cache.samples.contains(&probe("other", SECOND)));
    let before = cache.clone();
    apply_nic_configuration(&catalog(), &mut settings, &mut cache, Ok(None), 3 * SECOND);
    assert_eq!(cache, before);
    apply_nic_configuration(
        &catalog(),
        &mut settings,
        &mut cache,
        Err(WORKER_STOPPED.to_owned()),
        4 * SECOND,
    );
    assert!(cache.samples.iter().any(|sample| sample.provider() == ETHTOOL_LINK_TEXT
        && matches!(
            &sample.health,
            ProviderHealth::Error { error } if error.diagnostic() == WORKER_STOPPED
        )));
}

#[test]
fn tasks_read_the_providers_that_are_implemented() {
    assert_eq!(
        task_providers(Task::Rules),
        ["linux.nft.ruleset", "linux.iptables.ipv4", "linux.iptables.ipv6"]
    );
    assert_eq!(task_providers(Task::Tc), [TC_NETLINK, TC_JSON]);
    assert_eq!(task_providers(Task::Links), [RTNETLINK_LINK]);
    assert_eq!(task_providers(Task::NicConfiguration), [ETHTOOL_LINK_TEXT]);
    let tasks = [
        Task::Configuration,
        Task::Protocols,
        Task::Sockets,
        Task::Conntrack,
        Task::Rules,
        Task::Softnet,
        Task::Softirq,
        Task::Hardirq,
        Task::Tc,
        Task::Links,
        Task::SysfsLinks,
        Task::ProcLinks,
        Task::Nic,
    ];
    let read: Vec<_> = tasks.into_iter().flat_map(task_providers).collect();
    assert_eq!(read.len(), 22);
    assert!(read.iter().all(|provider| is_implemented_provider(provider)));
    let mut named = read.clone();
    named.sort();
    named.dedup();
    assert_eq!(named.len(), read.len());
}

#[test]
fn a_cycle_shows_each_provider_once_and_only_what_is_needed() {
    let everything = CollectionFocus {
        configuration: ON,
        protocols: ON,
        sockets: ON,
        conntrack: ON,
        rules: ON,
        softnet: ON,
        softirq: ON,
        hardirq: ON,
        tc: ON,
        links: ON,
        nic: ON,
        all: true,
    };
    let mut collector = BuiltinCollector::new(everything, true);
    let mut shown = |focus: CollectionFocus, now: Nanos| {
        collector.set_focus(focus);
        let mut cycle = Cycle::start();
        while let Some(task) = collector.next_task(&mut cycle, now) {
            let read = if task == Task::NicConfiguration {
                Vec::new()
            } else {
                task_providers(task).into_iter().map(|provider| probe(provider, now)).collect()
            };
            collector.finish_task(&mut cycle, now, read);
        }
        let samples = collector.finish_cycle(&catalog(), cycle, now);
        samples.iter().map(|sample| sample.provider().to_owned()).collect::<Vec<_>>()
    };
    for now in [SECOND, 2 * SECOND, 60 * SECOND] {
        let providers = shown(everything, now);
        assert!(providers.windows(2).all(|pair| pair[0] < pair[1]));
        assert_eq!(
            providers.iter().filter(|provider| is_implemented_provider(provider)).count(),
            22
        );
        assert_eq!(providers.len(), 22 + unsupported_providers(&catalog()).len());
    }
    assert_eq!(
        shown(CollectionFocus { tc: ON, hardirq: ON, ..nothing() }, 61 * SECOND),
        [PROC_INTERRUPTS, TC_NETLINK, TC_JSON]
    );
}
