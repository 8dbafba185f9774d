use netlens::evidence::{
    AttributeValue, BpfMode, CounterStatus, Direction, EvidenceContext, EvidenceDescriptor,
    EvidenceForm, EvidenceRole, Layer, Measurement, MeasurementBound, MeasurementScope,
    MeasurementUnit, Outcome, PathRole, ProviderTelemetry, SamplingTelemetry, Signal,
    SubjectKind, SubjectRole, Telemetry, TelemetryCounters, TelemetryTotals, BoundedTotal,
    TotalBound,
};
use netlens::normalize::{
    accept_evidence, apply_telemetry_bounds, normalize, normalize_with_socket_drops, Contracts,
    EvidenceBundle, EvidenceScopeProvenance, MetricContract, NormalizeError, RawMetricDelta,
    RawObservation, ReportIdAllocator, ScopeValueProvenance, SocketContract, SocketDropDelta,
    ATTR_BPF_MODE, ATTR_COUNTER_BITS, ATTR_INTERFACE_NAME, DOMAIN_HARDWARE, DOMAIN_KERNEL,
};
use netlens::provider::{PROVIDER_LINK, PROVIDER_PROC_PROTOCOL, PROVIDER_SOCK_DIAG};
use netlens::translate::{MetricKey, RawLabel};

const SOCK_DIAG_DROPS: &str = "linux.sock_diag.drops";

fn no_outcome() -> Outcome {
    Outcome { disposition: None, signal: None }
}

fn no_context() -> EvidenceContext {
    EvidenceContext {
        ingress_ifindex: None,
        egress_ifindex: None,
        queue_id: None,
        cpu: None,
        protocol: None,
    }
}

fn descriptor(role: EvidenceRole, unit: MeasurementUnit) -> EvidenceDescriptor<String> {
    EvidenceDescriptor {
        stage: None,
        direction: None,
        path_role: None,
        outcome: no_outcome(),
        role,
        form: EvidenceForm::CounterDelta,
        measurement: Measurement { unit, scope: None, bound: Some(MeasurementBound::Exact) },
        context: no_context(),
    }
}

fn contract(source: &str, group: &str, metric: &str, layer: Layer) -> MetricContract {
    let mut descriptor = descriptor(EvidenceRole::Symptom, MeasurementUnit::Packets);
    descriptor.direction = Some(Direction::Ingress);
    descriptor.path_role = Some(PathRole::Local);
    descriptor.outcome.signal = Some(Signal::Pressure);
    MetricContract {
        source: source.to_owned(),
        group: group.to_owned(),
        metric: metric.to_owned(),
        metric_type: format!("linux.{group}.{metric}"),
        layer,
        descriptor,
    }
}

fn contracts() -> Contracts {
    let mut socket = descriptor(EvidenceRole::Context, MeasurementUnit::SourceUnits);
    socket.measurement.scope = Some(MeasurementScope::Socket);
    socket.measurement.bound = Some(MeasurementBound::LowerBound);
    Contracts {
        metrics: vec![
            contract("proc_softnet", "softnet", "dropped", Layer::Netdevice),
            contract("rtnetlink_link_stats", "link", "rx_dropped", Layer::Nic),
            contract("proc_net_snmp", "Udp", "RcvbufErrors", Layer::Socket),
        ],
        socket: SocketContract { metric_type: SOCK_DIAG_DROPS.to_owned(), descriptor: socket },
    }
}

fn key(source: &str, group: &str, metric: &str, labels: &[(&str, &str)]) -> MetricKey {
    let mut key = MetricKey::new(source, group, metric);
    for (name, value) in labels {
        key.labels.push(RawLabel { name: (*name).to_owned(), value: (*value).to_owned() });
    }
    key
}

fn grown(key: MetricKey, start: u64, end: u64) -> RawMetricDelta {
    RawMetricDelta {
        key,
        start: Some(start),
        end: Some(end),
        delta: Some(end - start),
        reset: false,
    }
}

fn normal(raw: Vec<RawMetricDelta>) -> Result<EvidenceBundle, NormalizeError<String>> {
    normalize(&vec![0xab, 0x01], &contracts(), &raw, &Vec::new())
}

fn with_drops(
    raw: Vec<RawMetricDelta>,
    drops: Vec<SocketDropDelta>,
) -> Result<EvidenceBundle, NormalizeError<String>> {
    normalize_with_socket_drops(&vec![7], &contracts(), &raw, &Vec::new(), &drops)
}

fn skb_free(protocol: Option<u8>) -> RawObservation {
    let mut descriptor = descriptor(EvidenceRole::Symptom, MeasurementUnit::Events);
    descriptor.form = EvidenceForm::Event;
    descriptor.context.protocol = protocol;
    RawObservation {
        monotonic_ns: 1,
        reason: None,
        reason_name: None,
        layer: None,
        scope_provenance: EvidenceScopeProvenance::observed(&descriptor.context),
        scope_fault: None,
        descriptor,
        source_mode: BpfMode::LegacyPerf,
    }
}

#[test]
fn report_ids_use_distinct_random_nonces() {
    let mut first = ReportIdAllocator::new(&vec![0x00, 0x5f]);
    let mut second = ReportIdAllocator::new(&vec![0xff, 0x5f]);

    assert_ne!(first.next_evidence(), second.next_evidence());
    assert_ne!(first.next_subject(), first.next_evidence());
    assert_eq!(second.next_subject(), "s_ff5f_1");
    assert_eq!(second.next_evidence(), "e_ff5f_2");
}

#[test]
fn raw_collector_labels_do_not_escape_the_attribute_registry() {
    let raw = grown(
        key("proc_softnet", "softnet", "dropped", &[("kernel_pointer", "0xffff000000000000")]),
        1,
        2,
    );

    let error = normal(vec![raw]).unwrap_err();
    assert_eq!(error.message(), "unregistered metric label \"kernel_pointer\"");
}

#[test]
fn unknown_metrics_remain_internal() {
    let raw = grown(key("proc_net_snmp", "Ip", "DefaultTTL", &[]), 64, 64);

    let bundle = normal(vec![raw]).unwrap();
    assert!(bundle.metrics.is_empty());
}

#[test]
fn interface_subject_ids_do_not_encode_ifindex() {
    let raw = grown(
        key(
            "rtnetlink_link_stats",
            "link",
            "rx_dropped",
            &[("counter_bits", "64"), ("ifindex", "7"), ("interface", "eth0")],
        ),
        1,
        2,
    );

    let bundle = normal(vec![raw]).unwrap();
    assert_eq!(bundle.subjects.len(), 1);
    assert!(!bundle.subjects[0].id.contains("eth0"));
    assert!(!bundle.subjects[0].id.contains("_7_"));
    assert_eq!(bundle.subjects[0].id, "s_ab01_1");
    let metric = &bundle.metrics[0];
    assert_eq!(metric.meta.provider, PROVIDER_LINK);
    assert_eq!(metric.meta.execution_domain.as_deref(), Some(DOMAIN_HARDWARE));
    assert_eq!(metric.attributes.number(ATTR_COUNTER_BITS), Some(64));
    assert_eq!(metric.attributes.text(ATTR_INTERFACE_NAME).map(String::as_str), Some("eth0"));
}

#[test]
fn per_socket_deltas_get_distinct_opaque_subjects_without_findings() {
    let bundle = with_drops(
        Vec::new(),
        vec![
            SocketDropDelta { start: 2, end: 5, delta: Some(3), reset: false },
            SocketDropDelta { start: 10, end: 17, delta: Some(7), reset: false },
        ],
    )
    .unwrap();

    assert_eq!(bundle.subjects.len(), 2);
    assert_eq!(bundle.metrics.len(), 2);
    assert_ne!(bundle.subjects[0].id, bundle.subjects[1].id);
    assert!(bundle.subjects.iter().all(|subject| {
        subject.provider == PROVIDER_SOCK_DIAG
            && subject.kind == SubjectKind::Socket
            && subject.attributes.entries.is_empty()
    }));
    assert!(bundle.metrics.iter().all(|metric| {
        metric.meta.provider == PROVIDER_SOCK_DIAG
            && metric.metric_type == SOCK_DIAG_DROPS
            && metric.meta.layer.is_none()
            && metric.meta.descriptor.stage.is_none()
            && metric.meta.descriptor.direction.is_none()
            && metric.meta.descriptor.path_role.is_none()
            && metric.meta.descriptor.outcome == no_outcome()
            && metric.meta.descriptor.role == EvidenceRole::Context
            && metric.meta.descriptor.measurement.unit == MeasurementUnit::SourceUnits
            && metric.meta.descriptor.measurement.scope == Some(MeasurementScope::Socket)
            && metric.meta.descriptor.measurement.bound == Some(MeasurementBound::LowerBound)
            && metric.meta.subjects.len() == 1
            && metric.meta.subjects[0].role == SubjectRole::Primary
    }));

    let rendered = format!("{:?} {:?}", bundle.subjects, bundle.metrics);
    for private_name in ["cookie", "inode", "pointer", "source_port", "destination_port"] {
        assert!(!rendered.contains(private_name));
    }
}

#[test]
fn per_socket_reset_keeps_endpoints_without_a_delta_bound_or_finding() {
    let bundle = with_drops(
        Vec::new(),
        vec![SocketDropDelta { start: 17, end: 3, delta: None, reset: true }],
    )
    .unwrap();

    assert_eq!(bundle.subjects.len(), 1);
    assert_eq!(bundle.metrics.len(), 1);
    let metric = &bundle.metrics[0];
    assert_eq!(metric.values.start, Some(17));
    assert_eq!(metric.values.end, Some(3));
    assert_eq!(metric.values.delta, None);
    assert!(metric.values.reset);
    assert_eq!(metric.meta.descriptor.measurement.bound, None);
    assert_eq!(metric.meta.descriptor.measurement.unit, MeasurementUnit::SourceUnits);
}

#[test]
fn socket_delta_and_proc_aggregate_coexist_without_summing() {
    let proc = grown(key("proc_net_snmp", "Udp", "RcvbufErrors", &[]), 20, 30);
    let bundle = with_drops(
        vec![proc],
        vec![SocketDropDelta { start: 4, end: 7, delta: Some(3), reset: false }],
    )
    .unwrap();

    assert_eq!(bundle.metrics.len(), 2);
    let counts: Vec<Option<u64>> =
        bundle.metrics.iter().map(|metric| metric.values.delta).collect();
    assert_eq!(counts, vec![Some(10), Some(3)]);
    assert!(!counts.contains(&Some(13)));
    assert_eq!(bundle.metrics[0].meta.provider, PROVIDER_PROC_PROTOCOL);
    assert_eq!(bundle.metrics[0].meta.execution_domain.as_deref(), Some(DOMAIN_KERNEL));
}

#[test]
fn bpf_mode_is_preserved_as_a_typed_observation_attribute() {
    let raw = skb_free(None);

    let bundle = normalize(&vec![1], &contracts(), &Vec::new(), &vec![raw]).unwrap();
    assert!(matches!(
        bundle.observations[0].attributes.get(ATTR_BPF_MODE),
        Some(AttributeValue::Text(mode)) if mode == "legacy_perf"
    ));
}

#[test]
fn requested_scope_values_cannot_enter_observation_context() {
    let mut raw = skb_free(Some(17));
    raw.scope_provenance.protocol = Some(ScopeValueProvenance::Requested);

    let error = normalize(&vec![1], &contracts(), &Vec::new(), &vec![raw]).unwrap_err();

    assert!(error.message().contains("requested scope"));
}

#[test]
fn evidence_that_is_not_valid_is_refused() {
    let mut raw = skb_free(Some(17));
    raw.scope_fault = Some("protocol without provenance".to_owned());
    let error = normalize(&vec![1], &contracts(), &Vec::new(), &vec![raw]).unwrap_err();
    assert_eq!(
        error.message(),
        "validate raw evidence scope provenance: protocol without provenance"
    );

    let bundle = normal(Vec::new()).unwrap();
    assert_eq!(accept_evidence(bundle.clone(), Ok(())), Ok(bundle.clone()));
    let error = accept_evidence(bundle, Err("two pieces share an id".to_owned())).unwrap_err();
    assert_eq!(
        error.message(),
        "validate normalized report evidence: two pieces share an id"
    );
}

#[test]
fn errors_quote_what_was_given() {
    let label = NormalizeError::UnregisteredLabel("a\"b\n".to_owned());
    assert_eq!(label.message(), r#"unregistered metric label "a\"b\n""#);
    assert_eq!(label.describe("<a>"), "unregistered metric label <a>");
    let number = NormalizeError::InvalidNumber {
        label: "ifindex".to_owned(),
        value: String::new(),
    };
    assert_eq!(number.message(), r#"invalid ifindex label """#);
}

#[test]
fn every_fault_of_raw_metrics_is_named() {
    let faults = [
        (
            grown(key("elsewhere", "Udp", "RcvbufErrors", &[]), 1, 2),
            "unregistered metric source \"elsewhere\"",
        ),
        (
            grown(key("proc_softnet", "softnet", "dropped", &[("cpu_row", "x")]), 1, 2),
            "invalid cpu_row label \"x\"",
        ),
        (
            grown(
                key(
                    "proc_softnet",
                    "softnet",
                    "dropped",
                    &[("cpu_row", "1"), ("cpu_row", "2")],
                ),
                1,
                2,
            ),
            "duplicate normalized attribute",
        ),
    ];
    let mut known = contracts();
    known.metrics.push(contract("elsewhere", "Udp", "RcvbufErrors", Layer::Socket));
    for (raw, message) in faults {
        let error = normalize(&vec![1], &known, &vec![raw], &Vec::new()).unwrap_err();
        assert_eq!(error.message(), message);
    }
}

fn total() -> BoundedTotal {
    BoundedTotal { value: 0, bound: TotalBound::Exact }
}

fn telemetry(provider: &str, lost: CounterStatus) -> Telemetry {
    let none = CounterStatus::NotApplicable;
    Telemetry {
        totals: TelemetryTotals {
            bpf_events_seen: total(),
            bpf_output_lost: total(),
            transport_events_received: total(),
            transport_events_lost: total(),
            user_events_dropped: total(),
            netlink_loss_events: total(),
            netlink_dump_interruptions: total(),
            parse_errors: total(),
        },
        sampling: SamplingTelemetry::Whole,
        providers: vec![ProviderTelemetry {
            provider: provider.to_owned(),
            counters: TelemetryCounters {
                bpf_events_seen: none,
                bpf_output_lost: none,
                transport_events_received: none,
                transport_events_lost: none,
                user_events_dropped: none,
                netlink_loss_events: none,
                netlink_dump_interruptions: none,
                parse_errors: lost,
            },
            sampling: SamplingTelemetry::Whole,
        }],
        collection_errors: Vec::new(),
    }
}

#[test]
fn bounds_of_lossy_providers_are_lowered_and_others_stay() {
    let raw = || grown(key("proc_net_snmp", "Udp", "RcvbufErrors", &[]), 20, 30);
    for (provider, lost, bound) in [
        (PROVIDER_PROC_PROTOCOL, CounterStatus::Measured { value: 1 }, MeasurementBound::LowerBound),
        (PROVIDER_PROC_PROTOCOL, CounterStatus::Unknown, MeasurementBound::LowerBound),
        (PROVIDER_PROC_PROTOCOL, CounterStatus::Measured { value: 0 }, MeasurementBound::Exact),
        (PROVIDER_LINK, CounterStatus::Unknown, MeasurementBound::Exact),
    ] {
        let mut bundle = normal(vec![raw()]).unwrap();
        apply_telemetry_bounds(&mut bundle, &telemetry(provider, lost));
        assert_eq!(bundle.metrics[0].meta.descriptor.measurement.bound, Some(bound));
        let once = bundle.clone();
        apply_telemetry_bounds(&mut bundle, &telemetry(provider, lost));
        assert_eq!(bundle, once);
    }
}
