use netlens::evidence::{
    Attribute, AttributeValue, Attributes, Availability, BoundedTotal, BpfMode, CollectionError,
    Confidence, CounterStatus, CoverageIntegrity, CoverageVisibility, Direction, Disposition,
    EvidenceContext, EvidenceDescriptor, EvidenceForm, EvidenceMeta, EvidenceRole, FilterSupport,
    Layer, Measurement, MeasurementBound, MeasurementUnit, MetricDelta, MetricValues, Observation,
    Outcome, PathRole, ProviderTelemetry, SamplingComponent, SamplingMethod, SamplingScope,
    SamplingTelemetry, Severity, Signal, Subject, SubjectKind, SubjectRef, SubjectRole, Telemetry,
    TelemetryCounters, TelemetryTotals, TopologyGap, TotalBound, TracepointLayout,
};
use netlens::normalize::{ATTR_SKB_REASON_CODE, ATTR_SKB_REASON_NAME};
use netlens::output::{
    allow_doctor_json, allow_report_json, doctor_table, report_table, trace_lines, trace_table,
    ATTR_HOP_ORDINAL,
};
use netlens::provider::ProviderFilterSupport;
use netlens::report::{
    CapabilityReport, EffectiveInterfaceScope, EffectiveNetworkNamespace, EffectiveScope, Finding,
    FlowFilter, InterfaceAnchor, InterfacePath, KfreeSkbCapability, LayerCoverage,
    ProviderCapability, ProviderScope, Report, ReportScope, RequestedScope, StageCoverage,
    TraceRecord,
};

fn attributes(entries: &[(&str, AttributeValue<String>)]) -> Attributes {
    let mut attributes = Attributes::none();
    for (name, value) in entries {
        assert!(attributes.insert(name, value.clone()));
    }
    attributes
}

fn no_context() -> EvidenceContext {
    EvidenceContext {
        ingress_ifindex: None,
        egress_ifindex: None,
        queue_id: None,
        cpu: None,
        protocol: None,
    }
}

fn descriptor(stage: &str, direction: Option<Direction>) -> EvidenceDescriptor<String> {
    EvidenceDescriptor {
        stage: Some(stage.to_owned()),
        direction,
        path_role: None,
        outcome: Outcome { disposition: None, signal: None },
        role: EvidenceRole::Causal,
        form: EvidenceForm::CounterDelta,
        measurement: Measurement { unit: MeasurementUnit::Packets, scope: None, bound: None },
        context: no_context(),
    }
}

fn record(sequence: u64) -> TraceRecord {
    TraceRecord {
        sequence,
        layer: Some(Layer::Tc),
        event_type: "skb.drop".to_owned(),
        descriptor: descriptor("linux.tc", Some(Direction::Ingress)),
        attributes: Attributes::none(),
    }
}

#[test]
fn traces_are_a_row_for_each_event() {
    let mut named = record(1);
    named.descriptor.outcome =
        Outcome { disposition: Some(Disposition::Dropped), signal: Some(Signal::Error) };
    named.attributes = attributes(&[
        (ATTR_SKB_REASON_NAME, AttributeValue::Text("NO_SOCKET".to_owned())),
        (ATTR_SKB_REASON_CODE, AttributeValue::Unsigned(3)),
    ]);
    let mut coded = record(20_000);
    coded.layer = None;
    coded.descriptor.stage = None;
    coded.descriptor.direction = Some(Direction::Egress);
    coded.descriptor.outcome = Outcome { disposition: None, signal: Some(Signal::Reset) };
    coded.attributes = attributes(&[(ATTR_SKB_REASON_CODE, AttributeValue::Unsigned(7))]);
    let mut bare = record(3);
    bare.descriptor.direction = None;
    let table = trace_table(&vec![named, coded, bare], &vec![Ok(()); 3]).unwrap();
    let lines: Vec<_> = table.lines().collect();
    assert_eq!(lines.len(), 5);
    assert_eq!(lines[0], "Events");
    let row = |cells: [&str; 7]| {
        format!(
            "  {:<4} {:<4} {:<24} {:<16} {:<24} {:<13} {}",
            cells[0], cells[1], cells[2], cells[3], cells[4], cells[5], cells[6]
        )
    };
    assert_eq!(lines[1], row(["SEQ", "DIR", "STAGE", "LAYER", "EVENT", "OUTCOME", "REASON"]));
    assert_eq!(
        lines[2],
        row(["1", "RX", "linux.tc", "tc", "skb.drop", Disposition::Dropped.as_str(), "NO_SOCKET"])
    );
    assert_eq!(
        lines[3],
        row([
            "20000",
            "TX",
            "unclassified",
            "unclassified",
            "skb.drop",
            Signal::Reset.as_str(),
            "raw:7"
        ])
    );
    assert_eq!(lines[4], row(["3", "--", "linux.tc", "tc", "skb.drop", "unknown", "-"]));
}

fn coverage(limitations: &[&str]) -> LayerCoverage {
    LayerCoverage {
        layer: Layer::Socket,
        availability: Availability::Available,
        visibility: CoverageVisibility::Partial,
        filter_support: FilterSupport::BroaderOnly,
        integrity: CoverageIntegrity::Intact,
        forms: vec![EvidenceForm::CounterDelta, EvidenceForm::Event],
        sources: Vec::new(),
        limitations: limitations.iter().map(|note| (*note).to_owned()).collect(),
    }
}

fn capabilities() -> CapabilityReport {
    CapabilityReport {
        kernel_release: None,
        has_kernel_btf: true,
        kfree_skb: KfreeSkbCapability {
            available: true,
            layout: Some(TracepointLayout::Legacy),
            has_drop_reason: false,
        },
        selected_bpf_mode: BpfMode::Unavailable,
        providers: vec![ProviderCapability {
            name: "linux.proc".to_owned(),
            state: Availability::Degraded,
            detail: "partly readable".to_owned(),
        }],
        coverage: vec![coverage(&["no drops"])],
        stage_coverage: Vec::new(),
    }
}

fn coverage_lines() -> String {
    format!(
        "\nCoverage\n  {:<16} {:<11} {:<11} {:<14} {:<13} {:<18} -\n  {:16}             note: no drops\n",
        Layer::Socket.as_str(),
        Availability::Available.as_str(),
        CoverageVisibility::Partial.as_str(),
        FilterSupport::BroaderOnly.as_str(),
        CoverageIntegrity::Intact.as_str(),
        format!("{},{}", EvidenceForm::CounterDelta.as_str(), EvidenceForm::Event.as_str()),
        "",
    )
}

#[test]
fn capabilities_show_the_system_the_providers_and_the_coverage() {
    let table = doctor_table(&capabilities(), Ok(())).unwrap();
    let expected = format!(
        "Kernel: unknown  BTF: yes\nkfree_skb: yes  layout: {}  reason: no  selected mode: {}\n\nProviders\n  {:28} {:11} partly readable\n{}\nProvider-stage coverage\n  No provider-stage coverage declared.\n",
        TracepointLayout::Legacy.as_str(),
        BpfMode::Unavailable.as_str(),
        "linux.proc",
        Availability::Degraded.as_str(),
        coverage_lines(),
    );
    assert_eq!(table, expected);
}

#[test]
fn stage_coverage_is_a_table_of_its_own() {
    let mut report = capabilities();
    report.stage_coverage.push(StageCoverage {
        provider: "linux.proc".to_owned(),
        stage: "linux.socket".to_owned(),
        layer: Layer::Socket,
        execution_domain: None,
        availability: Availability::Available,
        visibility: CoverageVisibility::Full,
        forms: Vec::new(),
        filter_support: FilterSupport::KernelExact,
        integrity: CoverageIntegrity::Unknown,
        limitations: vec!["host wide".to_owned()],
    });
    let table = doctor_table(&report, Ok(())).unwrap();
    let row = |cells: [&str; 9]| {
        format!(
            "  {:<32} {:<28} {:<16} {:<20} {:<11} {:<11} {:<18} {:<14} {}\n",
            cells[0],
            cells[1],
            cells[2],
            cells[3],
            cells[4],
            cells[5],
            cells[6],
            cells[7],
            cells[8]
        )
    };
    let expected = format!(
        "\nProvider-stage coverage\n{}{}  {:32} note: host wide\n",
        row([
            "PROVIDER",
            "STAGE",
            "LAYER",
            "DOMAIN",
            "STATE",
            "VISIBILITY",
            "FORMS",
            "FILTER",
            "INTEGRITY"
        ]),
        row([
            "linux.proc",
            "linux.socket",
            Layer::Socket.as_str(),
            "-",
            Availability::Available.as_str(),
            CoverageVisibility::Full.as_str(),
            "-",
            FilterSupport::KernelExact.as_str(),
            CoverageIntegrity::Unknown.as_str()
        ]),
        "",
    );
    assert!(table.ends_with(&expected), "{table}");
}

fn any_flow() -> FlowFilter {
    FlowFilter {
        protocol: None,
        source_address: None,
        source_port: None,
        destination_address: None,
        destination_port: None,
    }
}

fn support() -> ProviderFilterSupport {
    let exact = FilterSupport::KernelExact;
    ProviderFilterSupport {
        layers: exact,
        network_namespace: exact,
        interface_path: exact,
        direction: exact,
        protocol: exact,
        source_address: exact,
        destination_address: exact,
        source_port: exact,
        destination_port: FilterSupport::BroaderOnly,
    }
}

fn meta(id: &str, stage: &str, direction: Option<Direction>) -> EvidenceMeta {
    EvidenceMeta {
        id: id.to_owned(),
        provider: "linux.proc".to_owned(),
        layer: Some(Layer::Socket),
        execution_domain: None,
        transition: None,
        descriptor: descriptor(stage, direction),
        subjects: Vec::new(),
    }
}

fn metric(stage: &str, direction: Option<Direction>, values: MetricValues) -> MetricDelta {
    MetricDelta {
        meta: meta(stage, stage, direction),
        metric_type: "drops".to_owned(),
        values,
        attributes: Attributes::none(),
    }
}

fn delta(value: u64) -> MetricValues {
    MetricValues { start: Some(0), end: Some(value), delta: Some(value), reset: false }
}

fn total(value: u64) -> BoundedTotal {
    BoundedTotal { value, bound: TotalBound::Exact }
}

fn report() -> Report {
    Report {
        duration_ms: 1500,
        scope: ReportScope {
            requested: RequestedScope {
                layers: vec![Layer::Socket, Layer::Tc],
                network_namespace: None,
                interface_path: None,
                direction: None,
                flow: any_flow(),
            },
            providers: Vec::new(),
        },
        subjects: Vec::new(),
        metrics: Vec::new(),
        observations: Vec::new(),
        findings: Vec::new(),
        capabilities: capabilities(),
        telemetry: Telemetry {
            totals: TelemetryTotals {
                bpf_events_seen: total(1),
                bpf_output_lost: total(2),
                transport_events_received: total(3),
                transport_events_lost: total(4),
                user_events_dropped: total(5),
                netlink_loss_events: total(6),
                netlink_dump_interruptions: total(7),
                parse_errors: BoundedTotal { value: 8, bound: TotalBound::LowerBound },
            },
            sampling: SamplingTelemetry::Whole,
            providers: Vec::new(),
            collection_errors: Vec::new(),
        },
    }
}

#[test]
fn an_empty_report_says_so_in_every_section() {
    let expected = format!(
        "Window: 1500 ms  Interface anchor: all visible  Namespace: current (identity unknown)  Direction: any\nLayers: {},{}  Flow: protocol=any src=any:any dst=any:any\n\nProvider scopes\n\nRX evidence by layer\n  No stored layer-scoped evidence in this window.\n\nTX evidence by layer\n  No stored layer-scoped evidence in this window.\n\nUnresolved-direction evidence by layer\n  No stored layer-scoped evidence in this window.\n\nFindings\n  No anomaly counters increased in the covered sources.\n\nObservations: 0 stored\n{}\nProvider-stage coverage\n  No provider-stage coverage declared.\n\nTelemetry\n  bpf seen/output-lost: 1 (exact)/2 (exact)  transport received/lost: 3 (exact)/4 (exact)  user dropped: 5 (exact)  netlink loss events: 6 (exact)  interrupted dumps: 7 (exact)  parse errors: >=8 (lower_bound)  sampling: none\n",
        Layer::Socket.as_str(),
        Layer::Tc.as_str(),
        coverage_lines(),
    );
    assert_eq!(report_table(&report(), Ok(())).unwrap(), expected);
}

#[test]
fn scopes_show_what_was_asked_for_and_what_was_looked_at() {
    let mut report = report();
    let path = InterfacePath {
        anchor: InterfaceAnchor::Name { name: "eth0".to_owned() },
        visible_ifindices: vec![2, 7],
        topology_gaps: vec![TopologyGap::HiddenPeer],
    };
    report.scope.requested.interface_path = Some(path.clone());
    report.scope.requested.direction = Some(Direction::Egress);
    report.scope.requested.flow = FlowFilter {
        protocol: Some(6),
        source_address: Some("192.0.2.1".to_owned()),
        source_port: Some(80),
        ..any_flow()
    };
    report.scope.providers = vec![
        ProviderScope {
            provider: "linux.proc".to_owned(),
            effective: Some(EffectiveScope {
                layers: vec![Layer::Socket],
                network_namespace: EffectiveNetworkNamespace::Current {
                    identity: Some("4026531840".to_owned()),
                },
                interface_scope: EffectiveInterfaceScope::Path { path },
                direction: None,
                flow: any_flow(),
            }),
            filter_support: support(),
        },
        ProviderScope {
            provider: "linux.bpf".to_owned(),
            effective: None,
            filter_support: support(),
        },
    ];
    let table = report_table(&report, Ok(())).unwrap();
    let lines: Vec<_> = table.lines().collect();
    assert_eq!(
        lines[0],
        format!(
            "Window: 1500 ms  Interface anchor: name:eth0 closure=[2,7] gaps=[{}]  Namespace: current (identity unknown)  Direction: {}",
            TopologyGap::HiddenPeer.as_str(),
            Direction::Egress.as_str()
        )
    );
    assert!(lines[1].ends_with("  Flow: protocol=6 src=192.0.2.1:80 dst=any:any"));
    let exact = FilterSupport::KernelExact.as_str();
    let supported = format!(
        "layers={exact} namespace={exact} interface={exact} direction={exact} protocol={exact} src_addr={exact} dst_addr={exact} src_port={exact} dst_port={}",
        FilterSupport::BroaderOnly.as_str()
    );
    assert_eq!(
        lines[4],
        format!(
            "  linux.proc  effective: layers={} namespace=current:4026531840 interface=path:[2,7] direction=any flow=protocol=any src=any:any dst=any:any  support: {supported}",
            Layer::Socket.as_str()
        )
    );
    assert_eq!(lines[5], format!("  linux.bpf  effective: unavailable  support: {supported}"));
}

fn section(table: &str, title: &str) -> Vec<String> {
    table
        .lines()
        .skip_while(|line| *line != title)
        .skip(1)
        .take_while(|line| !line.is_empty())
        .map(|line| line.to_owned())
        .collect()
}

fn words(line: &str) -> Vec<&str> {
    line.split_whitespace().collect()
}

#[test]
fn evidence_is_sorted_by_layer_and_stage_and_leaves_out_what_did_not_change() {
    let rx = Some(Direction::Ingress);
    let mut report = report();
    let mut bounded = metric("b.stage", rx, delta(5));
    bounded.meta.descriptor.measurement.bound = Some(MeasurementBound::LowerBound);
    bounded.meta.descriptor.context =
        EvidenceContext { ingress_ifindex: Some(2), cpu: Some(1), ..no_context() };
    let reset = MetricValues { start: Some(9), end: Some(1), delta: None, reset: true };
    let unknown = MetricValues { start: None, end: None, delta: None, reset: false };
    report.metrics = vec![
        metric("c.stage", rx, delta(3)),
        bounded,
        metric("a.stage", rx, delta(0)),
        metric("d.stage", None, reset),
        metric("e.stage", None, unknown),
    ];
    let table = report_table(&report, Ok(())).unwrap();
    let rows = section(&table, "RX evidence by layer");
    assert_eq!(
        words(&rows[0]),
        ["LAYER", "STAGE", "PATH", "ROLE", "DOMAIN", "EVIDENCE", "VALUE", "UNIT", "FORM", "ROLE"]
    );
    assert_eq!(rows.len(), 3);
    assert_eq!(
        words(&rows[1])[1..7],
        ["b.stage", "-", "-", "drops", "[ifindex=2,cpu=1]", ">=5"]
    );
    assert_eq!(words(&rows[2])[1..6], ["c.stage", "-", "-", "drops", "+3"]);
    let rows = section(&table, "Unresolved-direction evidence by layer");
    assert_eq!(words(&rows[1])[5], "reset");
    assert_eq!(words(&rows[2])[5], "unknown");
    assert!(!table.contains("a.stage"));
}

fn event(id: &str, reason: Option<&str>) -> Observation {
    let mut meta = meta(id, "linux.path", Some(Direction::Egress));
    meta.descriptor.form = EvidenceForm::Event;
    Observation {
        meta,
        event_type: "skb.drop".to_owned(),
        monotonic_ns: 1,
        attributes: match reason {
            Some(reason) => {
                attributes(&[(ATTR_SKB_REASON_NAME, AttributeValue::Text(reason.to_owned()))])
            }
            None => Attributes::none(),
        },
    }
}

#[test]
fn events_of_one_kind_are_counted_in_one_row() {
    let mut report = report();
    report.observations =
        vec![event("1", Some("A")), event("2", None), event("3", Some("A")), event("4", Some("B"))];
    let table = report_table(&report, Ok(())).unwrap();
    let rows = section(&table, "TX evidence by layer");
    assert_eq!(rows.len(), 4);
    assert!(rows[1].contains("skb.drop ") && rows[1].contains("1 event "));
    assert!(rows[2].contains("skb.drop reason=A") && rows[2].contains("2 events"));
    assert!(rows[3].contains("skb.drop reason=B") && rows[3].contains("1 event "));
    assert!(table.contains("\nObservations: 4 stored\n"));
}

fn hop(id: &str, ordinal: u64) -> Subject {
    Subject {
        id: id.to_owned(),
        provider: "linux.path".to_owned(),
        kind: SubjectKind::Hop,
        attributes: Attributes {
            entries: vec![Attribute {
                name: ATTR_HOP_ORDINAL.to_owned(),
                value: AttributeValue::Unsigned(ordinal),
            }],
        },
    }
}

#[test]
fn path_evidence_follows_the_hops() {
    let step = |id: &str, subject: &str, role: Option<PathRole>| {
        let mut step = metric(id, Some(Direction::Ingress), delta(1));
        step.meta.transition = Some(format!("{id}.step"));
        step.meta.descriptor.path_role = role;
        step.meta.subjects =
            vec![SubjectRef { role: SubjectRole::Ingress, id: subject.to_owned() }];
        step
    };
    let mut report = report();
    report.subjects = vec![hop("hop.b", 1), hop("hop.a", 2)];
    report.metrics = vec![
        step("late", "hop.a", Some(PathRole::Local)),
        step("early", "hop.b", Some(PathRole::Local)),
        step("unplaced", "hop.b", None),
        step("lost", "hop.none", Some(PathRole::Local)),
    ];
    let table = report_table(&report, Ok(())).unwrap();
    let rows = section(&table, "RX path evidence");
    let transitions: Vec<_> = rows[1..]
        .iter()
        .map(|row| words(row).into_iter().find(|word| word.ends_with(".step")).unwrap().to_owned())
        .collect();
    assert_eq!(transitions, ["early.step", "late.step", "lost.step", "unplaced.step"]);
    assert!(rows[1].contains("@hop.b"));
    assert!(section(&table, "RX evidence by layer")[0].starts_with("  No stored"));
}

#[test]
fn findings_and_telemetry_keep_their_bounds() {
    let mut report = report();
    let mut evidence = descriptor("linux.tc", None);
    evidence.measurement.bound = Some(MeasurementBound::Estimate);
    report.findings.push(Finding {
        severity: Severity::Warning,
        layer: None,
        confidence: Confidence::High,
        count: 12,
        descriptor: evidence,
        title: "Drops".to_owned(),
        summary: "Packets were dropped.".to_owned(),
    });
    let unknown = CounterStatus::Unknown;
    report.telemetry.providers.push(ProviderTelemetry {
        provider: "linux.bpf".to_owned(),
        counters: TelemetryCounters {
            bpf_events_seen: CounterStatus::Measured { value: 4 },
            bpf_output_lost: CounterStatus::NotApplicable,
            transport_events_received: unknown,
            transport_events_lost: unknown,
            user_events_dropped: unknown,
            netlink_loss_events: unknown,
            netlink_dump_interruptions: unknown,
            parse_errors: unknown,
        },
        sampling: SamplingTelemetry::Mixed {
            components: vec![
                SamplingComponent::Whole { scope: SamplingScope::Kernel },
                SamplingComponent::Sampled {
                    method: SamplingMethod::Random,
                    scope: SamplingScope::Userspace,
                    effective_numerator: 1,
                    effective_denominator: 10,
                },
            ],
        },
    });
    report.telemetry.collection_errors.push(CollectionError {
        provider: "linux.bpf".to_owned(),
        message: "ring lost".to_owned(),
    });
    let table = report_table(&report, Ok(())).unwrap();
    let rows = section(&table, "Findings");
    assert_eq!(
        rows,
        [
            format!(
                "  [{:7}] {:12} {:10} ~12 (estimate)  Drops",
                Severity::Warning.as_str(),
                "unclassified",
                Confidence::High.as_str()
            ),
            "            Packets were dropped.".to_owned(),
        ]
    );
    let rows = section(&table, "Telemetry");
    assert_eq!(rows[1], "  provider linux.bpf");
    assert_eq!(
        rows[2],
        "    bpf seen/output-lost: 4/n/a  transport received/lost: unknown/unknown  user dropped: unknown"
    );
    assert_eq!(
        rows[3],
        format!(
            "    netlink loss/dumps: unknown/unknown  parse errors: unknown  sampling: mixed [none over {}, 1/10 via {} over {}]",
            SamplingScope::Kernel.as_str(),
            SamplingMethod::Random.as_str(),
            SamplingScope::Userspace.as_str()
        )
    );
    assert_eq!(rows[4], "  collector linux.bpf: ring lost");
}

#[test]
fn events_that_differ_only_in_their_provider_come_in_provider_order() {
    let of = |id: &str, provider: &str| {
        let mut event = event(id, None);
        event.meta.provider = provider.to_owned();
        event
    };
    let values = |observations: Vec<Observation>| {
        let mut report = report();
        report.observations = observations;
        let table = report_table(&report, Ok(())).unwrap();
        let rows = section(&table, "TX evidence by layer");
        rows[1..].iter().map(|row| row.contains("2 events")).collect::<Vec<_>>()
    };
    let late = of("1", "linux.z");
    let early = of("2", "linux.a");
    let again = of("3", "linux.z");
    assert_eq!(values(vec![late.clone(), early.clone(), again.clone()]), [false, true]);
    assert_eq!(values(vec![early, late, again]), [false, true]);
}

/// The rows of events for every order of three of them, in which the last is seen twice.
fn rows_whatever_the_order(first: Observation, second: Observation, twice: Observation) {
    let rows = |observations: Vec<&Observation>| {
        let mut report = report();
        report.observations = observations.into_iter().cloned().collect();
        let table = report_table(&report, Ok(())).unwrap();
        let rows = section(&table, "TX evidence by layer");
        assert_eq!(rows.len(), 4);
        rows[1..].iter().map(|row| row.contains("2 events")).collect::<Vec<_>>()
    };
    let (a, b, c) = (&first, &second, &twice);
    for observations in [
        vec![a, b, c, c],
        vec![c, b, a, c],
        vec![b, c, c, a],
        vec![c, a, c, b],
        vec![b, a, c, c],
        vec![c, c, a, b],
    ] {
        assert_eq!(rows(observations), [false, false, true]);
    }
}

#[test]
fn events_that_differ_only_in_their_subjects_come_in_subject_order() {
    let about = |id: &str, subjects: &[(&str, SubjectRole)]| {
        let mut event = event(id, None);
        event.meta.subjects = subjects
            .iter()
            .map(|(id, role)| SubjectRef { id: (*id).to_owned(), role: *role })
            .collect();
        event
    };
    let role = SubjectRole::Primary;
    rows_whatever_the_order(
        about("1", &[]),
        about("2", &[("b", role), ("a", role)]),
        about("3", &[("b", role)]),
    );
    let mut report = report();
    report.observations =
        vec![about("1", &[("b", role), ("a", role)]), about("2", &[("a", role), ("b", role)])];
    let table = report_table(&report, Ok(())).unwrap();
    let rows = section(&table, "TX evidence by layer");
    assert_eq!(rows.len(), 2);
    assert!(rows[1].contains("2 events"));
}

#[test]
fn events_that_differ_only_in_their_descriptor_come_in_descriptor_order() {
    let with = |id: &str, disposition: Option<Disposition>, signal: Option<Signal>| {
        let mut event = event(id, None);
        event.meta.descriptor.outcome = Outcome { disposition, signal };
        event
    };
    let dropped = Some(Disposition::Dropped);
    rows_whatever_the_order(
        with("1", None, Some(Signal::Timeout)),
        with("2", dropped, None),
        with("3", dropped, Some(Signal::Timeout)),
    );
}

#[test]
fn what_is_not_valid_is_refused() {
    let fault = || Err("bad scope".to_owned());
    assert_eq!(
        report_table(&report(), fault()),
        Err("validate report before table output: bad scope".to_owned())
    );
    assert_eq!(
        doctor_table(&capabilities(), fault()),
        Err("validate capability report before table output: bad scope".to_owned())
    );
    assert_eq!(allow_report_json(Ok(())), Ok(()));
    assert_eq!(
        allow_report_json(fault()),
        Err("validate report before JSON output: bad scope".to_owned())
    );
    assert_eq!(allow_doctor_json(Ok(())), Ok(()));
    assert_eq!(
        allow_doctor_json(fault()),
        Err("validate capability report before JSON output: bad scope".to_owned())
    );
}

#[test]
fn a_trace_with_a_record_that_is_not_valid_has_no_table() {
    let records = vec![record(1), record(2), record(3)];
    let fault = |words: &str| Err(words.to_owned());
    assert_eq!(
        trace_table(&records, &vec![Ok(()), Ok(()), fault("last")]),
        Err("validate trace record before table output: last".to_owned())
    );
    assert_eq!(
        trace_table(&records, &vec![Ok(()), fault("second"), fault("last")]),
        Err("validate trace record before table output: second".to_owned())
    );
    assert_eq!(trace_lines(&vec![Ok(()); 3]), (3, Ok(())));
    assert_eq!(
        trace_lines(&vec![Ok(()), fault("second"), fault("last")]),
        (1, fault("validate trace record before JSONL output: second"))
    );
    assert_eq!(
        trace_lines(&vec![fault("first")]),
        (0, fault("validate trace record before JSONL output: first"))
    );
}
