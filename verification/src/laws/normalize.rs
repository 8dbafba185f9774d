//! What report evidence says of what was measured: which counters are reported, with which
//! values, of which subjects, and how sure they are.
use crate::evidence;
use crate::evidence::{
    Attribute, AttributeValue, AttributesModel, CounterStatus, Direction, EvidenceDescriptor, Layer,
    MeasurementBound, MetricModel, ProviderTelemetry, SubjectKind, SubjectModel, SubjectRef,
    SubjectRole,
};
use crate::normalize;
use crate::normalize::{
    BundleModel, Contracts, EvidenceScopeProvenance, MetricContract, NormalizeError, RawMetricDelta,
    RawObservation, ReportModel, ScopeValueProvenance, SocketContract, SocketDropDelta,
};
use crate::provider;
use crate::seqs;
use crate::text;
use crate::translate;
use crate::translate::{RawKeyModel, RawLabel};
use vstd::prelude::*;

verus! {

/// Whether a contract is about the counter that changed.
pub open spec fn is_about(contract: MetricContract, raw: RawMetricDelta) -> bool {
    &&& contract.source@ == raw.key.source@
    &&& contract.group@ == raw.key.group@
    &&& contract.metric@ == raw.key.metric@
}

/// Whether the contract at `c` is the first that is about the counter that changed.
pub open spec fn is_contract(contracts: Seq<MetricContract>, raw: RawMetricDelta, c: int) -> bool {
    &&& 0 <= c < contracts.len()
    &&& is_about(contracts[c], raw)
    &&& forall|d: int| 0 <= d < c ==> !is_about(#[trigger] contracts[d], raw)
}

/// Whether there is a contract about the counter that changed.
pub open spec fn has_contract(contracts: Seq<MetricContract>, raw: RawMetricDelta) -> bool {
    exists|c: int| 0 <= c < contracts.len() && is_about(#[trigger] contracts[c], raw)
}

/// The places, among the first `n` changes, of those that have a contract.
pub open spec fn reported(
    contracts: Seq<MetricContract>,
    raws: Seq<RawMetricDelta>,
    n: int,
) -> Seq<int>
    decreases n,
{
    if n <= 0 {
        Seq::empty()
    } else if has_contract(contracts, raws[n - 1]) {
        reported(contracts, raws, n - 1).push(n - 1)
    } else {
        reported(contracts, raws, n - 1)
    }
}

proof fn lemma_contract(contracts: Seq<MetricContract>, raw: RawMetricDelta)
    ensures
        match normalize::contract_of(contracts, raw.key.deep_view()) {
            Some(contract) => has_contract(contracts, raw) && exists|c: int|
                #[trigger] is_contract(contracts, raw, c) && contracts[c] == contract,
            None => !has_contract(contracts, raw),
        },
{
    let wanted = normalize::means(raw.key.deep_view());
    seqs::lemma_first_where(contracts, wanted, contracts.len() as int);
    assert forall|c: int| 0 <= c < contracts.len() implies wanted(#[trigger] contracts[c])
        == is_about(contracts[c], raw) by {}
    match seqs::first_where(contracts, wanted, contracts.len() as int) {
        Some(c) => {
            assert(is_contract(contracts, raw, c));
        },
        None => {},
    }
}

/// Whether a metric says what a counter's change says.
pub open spec fn says_change(metric: MetricModel, raw: RawMetricDelta) -> bool {
    &&& metric.values.start == raw.start
    &&& metric.values.end == raw.end
    &&& metric.values.delta == raw.delta
    &&& metric.values.reset == raw.reset
}

/// Whether a metric says what a socket's drops say.
pub open spec fn says_drops(metric: MetricModel, raw: SocketDropDelta) -> bool {
    &&& metric.values.start == Some(raw.start)
    &&& metric.values.end == Some(raw.end)
    &&& metric.values.delta == raw.delta
    &&& metric.values.reset == raw.reset
}

/// Whether a metric is described by the contract of its counter.
pub open spec fn is_described(
    metric: MetricModel,
    contracts: Seq<MetricContract>,
    raw: RawMetricDelta,
) -> bool {
    exists|c: int|
        {
            &&& #[trigger] is_contract(contracts, raw, c)
            &&& metric.metric_type == contracts[c].metric_type@
            &&& metric.meta.layer == Some(contracts[c].layer)
            &&& metric.meta.transition is None
            &&& metric.meta.execution_domain == Some(
                if contracts[c].layer == Layer::Nic {
                    "linux.hardware"@
                } else {
                    "linux.kernel"@
                },
            )
            &&& same_but_bound(metric.meta.descriptor, contracts[c].descriptor.deep_view())
            &&& raw.delta is Some ==> metric.meta.descriptor == contracts[c].descriptor.deep_view()
            &&& raw.delta is None ==> metric.meta.descriptor.measurement.bound is None
        }
}

/// Whether descriptors differ at most in how sure they are.
pub open spec fn same_but_bound(
    a: EvidenceDescriptor<Seq<char>>,
    b: EvidenceDescriptor<Seq<char>>,
) -> bool {
    &&& a.stage == b.stage
    &&& a.direction == b.direction
    &&& a.path_role == b.path_role
    &&& a.outcome == b.outcome
    &&& a.role == b.role
    &&& a.form == b.form
    &&& a.context == b.context
    &&& a.measurement.unit == b.measurement.unit
    &&& a.measurement.scope == b.measurement.scope
}

proof fn lemma_metrics(
    report: ReportModel,
    contracts: Seq<MetricContract>,
    raws: Seq<RawMetricDelta>,
    n: int,
)
    requires
        0 <= n <= raws.len(),
        report.metrics.len() == 0,
    ensures
        normalize::metrics_upto(report, contracts, raws, n) matches Ok(after) ==> {
            let places = reported(contracts, raws, n);
            &&& after.metrics.len() == places.len()
            &&& forall|k: int|
                0 <= k < places.len() ==> 0 <= #[trigger] places[k] < n && says_change(
                    after.metrics[k],
                    raws[places[k]],
                ) && is_described(after.metrics[k], contracts, raws[places[k]])
        },
    decreases n,
{
    if n > 0 {
        lemma_metrics(report, contracts, raws, n - 1);
        lemma_contract(contracts, raws[n - 1]);
        if let Ok(before) = normalize::metrics_upto(report, contracts, raws, n - 1) {
            if let Ok(after) = normalize::metrics_upto(report, contracts, raws, n) {
                let places = reported(contracts, raws, n);
                let earlier = reported(contracts, raws, n - 1);
                assert forall|k: int| 0 <= k < places.len() implies 0 <= #[trigger] places[k] < n
                    && says_change(after.metrics[k], raws[places[k]]) && is_described(
                    after.metrics[k],
                    contracts,
                    raws[places[k]],
                ) by {
                    if k < earlier.len() {
                        assert(places[k] == earlier[k]);
                        assert(after.metrics[k] == before.metrics[k]);
                    } else {
                        let c = choose|c: int|
                            #[trigger] is_contract(contracts, raws[n - 1], c) && contracts[c]
                                == normalize::contract_of(
                                contracts,
                                raws[n - 1].key.deep_view(),
                            )->0;
                        assert(is_contract(contracts, raws[n - 1], c));
                        assert(after.metrics[k] == after.metrics.last());
                    }
                }
            }
        }
    }
}

proof fn lemma_drops(
    report: ReportModel,
    contract: SocketContract,
    raws: Seq<SocketDropDelta>,
    n: int,
)
    requires
        0 <= n <= raws.len(),
    ensures
        ({
            let after = normalize::drops_upto(report, contract, raws, n);
            &&& after.metrics.len() == report.metrics.len() + n
            &&& forall|k: int|
                0 <= k < report.metrics.len() ==> #[trigger] after.metrics[k] == report.metrics[k]
            &&& forall|k: int|
                0 <= k < n ==> {
                    let metric = #[trigger] after.metrics[report.metrics.len() + k];
                    &&& says_drops(metric, raws[k])
                    &&& metric.metric_type == contract.metric_type@
                    &&& metric.meta.provider == "linux.sock_diag"@
                    &&& metric.meta.layer is None
                    &&& metric.meta.execution_domain == Some("linux.kernel"@)
                    &&& metric.attributes.len() == 0
                    &&& metric.meta.subjects.len() == 1 && metric.meta.subjects[0].role
                        == SubjectRole::Primary
                    &&& same_but_bound(metric.meta.descriptor, contract.descriptor.deep_view())
                    &&& raws[k].delta is None ==> metric.meta.descriptor.measurement.bound is None
                    &&& raws[k].delta is Some ==> metric.meta.descriptor
                        == contract.descriptor.deep_view()
                }
        }),
    decreases n,
{
    if n > 0 {
        lemma_drops(report, contract, raws, n - 1);
        let before = normalize::drops_upto(report, contract, raws, n - 1);
        let after = normalize::drops_upto(report, contract, raws, n);
        assert forall|k: int| 0 <= k < after.metrics.len() - 1 implies #[trigger] after.metrics[k]
            == before.metrics[k] by {}
    }
}

/// The metrics of a report are, in order, the changes of counters that have a contract, each
/// with the start, end, difference and reset that were measured and as its contract describes
/// it, and behind them the drops of sockets.
pub proof fn metrics_say_what_was_measured(
    nonce: Seq<char>,
    contracts: Contracts,
    changes: Seq<RawMetricDelta>,
    events: Seq<RawObservation>,
    drops: Seq<SocketDropDelta>,
)
    ensures
        normalize::normalized(nonce, contracts, changes, events, drops) matches Ok(bundle) ==> {
            let places = reported(contracts.metrics@, changes, changes.len() as int);
            &&& bundle.metrics.len() == places.len() + drops.len()
            &&& forall|k: int|
                0 <= k < places.len() ==> says_change(
                    #[trigger] bundle.metrics[k],
                    changes[places[k]],
                ) && is_described(bundle.metrics[k], contracts.metrics@, changes[places[k]])
            &&& forall|k: int|
                0 <= k < drops.len() ==> says_drops(
                    #[trigger] bundle.metrics[places.len() + k],
                    drops[k],
                )
        },
{
    let n = changes.len() as int;
    let start = normalize::empty_report(nonce);
    lemma_metrics(start, contracts.metrics@, changes, n);
    if let Ok(report) = normalize::metrics_upto(start, contracts.metrics@, changes, n) {
        let places = reported(contracts.metrics@, changes, n);
        lemma_drops(report, contracts.socket, drops, drops.len() as int);
        let after = normalize::drops_upto(
            report,
            contracts.socket,
            drops,
            drops.len() as int,
        );
        assert forall|k: int| 0 <= k < places.len() implies says_change(
            #[trigger] after.metrics[k],
            changes[places[k]],
        ) && is_described(after.metrics[k], contracts.metrics@, changes[places[k]]) by {
            assert(after.metrics[k] == report.metrics[k]);
            assert(0 <= places[k] < n);
        }
    }
}

/// A counter whose start and difference make its end is reported so.
pub proof fn reported_changes_add_up(
    nonce: Seq<char>,
    contracts: Contracts,
    changes: Seq<RawMetricDelta>,
    events: Seq<RawObservation>,
    drops: Seq<SocketDropDelta>,
    k: int,
)
    requires
        normalize::normalized(nonce, contracts, changes, events, drops) is Ok,
        0 <= k < reported(contracts.metrics@, changes, changes.len() as int).len(),
        ({
            let raw = changes[reported(contracts.metrics@, changes, changes.len() as int)[k]];
            !raw.reset && (raw.start matches Some(start) && raw.end matches Some(end)
                && raw.delta matches Some(delta) && start + delta == end)
        }),
    ensures
        ({
            let values = normalize::normalized(
                nonce,
                contracts,
                changes,
                events,
                drops,
            )->Ok_0.metrics[k].values;
            !values.reset && (values.start matches Some(start) && values.end matches Some(end)
                && values.delta matches Some(delta) && start + delta == end)
        }),
{
    metrics_say_what_was_measured(nonce, contracts, changes, events, drops);
    let bundle = normalize::normalized(nonce, contracts, changes, events, drops)->Ok_0;
    assert(says_change(
        bundle.metrics[k],
        changes[reported(contracts.metrics@, changes, changes.len() as int)[k]],
    ));
}

/// Drops of sockets are described by the contract of sockets, each of a socket of its own.
pub proof fn drops_are_of_sockets_of_their_own(
    report: ReportModel,
    contract: SocketContract,
    raw: SocketDropDelta,
)
    ensures
        ({
            let after = normalize::with_drop(report, contract, raw);
            let metric = after.metrics.last();
            let subject = after.subjects.last();
            &&& after.subjects.len() == report.subjects.len() + 1
            &&& subject.kind == SubjectKind::Socket && subject.provider == "linux.sock_diag"@
                && subject.attributes.len() == 0
            &&& metric.meta.subjects == seq![
                SubjectRef { role: SubjectRole::Primary, id: subject.id },
            ]
            &&& metric.meta.provider == "linux.sock_diag"@
            &&& metric.metric_type == contract.metric_type@
            &&& says_drops(metric, raw)
        }),
{
}

/// A counter is reported by the provider that reads its source, with what its labels say, and
/// about the interface that they name.
pub proof fn metrics_belong_to_who_reads_them(
    report: ReportModel,
    contracts: Seq<MetricContract>,
    raw: RawMetricDelta,
)
    requires
        has_contract(contracts, raw),
    ensures
        match normalize::with_metric(report, contracts, raw) {
            Ok(after) => {
                let metric = after.metrics.last();
                &&& after.metrics.len() == report.metrics.len() + 1
                &&& provider::first_provider(provider::has_metric_source(raw.key.source@)) matches
                    Some(owner) && metric.meta.provider == owner.name
                &&& normalize::attributes_upto(
                    raw.key.deep_view().labels,
                    raw.key.labels@.len() as int,
                ) == Ok::<AttributesModel, NormalizeError<Seq<char>>>(metric.attributes)
                &&& metric.meta.provider != "linux.link"@ ==> metric.meta.subjects.len() == 0
                    && after.subjects == report.subjects
            },
            Err(error) => error == NormalizeError::UnregisteredSource(raw.key.source@)
                || provider::first_provider(
                provider::has_metric_source(raw.key.source@),
            ) is Some,
        },
{
    lemma_contract(contracts, raw);
    assert(raw.key.deep_view().labels.len() == raw.key.labels@.len());
}

/// A change without a contract is left out.
pub proof fn changes_without_a_contract_are_left_out(
    report: ReportModel,
    contracts: Seq<MetricContract>,
    raw: RawMetricDelta,
)
    requires
        !has_contract(contracts, raw),
    ensures
        normalize::with_metric(report, contracts, raw) == Ok::<
            ReportModel,
            NormalizeError<Seq<char>>,
        >(report),
{
    lemma_contract(contracts, raw);
}

/// The sources of counters and who reads them.
pub proof fn sources_have_their_readers()
    ensures
        provider::first_provider(provider::has_metric_source("proc_net_snmp"@)) matches Some(p)
            && p.name == "linux.proc.protocol"@,
        provider::first_provider(provider::has_metric_source("proc_net_netstat"@)) matches Some(p)
            && p.name == "linux.proc.protocol"@,
        provider::first_provider(provider::has_metric_source("proc_softnet"@)) matches Some(p)
            && p.name == "linux.softnet"@,
        provider::first_provider(provider::has_metric_source("rtnetlink_link_stats"@)) matches Some(
            p,
        ) && p.name == "linux.link"@,
        provider::first_provider(provider::has_metric_source("sys_class_net"@)) matches Some(p)
            && p.name == "linux.link"@,
        provider::first_provider(provider::has_metric_source("proc_net_dev"@)) matches Some(p)
            && p.name == "linux.link"@,
        provider::first_provider(provider::has_metric_source("sock_diag_skmeminfo"@)) matches Some(
            p,
        ) && p.name == "linux.sock_diag"@,
{
    reveal_strlit("proc_net_snmp");
    reveal_strlit("proc_net_netstat");
    reveal_strlit("proc_softnet");
    reveal_strlit("rtnetlink_link_stats");
    reveal_strlit("sys_class_net");
    reveal_strlit("proc_net_dev");
    reveal_strlit("sock_diag_skmeminfo");
    assert("proc_net_snmp"@.len() == 13);
    assert("proc_net_netstat"@.len() == 16);
    assert("proc_softnet"@.len() == 12 && "proc_net_dev"@.len() == 12);
    assert("proc_softnet"@[5] == 's' && "proc_net_dev"@[5] == 'n');
    assert("rtnetlink_link_stats"@.len() == 20);
    assert("sys_class_net"@.len() == 13 && "sys_class_net"@[0] == 's');
    assert("proc_net_snmp"@[0] == 'p');
    assert("sock_diag_skmeminfo"@.len() == 19);
    lemma_reader(0, 0, "proc_net_snmp"@);
    lemma_reader(0, 1, "proc_net_netstat"@);
    lemma_reader(1, 0, "proc_softnet"@);
    lemma_reader(2, 0, "rtnetlink_link_stats"@);
    lemma_reader(2, 1, "sys_class_net"@);
    lemma_reader(2, 2, "proc_net_dev"@);
    lemma_reader(3, 0, "sock_diag_skmeminfo"@);
}

proof fn lemma_reader(p: int, s: int, source: Seq<char>)
    requires
        0 <= p < provider::registry().len(),
        0 <= s < provider::registry()[p].metric_sources.len(),
        provider::registry()[p].metric_sources[s] == source,
        forall|q: int, t: int|
            0 <= q < p && 0 <= t < provider::registry()[q].metric_sources.len()
                ==> #[trigger] provider::registry()[q].metric_sources[t] != source,
    ensures
        provider::first_provider(provider::has_metric_source(source)) == Some(
            provider::registry()[p],
        ),
{
    let all = provider::registry();
    let wanted = provider::has_metric_source(source);
    seqs::lemma_first_where(all, wanted, all.len() as int);
    assert(all[p].metric_sources.contains(source));
    assert(wanted(all[p]));
    let k = seqs::first_where(all, wanted, all.len() as int)->0;
    assert(wanted(all[k]));
    if k < p {
        let t = choose|t: int|
            0 <= t < all[k].metric_sources.len() && all[k].metric_sources[t] == source;
        assert(all[k].metric_sources[t] != source);
    }
}

/// Labels become attributes: the name of an interface as a text, the width of a counter and
/// the row of a processor as numbers. Processor and index are left out, and anything else is
/// refused.
pub proof fn labels_become_attributes(attributes: AttributesModel, value: Seq<char>)
    requires
        attributes.len() == 0,
    ensures
        ({
            let named = normalize::with_label(
                attributes,
                RawLabel { name: "interface"@, value },
            );
            let bits = normalize::with_label(
                attributes,
                RawLabel { name: "counter_bits"@, value },
            );
            let row = normalize::with_label(attributes, RawLabel { name: "cpu_row"@, value });
            &&& named == Ok::<AttributesModel, NormalizeError<Seq<char>>>(
                seq![
                    Attribute { name: "linux.interface.name"@, value: AttributeValue::Text(value) },
                ],
            )
            &&& normalize::with_label(attributes, RawLabel { name: "cpu"@, value }) == Ok::<
                AttributesModel,
                NormalizeError<Seq<char>>,
            >(attributes)
            &&& normalize::with_label(attributes, RawLabel { name: "ifindex"@, value }) == Ok::<
                AttributesModel,
                NormalizeError<Seq<char>>,
            >(attributes)
            &&& match text::parsed(value) {
                Some(number) if number <= 0xffff_ffff_ffff_ffff => {
                    &&& bits == Ok::<AttributesModel, NormalizeError<Seq<char>>>(
                        seq![
                            Attribute {
                                name: "linux.counter.bits"@,
                                value: AttributeValue::Unsigned(number as u64),
                            },
                        ],
                    )
                    &&& row == Ok::<AttributesModel, NormalizeError<Seq<char>>>(
                        seq![
                            Attribute {
                                name: "linux.cpu.row"@,
                                value: AttributeValue::Unsigned(number as u64),
                            },
                        ],
                    )
                },
                _ => {
                    &&& bits == Err::<AttributesModel, NormalizeError<Seq<char>>>(
                        NormalizeError::InvalidNumber { label: "counter_bits"@, value },
                    )
                    &&& row == Err::<AttributesModel, NormalizeError<Seq<char>>>(
                        NormalizeError::InvalidNumber { label: "cpu_row"@, value },
                    )
                },
            }
        }),
{
    reveal_strlit("interface");
    reveal_strlit("counter_bits");
    reveal_strlit("cpu_row");
    reveal_strlit("cpu");
    reveal_strlit("ifindex");
    assert("interface"@.len() == 9 && "counter_bits"@.len() == 12 && "cpu_row"@.len() == 7
        && "cpu"@.len() == 3 && "ifindex"@.len() == 7);
    assert("cpu_row"@[0] == 'c' && "ifindex"@[0] == 'i');
    assert(seqs::first_where(
        attributes,
        evidence::is_named("linux.interface.name"@),
        0,
    ) is None);
    let text_attribute = Attribute {
        name: "linux.interface.name"@,
        value: AttributeValue::<Seq<char>>::Text(value),
    };
    assert(attributes.push(text_attribute) =~= seq![text_attribute]);
    if let Some(number) = text::parsed(value) {
        let a = Attribute {
            name: "linux.counter.bits"@,
            value: AttributeValue::<Seq<char>>::Unsigned(number as u64),
        };
        let b = Attribute {
            name: "linux.cpu.row"@,
            value: AttributeValue::<Seq<char>>::Unsigned(number as u64),
        };
        assert(attributes.push(a) =~= seq![a]);
        assert(attributes.push(b) =~= seq![b]);
    }
}

/// A label that is not known is refused by its name, and an attribute that is there already
/// is refused too.
pub proof fn unknown_labels_are_refused(attributes: AttributesModel, label: RawLabel<Seq<char>>)
    requires
        label.name != "cpu"@,
        label.name != "ifindex"@,
        label.name != "interface"@,
        label.name != "counter_bits"@,
        label.name != "cpu_row"@,
    ensures
        normalize::with_label(attributes, label) == Err::<
            AttributesModel,
            NormalizeError<Seq<char>>,
        >(NormalizeError::UnregisteredLabel(label.name)),
{
}

/// Evidence about an interface refers to a subject that has the name and the index of the
/// interface, in the role of its direction. The same interface is the same subject.
pub proof fn links_refer_to_their_interface(
    report: ReportModel,
    key: RawKeyModel,
    direction: Option<Direction>,
    again: Option<Direction>,
)
    requires
        translate::raw_label(key.labels, "interface"@) is Some || translate::raw_label(
            key.labels,
            "ifindex"@,
        ) is Some,
    ensures
        normalize::with_subject(report, "linux.link"@, key, direction) matches Ok((after, refs))
            ==> {
            &&& refs.len() == 1
            &&& refs[0].role == match direction {
                Some(Direction::Ingress) => SubjectRole::Ingress,
                Some(Direction::Egress) => SubjectRole::Egress,
                None => SubjectRole::Primary,
            }
            &&& exists|i: int|
                0 <= i < after.subjects.len() && is_interface(#[trigger] after.subjects[i], key)
                    && after.subjects[i].id == refs[0].id
            &&& normalize::with_subject(after, "linux.link"@, key, again) matches Ok((same, more))
                && same == after && more.len() == 1 && more[0].id == refs[0].id
            &&& after.metrics == report.metrics && after.evidence == report.evidence
        },
{
    if let Ok((after, refs)) = normalize::with_subject(report, "linux.link"@, key, direction) {
        let name = translate::raw_label(key.labels, "interface"@);
        let ifindex = normalize::interface_index(key)->Ok_0;
        let attributes = normalize::interface_attributes(name, ifindex);
        let wanted = normalize::is_subject("linux.link"@, SubjectKind::Interface, attributes);
        let n = report.subjects.len() as int;
        seqs::lemma_first_where(report.subjects, wanted, n);
        lemma_interface_attributes(name, ifindex);
        match seqs::first_where(report.subjects, wanted, n) {
            Some(i) => {
                assert(is_interface(after.subjects[i], key));
            },
            None => {
                assert(wanted(after.subjects[n]));
                assert(is_interface(after.subjects[n], key));
                seqs::lemma_first_where(after.subjects, wanted, n + 1);
                assert forall|j: int| 0 <= j < n implies !wanted(#[trigger] after.subjects[j]) by {
                    assert(after.subjects[j] == report.subjects[j]);
                }
                assert(seqs::first_where(after.subjects, wanted, n + 1) == Some(n));
            },
        }
    }
}

/// Whether a subject is the interface that labels name.
pub open spec fn is_interface(subject: evidence::SubjectModel, key: RawKeyModel) -> bool {
    &&& subject.kind == SubjectKind::Interface
    &&& subject.provider == "linux.link"@
    &&& translate::raw_label(key.labels, "interface"@) matches Some(name) ==> evidence::attribute(
        subject.attributes,
        "linux.interface.name"@,
    ) == Some(AttributeValue::Text(name))
    &&& translate::raw_label(key.labels, "ifindex"@) matches Some(index) ==> (
    evidence::attribute(subject.attributes, "linux.interface.index"@) matches Some(
        AttributeValue::Unsigned(number),
    ) && text::parsed(index) == Some(number as nat))
}

proof fn lemma_interface_attributes(name: Option<Seq<char>>, ifindex: Option<u32>)
    ensures
        ({
            let attributes = normalize::interface_attributes(name, ifindex);
            &&& name matches Some(name) ==> evidence::attribute(
                attributes,
                "linux.interface.name"@,
            ) == Some(AttributeValue::Text(name))
            &&& ifindex matches Some(index) ==> evidence::attribute(
                attributes,
                "linux.interface.index"@,
            ) == Some(AttributeValue::<Seq<char>>::Unsigned(index as u64))
        }),
{
    reveal_strlit("linux.interface.name");
    reveal_strlit("linux.interface.index");
    reveal_with_fuel(seqs::first_where, 3);
    assert("linux.interface.name"@.len() == 20);
    assert("linux.interface.index"@.len() == 21);
    let attributes = normalize::interface_attributes(name, ifindex);
    assert(attributes.len() <= 2);
}

/// Events say when they happened, in which layer, as they are described, and why a packet was
/// freed, as far as that is known. They have numbers behind those of the metrics.
pub proof fn events_say_what_was_seen(
    nonce: Seq<char>,
    evidence: nat,
    raws: Seq<RawObservation>,
    n: int,
    i: int,
)
    requires
        0 <= i < n <= raws.len(),
    ensures
        normalize::observations_upto(nonce, evidence, raws, n) matches Ok(events) ==> {
            let event = events[i];
            let raw = raws[i];
            &&& events.len() == n
            &&& event.monotonic_ns == raw.monotonic_ns
            &&& event.meta.layer == raw.layer
            &&& event.meta.descriptor == raw.descriptor.deep_view()
            &&& event.meta.provider == "linux.kfree_skb"@
            &&& event.event_type == "linux.skb.free"@
            &&& event.meta.execution_domain == Some("linux.kernel"@)
            &&& event.meta.subjects.len() == 0
            &&& raw.reason matches Some(reason) ==> evidence::attribute(
                event.attributes,
                "linux.skb.reason_code"@,
            ) == Some(AttributeValue::<Seq<char>>::Unsigned(reason as u64))
            &&& raw.reason_name matches Some(name) ==> evidence::attribute(
                event.attributes,
                "linux.skb.reason_name"@,
            ) == Some(AttributeValue::Text(name@))
            &&& evidence::attribute(event.attributes, "linux.bpf.mode"@) == Some(
                AttributeValue::Text(raw.source_mode.word()),
            )
        },
    decreases n,
{
    if normalize::observations_upto(nonce, evidence, raws, n) is Ok {
        if n > 1 {
            if i < n - 1 {
                events_say_what_was_seen(nonce, evidence, raws, n - 1, i);
            } else {
                events_say_what_was_seen(nonce, evidence, raws, n - 1, 0);
            }
        } else {
            assert(normalize::observations_upto(nonce, evidence, raws, 0)->Ok_0.len() == 0);
        }
        if i == n - 1 {
            lemma_event_attributes(raws[i]);
        }
    }
}

proof fn lemma_event_attributes(raw: RawObservation)
    ensures
        ({
            let attributes = normalize::observation_attributes(raw);
            &&& raw.reason matches Some(reason) ==> evidence::attribute(
                attributes,
                "linux.skb.reason_code"@,
            ) == Some(AttributeValue::<Seq<char>>::Unsigned(reason as u64))
            &&& raw.reason_name matches Some(name) ==> evidence::attribute(
                attributes,
                "linux.skb.reason_name"@,
            ) == Some(AttributeValue::Text(name@))
            &&& evidence::attribute(attributes, "linux.bpf.mode"@) == Some(
                AttributeValue::Text(raw.source_mode.word()),
            )
        }),
{
    reveal_strlit("linux.skb.reason_code");
    reveal_strlit("linux.skb.reason_name");
    reveal_strlit("linux.bpf.mode");
    reveal_with_fuel(seqs::first_where, 4);
    assert("linux.skb.reason_code"@[17] == 'c' && "linux.skb.reason_name"@[17] == 'n');
    assert("linux.bpf.mode"@.len() == 14 && "linux.skb.reason_code"@.len() == 21
        && "linux.skb.reason_name"@.len() == 21);
    assert(normalize::observation_attributes(raw).len() <= 3);
}

/// A value that was only asked for is no observation, and a provenance that does not fit is
/// refused with its reason.
pub proof fn requested_values_are_refused(
    nonce: Seq<char>,
    evidence: nat,
    raws: Seq<RawObservation>,
    n: int,
)
    requires
        0 < n <= raws.len(),
        normalize::observations_upto(nonce, evidence, raws, n - 1) is Ok,
    ensures
        raws[n - 1].scope_provenance.has_requested() ==> normalize::observations_upto(
            nonce,
            evidence,
            raws,
            n,
        ) == Err::<Seq<evidence::ObservationModel>, NormalizeError<Seq<char>>>(
            NormalizeError::RequestedScope,
        ),
        !raws[n - 1].scope_provenance.has_requested() ==> (raws[n - 1].scope_fault matches Some(why)
            ==> normalize::observations_upto(nonce, evidence, raws, n) == Err::<
            Seq<evidence::ObservationModel>,
            NormalizeError<Seq<char>>,
        >(NormalizeError::InvalidScope(why@))),
        !raws[n - 1].scope_provenance.has_requested() && raws[n - 1].scope_fault is None
            ==> normalize::observations_upto(nonce, evidence, raws, n) is Ok,
{
}

/// Whether a source lost something or does not know whether it did.
pub open spec fn may_have_lost(p: ProviderTelemetry) -> bool {
    let c = p.counters;
    ||| c.bpf_events_seen is Unknown
    ||| c.transport_events_received is Unknown
    ||| !is_zero_or_missing(c.bpf_output_lost)
    ||| !is_zero_or_missing(c.transport_events_lost)
    ||| !is_zero_or_missing(c.user_events_dropped)
    ||| !is_zero_or_missing(c.netlink_loss_events)
    ||| !is_zero_or_missing(c.netlink_dump_interruptions)
    ||| !is_zero_or_missing(c.parse_errors)
}

/// Whether a counter says that nothing was lost, or does not apply.
pub open spec fn is_zero_or_missing(status: CounterStatus) -> bool {
    !(status is Unknown) && (status matches CounterStatus::Measured { value } ==> value == 0)
}

/// Evidence of a source that may have lost something is a lower bound, and nothing else of it
/// changes; evidence of the others stays as it was.
pub proof fn lossy_sources_give_lower_bounds(
    bundle: BundleModel,
    providers: Seq<ProviderTelemetry>,
    i: int,
)
    requires
        0 <= i < bundle.metrics.len(),
    ensures
        ({
            let before = bundle.metrics[i];
            let after = normalize::bounded(bundle, providers, providers.len() as int).metrics[i];
            let lossy = exists|p: int|
                0 <= p < providers.len() && (#[trigger] providers[p]).provider@
                    == before.meta.provider && may_have_lost(providers[p]);
            &&& after.values == before.values && after.metric_type == before.metric_type
                && after.attributes == before.attributes && after.meta.id == before.meta.id
                && after.meta.provider == before.meta.provider && after.meta.subjects
                == before.meta.subjects
            &&& same_but_bound(after.meta.descriptor, before.meta.descriptor)
            &&& !lossy ==> after == before
            &&& before.meta.descriptor.measurement.bound is None ==> after == before
            &&& lossy && before.meta.descriptor.measurement.bound is Some
                ==> after.meta.descriptor.measurement.bound == Some(MeasurementBound::LowerBound)
        }),
{
    lemma_lossy(providers, bundle.metrics[i].meta.provider);
}

/// The same holds of events.
pub proof fn lossy_sources_give_lower_bounds_of_events(
    bundle: BundleModel,
    providers: Seq<ProviderTelemetry>,
    i: int,
)
    requires
        0 <= i < bundle.observations.len(),
    ensures
        ({
            let before = bundle.observations[i];
            let after = normalize::bounded(
                bundle,
                providers,
                providers.len() as int,
            ).observations[i];
            let lossy = exists|p: int|
                0 <= p < providers.len() && (#[trigger] providers[p]).provider@
                    == before.meta.provider && may_have_lost(providers[p]);
            &&& after.event_type == before.event_type && after.monotonic_ns == before.monotonic_ns
                && after.attributes == before.attributes && after.meta.id == before.meta.id
            &&& same_but_bound(after.meta.descriptor, before.meta.descriptor)
            &&& !lossy ==> after == before
            &&& lossy && before.meta.descriptor.measurement.bound is Some
                ==> after.meta.descriptor.measurement.bound == Some(MeasurementBound::LowerBound)
        }),
{
    lemma_lossy(providers, bundle.observations[i].meta.provider);
}

proof fn lemma_lossy(providers: Seq<ProviderTelemetry>, provider: Seq<char>)
    ensures
        normalize::is_lossy(providers, provider, providers.len() as int) <==> exists|p: int|
            0 <= p < providers.len() && (#[trigger] providers[p]).provider@ == provider
                && may_have_lost(providers[p]),
{
    if normalize::is_lossy(providers, provider, providers.len() as int) {
        let p = choose|p: int|
            0 <= p < providers.len() && (#[trigger] providers[p]).provider@ == provider
                && normalize::lost_or_unknown(providers[p].counters);
        assert(may_have_lost(providers[p]));
    }
    if exists|p: int|
        0 <= p < providers.len() && (#[trigger] providers[p]).provider@ == provider
            && may_have_lost(providers[p]) {
        let p = choose|p: int|
            0 <= p < providers.len() && (#[trigger] providers[p]).provider@ == provider
                && may_have_lost(providers[p]);
        assert(normalize::lost_or_unknown(providers[p].counters));
    }
}

/// Identities begin with what they are of, then the report and then the number.
pub proof fn identities_say_what_they_are_of(nonce: Seq<char>, n: nat)
    ensures
        normalize::evidence_id(nonce, n) == "e_"@ + nonce + "_"@ + text::decimal(n),
        normalize::subject_id(nonce, n) == "s_"@ + nonce + "_"@ + text::decimal(n),
{
}

/// The name of a report is its bytes in hexadecimal digits, high half first.
pub proof fn nonces_are_hexadecimal(bytes: Seq<u8>, n: int, i: int)
    requires
        0 <= i < n <= bytes.len(),
    ensures
        normalize::hex_upto(bytes, n).len() == 2 * n,
        crate::addresses::figure(normalize::hex_upto(bytes, n)[2 * i], true) == Some(
            (bytes[i] / 16) as nat,
        ),
        crate::addresses::figure(normalize::hex_upto(bytes, n)[2 * i + 1], true) == Some(
            (bytes[i] % 16) as nat,
        ),
    decreases n,
{
    if n > 1 {
        if i < n - 1 {
            nonces_are_hexadecimal(bytes, n - 1, i);
        } else {
            nonces_are_hexadecimal(bytes, n - 1, 0);
        }
    } else {
        assert(normalize::hex_upto(bytes, 0).len() == 0);
    }
    if i == n - 1 {
        lemma_hex(bytes[i] as int / 16);
        lemma_hex(bytes[i] as int % 16);
    }
}

proof fn lemma_hex(d: int)
    requires
        0 <= d < 16,
    ensures
        crate::addresses::figure(normalize::hex_digit(d), true) == Some(d as nat),
{
}

/// Failures say what was wrong, and quote it.
pub proof fn failures_say_what_was_wrong(name: Seq<char>, value: Seq<char>, quoted: Seq<char>)
    ensures
        normalize::error_words(NormalizeError::UnregisteredSource(name), quoted)
            == "unregistered metric source "@ + quoted,
        normalize::error_words(NormalizeError::UnregisteredLabel(name), quoted)
            == "unregistered metric label "@ + quoted,
        normalize::error_words(NormalizeError::InvalidNumber { label: name, value }, quoted)
            == "invalid "@ + name + " label "@ + quoted,
        normalize::error_words(NormalizeError::DuplicateAttribute, quoted)
            == "duplicate normalized attribute"@,
        normalize::error_words(NormalizeError::InvalidEvidence(name), quoted)
            == "validate normalized report evidence: "@ + name,
        normalize::error_words(NormalizeError::InvalidScope(name), quoted)
            == "validate raw evidence scope provenance: "@ + name,
        normalize::quotation(NormalizeError::UnregisteredSource(name)) == name,
        normalize::quotation(NormalizeError::UnregisteredLabel(name)) == name,
        normalize::quotation(NormalizeError::InvalidNumber { label: name, value }) == value,
{
}

/// What a layer does runs in the kernel, but for the card, which runs in hardware.
pub proof fn layers_run_in_the_kernel_or_in_hardware(layer: Layer)
    ensures
        layer is Nic ==> normalize::domain_of(layer) == "linux.hardware"@,
        !(layer is Nic) ==> normalize::domain_of(layer) == "linux.kernel"@,
{
}

/// A scope has values that were asked for, and not read, if any of its values is such a one.
pub proof fn asked_for_values_are_noticed(scope: EvidenceScopeProvenance)
    ensures
        scope.has_requested() <==> {
            ||| scope.ingress_ifindex == Some(ScopeValueProvenance::Requested)
            ||| scope.egress_ifindex == Some(ScopeValueProvenance::Requested)
            ||| scope.queue_id == Some(ScopeValueProvenance::Requested)
            ||| scope.cpu == Some(ScopeValueProvenance::Requested)
            ||| scope.protocol == Some(ScopeValueProvenance::Requested)
        },
{
}

/// A contract is of a metric if it has its source, its group and its name; a subject is the
/// same if it has the same provider, kind and attributes.
pub proof fn contracts_and_subjects_are_told_apart(
    key: RawKeyModel,
    contract: MetricContract,
    subject: SubjectModel,
    other: SubjectModel,
)
    ensures
        normalize::means(key)(contract) <==> contract.source@ == key.source && contract.group@
            == key.group && contract.metric@ == key.metric,
        normalize::is_subject(subject.provider, subject.kind, subject.attributes)(other)
            <==> other.provider == subject.provider && other.kind == subject.kind
            && other.attributes == subject.attributes,
{
}

} // verus!
