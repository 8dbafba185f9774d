//! What the counters of the system become: readings of metrics, with the value that was read.
use crate::catalog;
use crate::catalog::CatalogModel;
use crate::diagnostics;
use crate::diagnostics::AttemptError;
use crate::model;
use crate::model::{
    CounterBits, KeyModel, LabelsModel, MetricKind, MetricLabel, MetricReading,
    MonitorValidationError, Nanos, ProviderHealth, ReadingModel, ReadingOutcome, UnavailableReason,
};
use crate::seqs;
use crate::text;
use crate::translate;
use crate::translate::{
    AffinityRecord, HardirqCollection, LinkModel, RawKeyModel, RawLabel, RawSampleModel,
    ReadingForm,
};
use vstd::prelude::*;

verus! {

/// Every source of counters has its provider, and no other source has one.
pub proof fn counters_have_their_providers(source: Seq<char>)
    ensures
        source == "proc_net_snmp"@ <==> translate::provider_for(source) == Some(
            "linux.proc.net.snmp"@,
        ),
        source == "proc_net_netstat"@ <==> translate::provider_for(source) == Some(
            "linux.proc.net.netstat"@,
        ),
        source == "proc_net_snmp6"@ <==> translate::provider_for(source) == Some(
            "linux.proc.net.snmp6"@,
        ),
        source == "proc_sockstat"@ <==> translate::provider_for(source) == Some(
            "linux.proc.net.sockstat"@,
        ),
        source == "proc_sockstat6"@ <==> translate::provider_for(source) == Some(
            "linux.proc.net.sockstat6"@,
        ),
        source == "proc_conntrack"@ <==> translate::provider_for(source) == Some(
            "linux.proc.netfilter.conntrack"@,
        ),
        source == "proc_softnet"@ <==> translate::provider_for(source) == Some(
            "linux.proc.net.softnet_stat"@,
        ),
        source == "proc_sys_net_core"@ <==> translate::provider_for(source) == Some(
            "linux.proc.sys.net.core"@,
        ),
        source == "proc_sys_net_ipv4"@ <==> translate::provider_for(source) == Some(
            "linux.proc.sys.net.ipv4"@,
        ),
        source == "proc_softirqs"@ <==> translate::provider_for(source) == Some(
            "linux.proc.softirqs"@,
        ),
        source == "proc_interrupts"@ <==> translate::provider_for(source) == Some(
            "linux.proc.interrupts"@,
        ),
        source == "rtnetlink_link_stats"@ <==> translate::provider_for(source) == Some(
            "linux.rtnetlink.link_stats"@,
        ),
        source == "sys_class_net"@ <==> translate::provider_for(source) == Some(
            "linux.sysfs.net.statistics"@,
        ),
        source == "proc_net_dev"@ <==> translate::provider_for(source) == Some(
            "linux.proc.net.dev"@,
        ),
{
    reveal_strlit("proc_net_snmp");
    reveal_strlit("proc_net_netstat");
    reveal_strlit("proc_net_snmp6");
    reveal_strlit("proc_sockstat");
    reveal_strlit("proc_sockstat6");
    reveal_strlit("proc_conntrack");
    reveal_strlit("proc_softnet");
    reveal_strlit("proc_sys_net_core");
    reveal_strlit("proc_sys_net_ipv4");
    reveal_strlit("proc_softirqs");
    reveal_strlit("proc_interrupts");
    reveal_strlit("rtnetlink_link_stats");
    reveal_strlit("sys_class_net");
    reveal_strlit("proc_net_dev");
    assert("proc_net_snmp"@.len() == 13 && "proc_net_snmp"@[0] == 'p'
        && "proc_net_snmp"@[5] == 'n');
    assert("proc_sockstat"@.len() == 13 && "proc_sockstat"@[0] == 'p'
        && "proc_sockstat"@[5] == 's' && "proc_sockstat"@[7] == 'c');
    assert("proc_softirqs"@.len() == 13 && "proc_softirqs"@[0] == 'p'
        && "proc_softirqs"@[5] == 's' && "proc_softirqs"@[7] == 'f');
    assert("sys_class_net"@.len() == 13 && "sys_class_net"@[0] == 's');
    assert("proc_net_netstat"@.len() == 16);
    assert("proc_net_snmp6"@.len() == 14 && "proc_net_snmp6"@[5] == 'n');
    assert("proc_sockstat6"@.len() == 14 && "proc_sockstat6"@[5] == 's');
    assert("proc_conntrack"@.len() == 14 && "proc_conntrack"@[5] == 'c');
    assert("proc_softnet"@.len() == 12 && "proc_softnet"@[5] == 's');
    assert("proc_net_dev"@.len() == 12 && "proc_net_dev"@[5] == 'n');
    assert("proc_sys_net_core"@.len() == 17 && "proc_sys_net_core"@[13] == 'c');
    assert("proc_sys_net_ipv4"@.len() == 17 && "proc_sys_net_ipv4"@[13] == 'i');
    assert("proc_interrupts"@.len() == 15);
    assert("rtnetlink_link_stats"@.len() == 20);
    reveal_strlit("linux.proc.net.snmp");
    reveal_strlit("linux.proc.net.netstat");
    reveal_strlit("linux.proc.net.snmp6");
    reveal_strlit("linux.proc.net.sockstat");
    reveal_strlit("linux.proc.net.sockstat6");
    reveal_strlit("linux.proc.netfilter.conntrack");
    reveal_strlit("linux.proc.net.softnet_stat");
    reveal_strlit("linux.proc.sys.net.core");
    reveal_strlit("linux.proc.sys.net.ipv4");
    reveal_strlit("linux.proc.softirqs");
    reveal_strlit("linux.proc.interrupts");
    reveal_strlit("linux.rtnetlink.link_stats");
    reveal_strlit("linux.sysfs.net.statistics");
    reveal_strlit("linux.proc.net.dev");
    assert("linux.proc.net.snmp"@.len() == 19 && "linux.proc.net.snmp"@[11] == 'n');
    assert("linux.proc.softirqs"@.len() == 19 && "linux.proc.softirqs"@[11] == 's');
    assert("linux.proc.net.netstat"@.len() == 22);
    assert("linux.proc.net.snmp6"@.len() == 20);
    assert("linux.proc.net.sockstat"@.len() == 23 && "linux.proc.net.sockstat"@[11] == 'n');
    assert("linux.proc.sys.net.core"@.len() == 23 && "linux.proc.sys.net.core"@[11] == 's'
        && "linux.proc.sys.net.core"@[19] == 'c');
    assert("linux.proc.sys.net.ipv4"@.len() == 23 && "linux.proc.sys.net.ipv4"@[11] == 's'
        && "linux.proc.sys.net.ipv4"@[19] == 'i');
    assert("linux.proc.net.sockstat6"@.len() == 24);
    assert("linux.proc.netfilter.conntrack"@.len() == 30);
    assert("linux.proc.net.softnet_stat"@.len() == 27);
    assert("linux.proc.interrupts"@.len() == 21);
    assert("linux.rtnetlink.link_stats"@.len() == 26 && "linux.rtnetlink.link_stats"@[6] == 'r');
    assert("linux.sysfs.net.statistics"@.len() == 26 && "linux.sysfs.net.statistics"@[6] == 's');
    assert("linux.proc.net.dev"@.len() == 18);
}

/// The counters of a link go by the names that the kernel gives them.
pub proof fn link_counters_have_their_names()
    ensures
        translate::link_counter(0) == "rx_packets"@,
        translate::link_counter(1) == "tx_packets"@,
        translate::link_counter(2) == "rx_bytes"@,
        translate::link_counter(3) == "tx_bytes"@,
        translate::link_counter(4) == "rx_errors"@,
        translate::link_counter(5) == "tx_errors"@,
        translate::link_counter(6) == "rx_dropped"@,
        translate::link_counter(7) == "tx_dropped"@,
        translate::link_counter(8) == "multicast"@,
        translate::link_counter(9) == "collisions"@,
        translate::link_counter(10) == "rx_length_errors"@,
        translate::link_counter(11) == "rx_over_errors"@,
        translate::link_counter(12) == "rx_crc_errors"@,
        translate::link_counter(13) == "rx_frame_errors"@,
        translate::link_counter(14) == "rx_fifo_errors"@,
        translate::link_counter(15) == "rx_missed_errors"@,
        translate::link_counter(16) == "tx_aborted_errors"@,
        translate::link_counter(17) == "tx_carrier_errors"@,
        translate::link_counter(18) == "tx_fifo_errors"@,
        translate::link_counter(19) == "tx_heartbeat_errors"@,
        translate::link_counter(20) == "tx_window_errors"@,
        translate::link_counter(21) == "rx_compressed"@,
        translate::link_counter(22) == "tx_compressed"@,
        translate::link_counter(23) == "rx_nohandler"@,
        translate::link_counter(24) == "rx_otherhost_dropped"@,
{
}

/// Some counters go by the name of their group too, the others by their own name.
pub proof fn counters_go_by_their_names(provider: Seq<char>, key: RawKeyModel)
    ensures
        ({
            let name = translate::raw_name(provider, key);
            let grouped = provider == "linux.proc.net.snmp"@ || provider
                == "linux.proc.net.netstat"@ || provider == "linux.proc.net.sockstat"@ || provider
                == "linux.proc.net.sockstat6"@;
            &&& !grouped ==> name == key.metric
            &&& grouped ==> {
                &&& name.len() == key.group.len() + 1 + key.metric.len()
                &&& name.take(key.group.len() as int) == key.group
                &&& name[key.group.len() as int] == '.'
                &&& name.skip(key.group.len() as int + 1) == key.metric
            }
        }),
{
    reveal_strlit(".");
    let name = translate::raw_name(provider, key);
    if translate::names_groups(provider) {
        assert(name.take(key.group.len() as int) =~= key.group);
        assert(name.skip(key.group.len() as int + 1) =~= key.metric);
    }
}

/// A raw label is the first of its name.
pub proof fn raw_labels_are_found_by_name(labels: Seq<RawLabel<Seq<char>>>, name: Seq<char>, i: int)
    requires
        0 <= i < labels.len(),
        labels[i].name == name,
        forall|j: int| 0 <= j < i ==> (#[trigger] labels[j]).name != name,
    ensures
        translate::raw_label(labels, name) == Some(labels[i].value),
{
    seqs::lemma_first_where(labels, translate::named(name), labels.len() as int);
    assert(translate::named(name)(labels[i]));
    if let Some(j) = seqs::first_where(labels, translate::named(name), labels.len() as int) {
        if j < i {
            assert(labels[j].name != name);
        }
    }
}

/// A counter says how wide it is, or nothing is known of that.
pub proof fn counters_say_how_wide_they_are(key: RawKeyModel)
    ensures
        ({
            let claimed = translate::raw_label(key.labels, "counter_bits"@);
            &&& translate::claimed_bits(key) == Some(CounterBits::Bits32) <==> claimed == Some(
                "32"@,
            )
            &&& translate::claimed_bits(key) == Some(CounterBits::Bits64) <==> claimed == Some(
                "64"@,
            )
        }),
{
    reveal_strlit("32");
    reveal_strlit("64");
    assert("32"@[0] != "64"@[0]);
}

/// A counter becomes a reading exactly if its provider delivers it and it is of a metric that
/// counts or measures; the reading is of that metric and of its kind.
pub proof fn counters_become_readings_of_their_metric(
    catalog: CatalogModel,
    provider: Seq<char>,
    key: RawKeyModel,
)
    ensures
        ({
            let found = catalog::metric_for_source(
                catalog,
                provider,
                translate::raw_name(provider, key),
            );
            let stable = provider == "linux.proc.net.softnet_stat"@ ==> key.group
                == "softnet_cpu"@ && translate::raw_label(key.labels, "cpu"@) is Some;
            let delivered = translate::provider_for(key.source) == Some(provider) && stable && found
                is Some;
            let result = translate::template_of(catalog, provider, key);
            &&& result is Err ==> delivered
            &&& result matches Ok(None) ==> !delivered || catalog[found->0].kind
                == MetricKind::State
            &&& result matches Ok(Some((identity, form))) ==> {
                &&& delivered
                &&& identity.metric == catalog[found->0].id
                &&& form is Counter <==> catalog[found->0].kind == MetricKind::Counter
                &&& form is Gauge <==> catalog[found->0].kind == MetricKind::Gauge
                &&& !(catalog[found->0].kind == MetricKind::State)
                &&& translate::labels_from(catalog[found->0].allowed_labels, key.labels)
                    matches Ok(labels) && labels == identity.labels
            }
        }),
{
}

/// Whether a label has the value that was read under a name, if the metric has that label.
pub open spec fn carries(
    labels: LabelsModel,
    allowed: Seq<MetricLabel>,
    raw: Seq<RawLabel<Seq<char>>>,
    name: Seq<char>,
    label: MetricLabel,
) -> bool {
    model::label_value(labels, label) == if allowed.contains(label) {
        translate::raw_label(raw, name)
    } else {
        None
    }
}

proof fn lemma_added(labels: LabelsModel, label: MetricLabel, value: Seq<char>, other: MetricLabel)
    requires
        forall|i: int| 0 <= i < labels.len() ==> (#[trigger] labels[i]).label.rank() < label.rank(),
    ensures
        model::with_label(labels, label, value) == labels.push(model::Label { label, value }),
        model::label_value(model::with_label(labels, label, value), other) == if other == label {
            Some(value)
        } else {
            model::label_value(labels, other)
        },
        forall|i: int|
            0 <= i < model::with_label(labels, label, value).len() ==> (
            #[trigger] model::with_label(labels, label, value)[i]).label.rank() <= label.rank(),
{
    let all = labels.push(model::Label { label, value });
    assert(labels.insert(labels.len() as int, model::Label { label, value }) =~= all);
    assert(all.drop_last() =~= labels);
}

proof fn lemma_taken(
    labels: LabelsModel,
    allowed: Seq<MetricLabel>,
    raw: Seq<RawLabel<Seq<char>>>,
    name: Seq<char>,
    label: MetricLabel,
)
    requires
        forall|i: int| 0 <= i < labels.len() ==> (#[trigger] labels[i]).label.rank() < label.rank(),
    ensures
        translate::with_raw_label(Ok(labels), allowed, raw, name, label) matches Ok(all) ==> {
            &&& carries(all, allowed, raw, name, label)
            &&& forall|other: MetricLabel|
                other != label ==> #[trigger] model::label_value(all, other)
                    == model::label_value(labels, other)
            &&& forall|i: int|
                0 <= i < all.len() ==> (#[trigger] all[i]).label.rank() <= label.rank()
        },
        translate::with_raw_label(Ok(labels), allowed, raw, name, label) is Err
            <==> allowed.contains(label) && (translate::raw_label(raw, name) matches Some(value)
            && !model::valid_value(value)),
{
    model::lemma_label_value_absent(labels, label);
    if let Ok(all) = translate::with_raw_label(Ok(labels), allowed, raw, name, label) {
        assert forall|other: MetricLabel| other != label implies #[trigger] model::label_value(
            all,
            other,
        ) == model::label_value(labels, other) by {
            if allowed.contains(label) {
                if let Some(value) = translate::raw_label(raw, name) {
                    lemma_added(labels, label, value, other);
                }
            }
        }
        if allowed.contains(label) {
            if let Some(value) = translate::raw_label(raw, name) {
                lemma_added(labels, label, value, label);
            }
        }
    }
}

/// A reading has the labels that its metric allows, with the values that were read: the
/// interface, its index, the processor and the kind of interrupt.
pub proof fn readings_carry_what_was_read(allowed: Seq<MetricLabel>, raw: Seq<RawLabel<Seq<char>>>)
    ensures
        translate::labels_from(allowed, raw) matches Ok(labels) ==> {
            &&& carries(labels, allowed, raw, "interface"@, MetricLabel::Interface)
            &&& carries(labels, allowed, raw, "ifindex"@, MetricLabel::Ifindex)
            &&& carries(labels, allowed, raw, "cpu"@, MetricLabel::Cpu)
            &&& carries(labels, allowed, raw, "interrupt_class"@, MetricLabel::InterruptClass)
        },
        translate::labels_from(allowed, raw) matches Err(error) ==> error
            == MonitorValidationError::InvalidLabelValue,
{
    let none = LabelsModel::empty();
    let a = translate::with_raw_label(Ok(none), allowed, raw, "interface"@, MetricLabel::Interface);
    lemma_taken(none, allowed, raw, "interface"@, MetricLabel::Interface);
    if let Ok(first) = a {
        let b = translate::with_raw_label(a, allowed, raw, "ifindex"@, MetricLabel::Ifindex);
        lemma_taken(first, allowed, raw, "ifindex"@, MetricLabel::Ifindex);
        if let Ok(second) = b {
            let c = translate::with_raw_label(b, allowed, raw, "cpu"@, MetricLabel::Cpu);
            lemma_taken(second, allowed, raw, "cpu"@, MetricLabel::Cpu);
            if let Ok(third) = c {
                lemma_taken(third, allowed, raw, "interrupt_class"@, MetricLabel::InterruptClass);
            }
        }
    }
}

/// Whether a reading has the value of a counter, as its metric shows it.
pub open spec fn shows(reading: ReadingModel, form: ReadingForm, sample: RawSampleModel) -> bool {
    match reading.outcome {
        ReadingOutcome::Observed(MetricReading::Gauge(value)) => form is Gauge && value
            == sample.value,
        ReadingOutcome::Observed(MetricReading::Counter { value, bits }) => form is Counter && value
            == sample.value && bits == translate::claimed_bits(sample.key),
        _ => false,
    }
}

proof fn lemma_templates(
    catalog: CatalogModel,
    provider: Seq<char>,
    keys: Seq<RawKeyModel>,
    n: int,
    i: int,
)
    requires
        0 <= i < n <= keys.len(),
        translate::templates_upto(catalog, provider, keys, n) is Ok,
    ensures
        translate::template_of(catalog, provider, keys[i]) matches Ok(found) && (found matches Some(
            (key, form),
        ) ==> exists|t: int|
            0 <= t < translate::templates_upto(catalog, provider, keys, n)->Ok_0.len()
                && #[trigger] translate::templates_upto(catalog, provider, keys, n)->Ok_0[t] == (
            translate::TemplateModel { key, input: i, form })),
    decreases n,
{
    let all = translate::templates_upto(catalog, provider, keys, n)->Ok_0;
    let before = translate::templates_upto(catalog, provider, keys, n - 1)->Ok_0;
    if i < n - 1 {
        lemma_templates(catalog, provider, keys, n - 1, i);
        if let Ok(Some((key, form))) = translate::template_of(catalog, provider, keys[i]) {
            let t = choose|t: int|
                0 <= t < before.len() && #[trigger] before[t] == (translate::TemplateModel {
                    key,
                    input: i,
                    form,
                });
            assert(all[t] == before[t]);
        }
    } else {
        if let Ok(Some((key, form))) = translate::template_of(catalog, provider, keys[i]) {
            assert(all[before.len() as int] == (translate::TemplateModel { key, input: i, form }));
        }
    }
}

/// Every counter that becomes a reading is read with its value.
pub proof fn counters_keep_their_value(
    catalog: CatalogModel,
    provider: Seq<char>,
    samples: Seq<RawSampleModel>,
    i: int,
)
    requires
        0 <= i < samples.len(),
    ensures
        translate::translated(catalog, provider, samples) matches Ok(readings)
            ==> translate::template_of(catalog, provider, samples[i].key) matches Ok(found) && (
        found matches Some((key, form)) ==> exists|r: int|
            0 <= r < readings.len() && (#[trigger] readings[r]).key == key && shows(
                readings[r],
                form,
                samples[i],
            )),
{
    let keys = translate::raw_keys(samples);
    let n = samples.len() as int;
    if let Ok(readings) = translate::translated(catalog, provider, samples) {
        lemma_templates(catalog, provider, keys, n, i);
        assert(keys[i] == samples[i].key);
        let templates = translate::templates_upto(catalog, provider, keys, n)->Ok_0;
        if let Ok(Some((key, form))) = translate::template_of(catalog, provider, samples[i].key) {
            counters_become_readings_of_their_metric(catalog, provider, samples[i].key);
            let t = choose|t: int|
                0 <= t < templates.len() && #[trigger] templates[t] == (translate::TemplateModel {
                    key,
                    input: i,
                    form,
                });
            assert(readings[t] == translate::filled(samples, templates[t]));
            assert(readings[t].key == key && shows(readings[t], form, samples[i]));
        }
    }
}

proof fn lemma_templates_come_from(
    catalog: CatalogModel,
    provider: Seq<char>,
    keys: Seq<RawKeyModel>,
    n: int,
    t: int,
)
    requires
        0 <= n <= keys.len(),
        translate::templates_upto(catalog, provider, keys, n) is Ok,
        0 <= t < translate::templates_upto(catalog, provider, keys, n)->Ok_0.len(),
    ensures
        ({
            let template = translate::templates_upto(catalog, provider, keys, n)->Ok_0[t];
            0 <= template.input < n && translate::template_of(
                catalog,
                provider,
                keys[template.input],
            )
                == Ok::<Option<(KeyModel, ReadingForm)>, MonitorValidationError>(
                Some((template.key, template.form)),
            )
        }),
    decreases n,
{
    if n > 0 {
        let before = translate::templates_upto(catalog, provider, keys, n - 1)->Ok_0;
        if t < before.len() {
            lemma_templates_come_from(catalog, provider, keys, n - 1, t);
        }
    }
}

/// Nothing is read that is not the value of a counter.
pub proof fn readings_are_of_counters(
    catalog: CatalogModel,
    provider: Seq<char>,
    samples: Seq<RawSampleModel>,
    r: int,
)
    requires
        translate::translated(catalog, provider, samples) is Ok,
        0 <= r < translate::translated(catalog, provider, samples)->Ok_0.len(),
    ensures
        ({
            let reading = translate::translated(catalog, provider, samples)->Ok_0[r];
            exists|i: int|
                0 <= i < samples.len() && (translate::template_of(
                    catalog,
                    provider,
                    (#[trigger] samples[i]).key,
                ) matches Ok(Some((key, form))) && reading.key == key && shows(
                    reading,
                    form,
                    samples[i],
                ))
        }),
{
    let keys = translate::raw_keys(samples);
    let n = samples.len() as int;
    let templates = translate::templates_upto(catalog, provider, keys, n)->Ok_0;
    lemma_templates_come_from(catalog, provider, keys, n, r);
    let i = templates[r].input;
    let readings = translate::translated(catalog, provider, samples)->Ok_0;
    assert(readings[r] == translate::filled(samples, templates[r]));
    assert(keys[i] == samples[i].key);
    counters_become_readings_of_their_metric(catalog, provider, samples[i].key);
    assert(shows(readings[r], templates[r].form, samples[i]));
}

/// Whether a reading is a counter of a link.
pub open spec fn is_link_count(
    reading: ReadingModel,
    metric: Seq<char>,
    link: LinkModel,
    value: u64,
    bits: CounterBits,
) -> bool {
    &&& reading.key.metric == metric
    &&& reading.key.labels.len() == 2
    &&& reading.key.labels[0].label == MetricLabel::Interface
    &&& reading.key.labels[0].value == link.interface
    &&& reading.key.labels[1].label == MetricLabel::Ifindex
    &&& reading.key.labels[1].value == text::decimal(link.ifindex as nat)
    &&& reading.outcome == ReadingOutcome::<Seq<char>>::Observed(
        MetricReading::Counter { value, bits: Some(bits) },
    )
}

proof fn lemma_value_templates(
    catalog: CatalogModel,
    labels: LabelsModel,
    input: int,
    n: int,
    k: int,
)
    requires
        0 <= k < n <= 25,
    ensures
        catalog::metric_for_source(
            catalog,
            "linux.rtnetlink.link_stats"@,
            translate::link_counter(k),
        ) matches Some(d) ==> exists|t: int|
            0 <= t < translate::value_templates(catalog, labels, input, n).len()
                && #[trigger] translate::value_templates(catalog, labels, input, n)[t] == (
            translate::TemplateModel {
                key: KeyModel { metric: catalog[d].id, labels },
                input,
                form: ReadingForm::LinkValue(k as usize),
            }),
    decreases n,
{
    let all = translate::value_templates(catalog, labels, input, n);
    let before = translate::value_templates(catalog, labels, input, n - 1);
    if let Some(d) = catalog::metric_for_source(
        catalog,
        "linux.rtnetlink.link_stats"@,
        translate::link_counter(k),
    ) {
        let template = translate::TemplateModel {
            key: KeyModel { metric: catalog[d].id, labels },
            input,
            form: ReadingForm::LinkValue(k as usize),
        };
        if k < n - 1 {
            lemma_value_templates(catalog, labels, input, n - 1, k);
            let t = choose|t: int| 0 <= t < before.len() && #[trigger] before[t] == template;
            assert(all[t] == before[t]);
        } else {
            assert(all[before.len() as int] == template);
        }
    }
}

proof fn lemma_link_templates(
    catalog: CatalogModel,
    links: Seq<LinkModel>,
    n: int,
    i: int,
    template: translate::TemplateModel,
)
    requires
        0 <= i < n <= links.len(),
        translate::link_templates_upto(catalog, links, n) is Ok,
        translate::interface_labels_of(links[i].interface, links[i].ifindex) matches Ok(labels)
            ==> translate::templates_of_link(catalog, labels, i, links[i]).contains(template),
    ensures
        translate::link_templates_upto(catalog, links, n)->Ok_0.contains(template),
    decreases n,
{
    let all = translate::link_templates_upto(catalog, links, n)->Ok_0;
    let before = translate::link_templates_upto(catalog, links, n - 1)->Ok_0;
    let labels = translate::interface_labels_of(links[n - 1].interface, links[n - 1].ifindex)->Ok_0;
    let own = translate::templates_of_link(catalog, labels, n - 1, links[n - 1]);
    if i < n - 1 {
        lemma_link_templates(catalog, links, n - 1, i, template);
        let t = choose|t: int| 0 <= t < before.len() && before[t] == template;
        assert(all[t] == template);
    } else {
        let t = choose|t: int| 0 <= t < own.len() && own[t] == template;
        assert(all[before.len() + t] == template);
    }
}

/// Every counter of a link that has a metric is read with its value, under the name and the
/// index of the link, and with the width of its counters.
pub proof fn links_show_their_counters(
    catalog: CatalogModel,
    links: Seq<LinkModel>,
    i: int,
    k: int,
)
    requires
        0 <= i < links.len(),
        0 <= k < links[i].values.len(),
        k < 25,
        translate::translated_links(catalog, links) is Ok,
    ensures
        catalog::metric_for_source(
            catalog,
            "linux.rtnetlink.link_stats"@,
            translate::link_counter(k),
        ) matches Some(d) ==> exists|r: int|
            0 <= r < translate::translated_links(catalog, links)->Ok_0.len() && is_link_count(
                #[trigger] translate::translated_links(catalog, links)->Ok_0[r],
                catalog[d].id,
                links[i],
                links[i].values[k],
                if links[i].counter_bits == 64 {
                    CounterBits::Bits64
                } else {
                    CounterBits::Bits32
                },
            ),
{
    let found = catalog::metric_for_source(
        catalog,
        "linux.rtnetlink.link_stats"@,
        translate::link_counter(k),
    );
    let n = links.len() as int;
    let readings = translate::translated_links(catalog, links)->Ok_0;
    let templates = translate::link_templates_upto(catalog, links, n)->Ok_0;
    if let Some(d) = found {
        lemma_labels_of_link(catalog, links, n, i);
        let labels = translate::interface_labels_of(links[i].interface, links[i].ifindex)->Ok_0;
        let values = translate::value_templates(
            catalog,
            labels,
            i,
            translate::named_values(links[i]),
        );
        let own = translate::templates_of_link(catalog, labels, i, links[i]);
        let template = translate::TemplateModel {
            key: KeyModel { metric: catalog[d].id, labels },
            input: i,
            form: ReadingForm::LinkValue(k as usize),
        };
        lemma_value_templates(catalog, labels, i, translate::named_values(links[i]), k);
        let t = choose|t: int| 0 <= t < values.len() && #[trigger] values[t] == template;
        assert(own[t] == template);
        lemma_link_templates(catalog, links, n, i, template);
        let r = choose|r: int| 0 <= r < templates.len() && templates[r] == template;
        assert(readings[r] == translate::filled_link(links, templates[r]));
    }
}

proof fn lemma_labels_of_link(catalog: CatalogModel, links: Seq<LinkModel>, n: int, i: int)
    requires
        0 <= i < n <= links.len(),
        translate::link_templates_upto(catalog, links, n) is Ok,
    ensures
        translate::interface_labels_of(links[i].interface, links[i].ifindex) is Ok,
    decreases n,
{
    if i < n - 1 {
        lemma_labels_of_link(catalog, links, n - 1, i);
    }
}

/// A link that says how often its carrier changed is read with that count.
pub proof fn links_show_how_often_their_carrier_changed(
    catalog: CatalogModel,
    links: Seq<LinkModel>,
    i: int,
)
    requires
        0 <= i < links.len(),
        links[i].carrier_changes is Some,
        translate::translated_links(catalog, links) is Ok,
    ensures
        catalog::metric_for_source(
            catalog,
            "linux.rtnetlink.link_stats"@,
            "carrier_changes"@,
        ) matches Some(d) ==> exists|r: int|
            0 <= r < translate::translated_links(catalog, links)->Ok_0.len() && is_link_count(
                #[trigger] translate::translated_links(catalog, links)->Ok_0[r],
                catalog[d].id,
                links[i],
                links[i].carrier_changes->0 as u64,
                CounterBits::Bits32,
            ),
{
    let n = links.len() as int;
    let readings = translate::translated_links(catalog, links)->Ok_0;
    let templates = translate::link_templates_upto(catalog, links, n)->Ok_0;
    if let Some(d) = catalog::metric_for_source(
        catalog,
        "linux.rtnetlink.link_stats"@,
        "carrier_changes"@,
    ) {
        lemma_labels_of_link(catalog, links, n, i);
        let labels = translate::interface_labels_of(links[i].interface, links[i].ifindex)->Ok_0;
        let values = translate::value_templates(
            catalog,
            labels,
            i,
            translate::named_values(links[i]),
        );
        let own = translate::templates_of_link(catalog, labels, i, links[i]);
        let template = translate::TemplateModel {
            key: KeyModel { metric: catalog[d].id, labels },
            input: i,
            form: ReadingForm::CarrierChanges,
        };
        assert(own[values.len() as int] == template);
        lemma_link_templates(catalog, links, n, i, template);
        let r = choose|r: int| 0 <= r < templates.len() && templates[r] == template;
        assert(readings[r] == translate::filled_link(links, templates[r]));
    }
}

/// Links can be read exactly if the name of each can be shown.
pub proof fn links_need_names(catalog: CatalogModel, links: Seq<LinkModel>, n: int)
    requires
        0 <= n <= links.len(),
    ensures
        translate::link_templates_upto(catalog, links, n) is Ok <==> forall|i: int|
            0 <= i < n ==> model::valid_value((#[trigger] links[i]).interface),
    decreases n,
{
    if n > 0 {
        links_need_names(catalog, links, n - 1);
    }
}

/// The processors that serve the interrupts of an interface are shown as they were read: not
/// at all if they are not known whole, and as not valid if they differ.
pub proof fn interfaces_say_who_serves_their_interrupts(record: AffinityRecord)
    ensures
        ({
            let result = translate::affinity_reading(record);
            let named = model::valid_value(record.interface@);
            let shown = record.cpu_list matches Some(list) ==> model::valid_value(list@);
            &&& result is Ok <==> named && (record.complete ==> shown)
            &&& result matches Ok(reading) ==> {
                &&& reading.key.metric == "linux.hardirq.affinity"@
                &&& reading.key.labels.len() == 2
                &&& reading.key.labels[0].value == record.interface@
                &&& reading.key.labels[1].value == text::decimal(record.ifindex as nat)
                &&& !record.complete ==> reading.outcome == ReadingOutcome::<Seq<char>>::Unavailable(
                    UnavailableReason::Missing,
                )
                &&& record.complete && record.cpu_list is None ==> reading.outcome
                    == ReadingOutcome::<Seq<char>>::Unavailable(UnavailableReason::InvalidValue)
                &&& record.complete ==> (record.cpu_list matches Some(list) ==> reading.outcome
                    == ReadingOutcome::Observed(MetricReading::State(list@)))
            }
        }),
{
}

/// Interrupts are read from their counters first, and the processors that serve them after
/// that, one reading for each interface in turn.
pub proof fn interrupts_show_their_processors(
    readings: Seq<ReadingModel>,
    records: Seq<AffinityRecord>,
    n: int,
    i: int,
)
    requires
        0 <= i < n <= records.len(),
    ensures
        translate::with_affinities(readings, records, n) matches Ok(all) ==> {
            &&& all.len() == readings.len() + n
            &&& all.take(readings.len() as int) == readings
            &&& translate::affinity_reading(records[i]) matches Ok(reading) && all[readings.len()
                + i] == reading
        },
    decreases n,
{
    if let Ok(all) = translate::with_affinities(readings, records, n) {
        let before = translate::with_affinities(readings, records, n - 1)->Ok_0;
        if i < n - 1 {
            interrupts_show_their_processors(readings, records, n - 1, i);
        } else if n > 1 {
            interrupts_show_their_processors(readings, records, n - 1, 0);
        }
        assert(all.take(readings.len() as int) =~= before.take(readings.len() as int));
        if n == 1 {
            assert(before.take(readings.len() as int) =~= readings);
        }
    }
}

/// A collection is dated by when it finished, from the start of the session, and it lasted
/// from its own start; it never lasted longer than the session.
pub proof fn collections_are_dated(session_start: Nanos, started: Nanos, finished: Nanos)
    ensures
        ({
            let timing = translate::timing_of(session_start, started, finished);
            &&& session_start <= finished ==> session_start + timing.finished_at == finished
            &&& session_start > finished ==> timing.finished_at == 0
            &&& timing.collection_duration <= timing.finished_at
            &&& session_start <= started <= finished ==> started + timing.collection_duration
                == finished
            &&& started < session_start <= finished ==> timing.collection_duration
                == timing.finished_at
            &&& started > finished ==> timing.collection_duration == 0
        }),
{
}

/// What was read is reported as fresh, by the provider and with the time of the collection.
pub proof fn attempts_are_reported(
    catalog: CatalogModel,
    provider: Seq<char>,
    timing: translate::CollectionTiming,
    metrics: Seq<RawSampleModel>,
)
    ensures
        ({
            let sample = translate::attempt_report(catalog, provider, timing, Ok(metrics));
            let readings = translate::translated(catalog, provider, metrics);
            &&& sample.provider == provider
            &&& sample.finished_at == timing.finished_at
            &&& sample.collection_duration == timing.collection_duration
            &&& sample.health is Fresh || (sample.health is Error && sample.readings.len() == 0)
            &&& readings matches Ok(read) ==> (catalog::sample_problem(
                catalog,
                provider,
                ProviderHealth::Fresh,
                read,
            ) is None ==> sample.health is Fresh && sample.readings.to_multiset()
                == read.to_multiset())
        }),
{
    if let Ok(read) = translate::translated(catalog, provider, metrics) {
        model::lemma_canonical_exists(read);
    }
}

/// An attempt that failed is reported with its reason.
pub proof fn failed_attempts_are_reported(
    catalog: CatalogModel,
    provider: Seq<char>,
    timing: translate::CollectionTiming,
    error: AttemptError,
)
    ensures
        ({
            let read = translate::attempt_report(catalog, provider, timing, Err(error));
            let links = translate::link_report(catalog, timing, Err(error));
            let interrupts = translate::hardirq_report(catalog, timing, Err(error));
            &&& read.provider == provider
            &&& links.provider == "linux.rtnetlink.link_stats"@
            &&& interrupts.provider == "linux.proc.interrupts"@
            &&& read.health == links.health && links.health == interrupts.health
            &&& read.finished_at == timing.finished_at && read.collection_duration
                == timing.collection_duration
            &&& links.finished_at == timing.finished_at && links.collection_duration
                == timing.collection_duration
            &&& interrupts.finished_at == timing.finished_at && interrupts.collection_duration
                == timing.collection_duration
            &&& diagnostics::health_error(read.health) matches Some(told) && told.code
                == error.code && told.diagnostic == diagnostics::bounded_diagnostic(error.message@)
            &&& read.readings.len() == 0 && links.readings.len() == 0 && interrupts.readings.len()
                == 0
        }),
{
}

/// Interrupts that more than one interface shares are not read, and the report says so.
pub proof fn shared_interrupts_are_reported(
    catalog: CatalogModel,
    timing: translate::CollectionTiming,
    collection: HardirqCollection,
)
    ensures
        ({
            let sample = translate::hardirq_report(catalog, timing, Ok(collection));
            &&& sample.provider == "linux.proc.interrupts"@
            &&& sample.finished_at == timing.finished_at
            &&& sample.collection_duration == timing.collection_duration
            &&& sample.health is Fresh ==> collection.skipped_shared_irqs == 0
            &&& sample.health is Partial ==> collection.skipped_shared_irqs > 0
            &&& sample.health matches ProviderHealth::Partial { warning } ==> warning.code
                is Unsupported && warning.diagnostic == diagnostics::bounded_diagnostic(
                "skipped "@ + text::decimal(collection.skipped_shared_irqs as nat)
                    + " IRQs mapped to multiple network interfaces"@,
            )
        }),
{
}

} // verus!
