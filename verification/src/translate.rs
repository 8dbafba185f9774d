//! Raw counters into catalogued readings, with templates that are kept while the
//! raw identities stay the same.
use crate::catalog;
use crate::catalog::{CatalogModel, MetricCatalog, ProviderSample, SampleModel};
use crate::diagnostics;
use crate::diagnostics::{error_sample, explain, monitor_error, provider_sample, AttemptError};
use crate::engine::SeriesKey;
use crate::model;
use crate::model::{
    CounterBits, KeyModel, LabelsModel, MetricKind, MetricLabel, MetricLabels, MetricReading,
    MonitorErrorCode, MonitorValidationError, Nanos, ProviderHealth, ReadingModel, ReadingOutcome,
    SampleReading, UnavailableReason, MAX_READINGS_PER_PROVIDER,
};
use crate::order;
use crate::seqs;
use crate::text;
use crate::text::{decimal_text, owned, push_decimal, same_text};
use vstd::prelude::*;
use vstd::string::*;

verus! {

pub const PROC_SNMP: &'static str = "linux.proc.net.snmp";

pub const PROC_NETSTAT: &'static str = "linux.proc.net.netstat";

pub const PROC_SNMP6: &'static str = "linux.proc.net.snmp6";

pub const PROC_SOCKSTAT: &'static str = "linux.proc.net.sockstat";

pub const PROC_SOCKSTAT6: &'static str = "linux.proc.net.sockstat6";

pub const PROC_CONNTRACK: &'static str = "linux.proc.netfilter.conntrack";

pub const PROC_SOFTNET: &'static str = "linux.proc.net.softnet_stat";

pub const PROC_SYS_NET_CORE: &'static str = "linux.proc.sys.net.core";

pub const PROC_SYS_NET_IPV4: &'static str = "linux.proc.sys.net.ipv4";

pub const PROC_SOFTIRQS: &'static str = "linux.proc.softirqs";

pub const PROC_INTERRUPTS: &'static str = "linux.proc.interrupts";

pub const RTNETLINK_LINK: &'static str = "linux.rtnetlink.link_stats";

pub const SYSFS_LINK: &'static str = "linux.sysfs.net.statistics";

pub const PROC_NET_DEV: &'static str = "linux.proc.net.dev";

/// A label as a collector gives it.
#[derive(Clone, Debug, PartialEq, Eq)]
pub struct RawLabel<T> {
    pub name: T,
    pub value: T,
}

impl DeepView for RawLabel<String> {
    type V = RawLabel<Seq<char>>;

    open spec fn deep_view(&self) -> RawLabel<Seq<char>> {
        RawLabel { name: self.name@, value: self.value@ }
    }
}

/// What a contract says of a raw identity.
#[verifier::ext_equal]
pub struct RawKeyModel {
    pub source: Seq<char>,
    pub group: Seq<char>,
    pub metric: Seq<char>,
    pub labels: Seq<RawLabel<Seq<char>>>,
}

/// The identity of a value as a collector gives it.
#[derive(Clone, Debug, PartialEq, Eq)]
pub struct MetricKey {
    pub source: String,
    pub group: String,
    pub metric: String,
    pub labels: Vec<RawLabel<String>>,
}

impl DeepView for MetricKey {
    type V = RawKeyModel;

    open spec fn deep_view(&self) -> RawKeyModel {
        RawKeyModel {
            source: self.source@,
            group: self.group@,
            metric: self.metric@,
            labels: self.labels.deep_view(),
        }
    }
}

/// A raw value with its identity.
#[derive(Clone, Debug, PartialEq, Eq)]
pub struct MetricSample {
    pub key: MetricKey,
    pub value: u64,
}

/// What a contract says of a raw value.
#[verifier::ext_equal]
pub struct RawSampleModel {
    pub key: RawKeyModel,
    pub value: u64,
}

impl DeepView for MetricSample {
    type V = RawSampleModel;

    open spec fn deep_view(&self) -> RawSampleModel {
        RawSampleModel { key: self.key.deep_view(), value: self.value }
    }
}

/// Whether a raw label has this name.
pub open spec fn named(name: Seq<char>) -> spec_fn(RawLabel<Seq<char>>) -> bool {
    |label: RawLabel<Seq<char>>| label.name == name
}

/// The value of a raw label.
pub open spec fn raw_label(labels: Seq<RawLabel<Seq<char>>>, name: Seq<char>) -> Option<Seq<char>> {
    match seqs::first_where(labels, named(name), labels.len() as int) {
        Some(i) => Some(labels[i].value),
        None => None,
    }
}

impl MetricKey {
    pub fn new(source: &str, group: &str, metric: &str) -> (key: MetricKey)
        ensures
            key.deep_view() == (RawKeyModel {
                source: source@,
                group: group@,
                metric: metric@,
                labels: Seq::empty(),
            }),
    {
        let key = MetricKey {
            source: owned(source),
            group: owned(group),
            metric: owned(metric),
            labels: Vec::new(),
        };
        assert(key.deep_view().labels =~= Seq::<RawLabel<Seq<char>>>::empty());
        key
    }

    /// The value of a label.
    pub fn label(&self, name: &str) -> (value: Option<&str>)
        ensures
            match value {
                Some(found) => raw_label(self.deep_view().labels, name@) == Some(found@),
                None => raw_label(self.deep_view().labels, name@) is None,
            },
    {
        let ghost all = self.deep_view().labels;
        let ghost p = named(name@);
        let mut i: usize = 0;
        while i < self.labels.len()
            invariant
                i <= self.labels.len(),
                all == self.deep_view().labels,
                p == named(name@),
                seqs::first_where(all, p, i as int) is None,
            decreases self.labels.len() - i,
        {
            assert(all[i as int] == self.labels@[i as int].deep_view());
            if same_text(self.labels[i].name.as_str(), name) {
                proof {
                    assert(seqs::first_where(all, p, i as int + 1) == Some(i as int));
                    seqs::lemma_first_where_stays(all, p, i as int + 1, all.len() as int);
                }
                return Some(self.labels[i].value.as_str());
            }
            i += 1;
        }
        None
    }

    pub fn copy(&self) -> (key: MetricKey)
        ensures
            key.deep_view() == self.deep_view(),
    {
        let mut labels: Vec<RawLabel<String>> = Vec::new();
        for i in 0..self.labels.len()
            invariant
                labels.deep_view() == self.labels.deep_view().take(i as int),
        {
            let ghost before = labels;
            labels.push(
                RawLabel {
                    name: self.labels[i].name.clone(),
                    value: self.labels[i].value.clone(),
                },
            );
            proof {
                seqs::lemma_deep_push(before, labels);
                seqs::lemma_take_push(self.labels.deep_view(), i as int);
            }
        }
        proof {
            seqs::lemma_take_all(self.labels.deep_view());
        }
        MetricKey {
            source: self.source.clone(),
            group: self.group.clone(),
            metric: self.metric.clone(),
            labels,
        }
    }

    /// Whether both identities agree in every part.
    pub fn same(&self, other: &MetricKey) -> (same: bool)
        ensures
            same == (self.deep_view() == other.deep_view()),
    {
        let ghost a = self.deep_view().labels;
        let ghost b = other.deep_view().labels;
        assert(a.len() == self.labels.len() && b.len() == other.labels.len());
        if !same_text(self.source.as_str(), other.source.as_str()) || !same_text(
            self.group.as_str(),
            other.group.as_str(),
        ) || !same_text(self.metric.as_str(), other.metric.as_str()) || self.labels.len()
            != other.labels.len() {
            return false;
        }
        let mut i: usize = 0;
        while i < self.labels.len()
            invariant
                i <= self.labels.len() == other.labels.len(),
                a == self.deep_view().labels,
                b == other.deep_view().labels,
                forall|j: int| 0 <= j < i ==> a[j] == b[j],
            decreases self.labels.len() - i,
        {
            assert(a[i as int] == self.labels@[i as int].deep_view());
            assert(b[i as int] == other.labels@[i as int].deep_view());
            if !same_text(self.labels[i].name.as_str(), other.labels[i].name.as_str())
                || !same_text(self.labels[i].value.as_str(), other.labels[i].value.as_str()) {
                return false;
            }
            i += 1;
        }
        assert(a =~= b);
        true
    }
}

/// The provider whose collector calls itself `source`.
pub open spec fn provider_for(source: Seq<char>) -> Option<Seq<char>> {
    if source == "proc_net_snmp"@ {
        Some(PROC_SNMP@)
    } else if source == "proc_net_netstat"@ {
        Some(PROC_NETSTAT@)
    } else if source == "proc_net_snmp6"@ {
        Some(PROC_SNMP6@)
    } else if source == "proc_sockstat"@ {
        Some(PROC_SOCKSTAT@)
    } else if source == "proc_sockstat6"@ {
        Some(PROC_SOCKSTAT6@)
    } else if source == "proc_conntrack"@ {
        Some(PROC_CONNTRACK@)
    } else if source == "proc_softnet"@ {
        Some(PROC_SOFTNET@)
    } else if source == "proc_sys_net_core"@ {
        Some(PROC_SYS_NET_CORE@)
    } else if source == "proc_sys_net_ipv4"@ {
        Some(PROC_SYS_NET_IPV4@)
    } else if source == "proc_softirqs"@ {
        Some(PROC_SOFTIRQS@)
    } else if source == "proc_interrupts"@ {
        Some(PROC_INTERRUPTS@)
    } else if source == "rtnetlink_link_stats"@ {
        Some(RTNETLINK_LINK@)
    } else if source == "sys_class_net"@ {
        Some(SYSFS_LINK@)
    } else if source == "proc_net_dev"@ {
        Some(PROC_NET_DEV@)
    } else {
        None
    }
}

pub fn provider_for_raw_source(source: &str) -> (provider: Option<&'static str>)
    ensures
        match provider {
            Some(name) => provider_for(source@) == Some(name@),
            None => provider_for(source@) is None,
        },
{
    if same_text(source, "proc_net_snmp") {
        Some(PROC_SNMP)
    } else if same_text(source, "proc_net_netstat") {
        Some(PROC_NETSTAT)
    } else if same_text(source, "proc_net_snmp6") {
        Some(PROC_SNMP6)
    } else if same_text(source, "proc_sockstat") {
        Some(PROC_SOCKSTAT)
    } else if same_text(source, "proc_sockstat6") {
        Some(PROC_SOCKSTAT6)
    } else if same_text(source, "proc_conntrack") {
        Some(PROC_CONNTRACK)
    } else if same_text(source, "proc_softnet") {
        Some(PROC_SOFTNET)
    } else if same_text(source, "proc_sys_net_core") {
        Some(PROC_SYS_NET_CORE)
    } else if same_text(source, "proc_sys_net_ipv4") {
        Some(PROC_SYS_NET_IPV4)
    } else if same_text(source, "proc_softirqs") {
        Some(PROC_SOFTIRQS)
    } else if same_text(source, "proc_interrupts") {
        Some(PROC_INTERRUPTS)
    } else if same_text(source, "rtnetlink_link_stats") {
        Some(RTNETLINK_LINK)
    } else if same_text(source, "sys_class_net") {
        Some(SYSFS_LINK)
    } else if same_text(source, "proc_net_dev") {
        Some(PROC_NET_DEV)
    } else {
        None
    }
}

/// Whether the provider's values are named by group and metric together.
pub open spec fn names_groups(provider: Seq<char>) -> bool {
    provider == PROC_SNMP@ || provider == PROC_NETSTAT@ || provider == PROC_SOCKSTAT@ || provider
        == PROC_SOCKSTAT6@
}

/// The name under which the catalog knows a raw value of `provider`.
pub open spec fn raw_name(provider: Seq<char>, key: RawKeyModel) -> Seq<char> {
    if names_groups(provider) {
        key.group + "."@ + key.metric
    } else {
        key.metric
    }
}

/// Whether a softnet row has a stable identity: the row of one known processor.
pub open spec fn is_stable_row(provider: Seq<char>, key: RawKeyModel) -> bool {
    provider == PROC_SOFTNET@ ==> key.group == "softnet_cpu"@ && raw_label(key.labels, "cpu"@)
        is Some
}

/// Labels that one more raw label was taken into, if the metric has it and the
/// value carries it.
pub open spec fn with_raw_label(
    labels: Result<LabelsModel, MonitorValidationError>,
    allowed: Seq<MetricLabel>,
    raw: Seq<RawLabel<Seq<char>>>,
    name: Seq<char>,
    label: MetricLabel,
) -> Result<LabelsModel, MonitorValidationError> {
    match labels {
        Err(error) => Err(error),
        Ok(labels) => match raw_label(raw, name) {
            Some(value) if allowed.contains(label) => if model::valid_value(value) {
                Ok(model::with_label(labels, label, value))
            } else {
                Err(MonitorValidationError::InvalidLabelValue)
            },
            _ => Ok(labels),
        },
    }
}

/// The labels of a reading: of the raw labels, those that the metric has.
pub open spec fn labels_from(
    allowed: Seq<MetricLabel>,
    raw: Seq<RawLabel<Seq<char>>>,
) -> Result<LabelsModel, MonitorValidationError> {
    let a = with_raw_label(Ok(Seq::empty()), allowed, raw, "interface"@, MetricLabel::Interface);
    let b = with_raw_label(a, allowed, raw, "ifindex"@, MetricLabel::Ifindex);
    let c = with_raw_label(b, allowed, raw, "cpu"@, MetricLabel::Cpu);
    with_raw_label(c, allowed, raw, "interrupt_class"@, MetricLabel::InterruptClass)
}

fn allows(allowed: &Vec<MetricLabel>, label: MetricLabel) -> (found: bool)
    ensures
        found == allowed@.contains(label),
{
    let mut i: usize = 0;
    while i < allowed.len()
        invariant
            i <= allowed.len(),
            forall|j: int| 0 <= j < i ==> allowed@[j] != label,
        decreases allowed.len() - i,
    {
        if allowed[i] == label {
            return true;
        }
        i += 1;
    }
    false
}

/// Takes one raw label into the labels.
fn take_raw_label(
    labels: &mut MetricLabels,
    allowed: &Vec<MetricLabel>,
    key: &MetricKey,
    name: &str,
    label: MetricLabel,
) -> (result: Result<(), MonitorValidationError>)
    requires
        old(labels).wf(),
        model::label_value(old(labels).deep_view(), label) is None,
    ensures
        final(labels).wf(),
        with_raw_label(
            Ok(old(labels).deep_view()),
            allowed@,
            key.deep_view().labels,
            name@,
            label,
        ) == match result {
            Ok(()) => Ok(final(labels).deep_view()),
            Err(error) => Err(error),
        },
{
    if !allows(allowed, label) {
        return Ok(());
    }
    match key.label(name) {
        None => Ok(()),
        Some(value) => labels.put(label, owned(value)),
    }
}

/// A label that was not there and was not put stays absent.
proof fn lemma_still_absent(
    labels: LabelsModel,
    put: MetricLabel,
    value: Seq<char>,
    label: MetricLabel,
)
    requires
        model::labels_ordered(labels),
        model::label_value(labels, label) is None,
        put != label,
    ensures
        model::label_value(model::with_label(labels, put, value), label) is None,
{
    model::lemma_label_slot(labels, put);
    model::lemma_label_value_absent(labels, label);
    let after = model::with_label(labels, put, value);
    model::lemma_label_value_absent(after, label);
    let slot = model::label_slot(labels, put);
    assert forall|i: int| 0 <= i < after.len() implies (#[trigger] after[i]).label != label by {
        if i < slot {
            assert(after[i] == labels[i]);
        } else if i > slot {
            assert(after[i] == labels[i - 1]);
        }
    }
}

/// The labels of a reading.
fn translated_labels(allowed: &Vec<MetricLabel>, key: &MetricKey) -> (result: Result<
    MetricLabels,
    MonitorValidationError,
>)
    ensures
        labels_from(allowed@, key.deep_view().labels) == match result {
            Ok(labels) => Ok(labels.deep_view()),
            Err(error) => Err(error),
        },
        result matches Ok(labels) ==> labels.wf(),
{
    let mut labels = MetricLabels::none();
    let ghost raw = key.deep_view().labels;
    if let Err(error) = take_raw_label(
        &mut labels,
        allowed,
        key,
        "interface",
        MetricLabel::Interface,
    ) {
        return Err(error);
    }
    proof {
        let none = LabelsModel::empty();
        assert(model::label_value(none, MetricLabel::Ifindex) is None);
        assert(model::label_value(none, MetricLabel::Cpu) is None);
        assert(model::label_value(none, MetricLabel::InterruptClass) is None);
        lemma_only(
            labels.deep_view(),
            none,
            allowed@,
            raw,
            "interface"@,
            MetricLabel::Interface,
        );
    }
    let ghost first = labels.deep_view();
    if let Err(error) = take_raw_label(&mut labels, allowed, key, "ifindex", MetricLabel::Ifindex) {
        return Err(error);
    }
    proof {
        assert(model::label_value(first, MetricLabel::Cpu) is None);
        assert(model::label_value(first, MetricLabel::InterruptClass) is None);
        lemma_only(labels.deep_view(), first, allowed@, raw, "ifindex"@, MetricLabel::Ifindex);
    }
    let ghost second = labels.deep_view();
    if let Err(error) = take_raw_label(&mut labels, allowed, key, "cpu", MetricLabel::Cpu) {
        return Err(error);
    }
    proof {
        assert(model::label_value(second, MetricLabel::InterruptClass) is None);
        lemma_only(labels.deep_view(), second, allowed@, raw, "cpu"@, MetricLabel::Cpu);
    }
    if let Err(error) = take_raw_label(
        &mut labels,
        allowed,
        key,
        "interrupt_class",
        MetricLabel::InterruptClass,
    ) {
        return Err(error);
    }
    Ok(labels)
}

/// Taking a raw label brings in no other label.
proof fn lemma_only(
    after: LabelsModel,
    before: LabelsModel,
    allowed: Seq<MetricLabel>,
    raw: Seq<RawLabel<Seq<char>>>,
    name: Seq<char>,
    label: MetricLabel,
)
    requires
        model::labels_ordered(before),
        with_raw_label(Ok(before), allowed, raw, name, label) == Ok::<
            LabelsModel,
            MonitorValidationError,
        >(after),
    ensures
        forall|other: MetricLabel|
            other != label && #[trigger] model::label_value(before, other) is None
                ==> model::label_value(after, other) is None,
{
    assert forall|other: MetricLabel|
        other != label && #[trigger] model::label_value(before, other) is None implies
        model::label_value(after, other) is None by {
        if after != before {
            lemma_still_absent(before, label, raw_label(raw, name)->0, other);
        }
    }
}

/// How the value of a reading is found in what was collected.
#[derive(Clone, Copy, Debug, PartialEq, Eq, Structural)]
pub enum ReadingForm {
    Counter,
    Gauge,
    LinkValue(usize),
    CarrierChanges,
}

/// What a contract says of a template.
#[verifier::ext_equal]
pub struct TemplateModel {
    pub key: KeyModel,
    pub input: int,
    pub form: ReadingForm,
}

/// An identity with the place its value is read from.
#[derive(Clone, Debug, PartialEq, Eq)]
pub struct ReadingTemplate {
    pub identity: SeriesKey,
    pub input: usize,
    pub form: ReadingForm,
}

impl DeepView for ReadingTemplate {
    type V = TemplateModel;

    open spec fn deep_view(&self) -> TemplateModel {
        TemplateModel {
            key: self.identity.deep_view(),
            input: self.input as int,
            form: self.form,
        }
    }
}

/// The identity and the form of the reading that a raw value becomes. Values of
/// other sources, of rows without an identity, and of metrics that are not numbers
/// become none.
pub open spec fn template_of(
    catalog: CatalogModel,
    provider: Seq<char>,
    key: RawKeyModel,
) -> Result<Option<(KeyModel, ReadingForm)>, MonitorValidationError> {
    let found = catalog::metric_for_source(catalog, provider, raw_name(provider, key));
    if provider_for(key.source) != Some(provider) || !is_stable_row(provider, key) || found is None {
        Ok(None)
    } else {
        let descriptor = catalog[found->0];
        match labels_from(descriptor.allowed_labels, key.labels) {
            Err(error) => Err(error),
            Ok(labels) => {
                let key = KeyModel { metric: descriptor.id, labels };
                match descriptor.kind {
                    MetricKind::Counter => Ok(Some((key, ReadingForm::Counter))),
                    MetricKind::Gauge => Ok(Some((key, ReadingForm::Gauge))),
                    MetricKind::State => Ok(None),
                }
            },
        }
    }
}

fn template_for(catalog: &MetricCatalog, provider: &str, key: &MetricKey) -> (result: Result<
    Option<(SeriesKey, ReadingForm)>,
    MonitorValidationError,
>)
    ensures
        template_of(catalog.deep_view(), provider@, key.deep_view()) == match result {
            Ok(Some((identity, form))) => Ok(Some((identity.deep_view(), form))),
            Ok(None) => Ok(None),
            Err(error) => Err(error),
        },
{
    match provider_for_raw_source(key.source.as_str()) {
        None => {
            return Ok(None);
        },
        Some(owner) => {
            if !same_text(owner, provider) {
                return Ok(None);
            }
        },
    }
    if same_text(provider, PROC_SOFTNET) {
        if !same_text(key.group.as_str(), "softnet_cpu") || key.label("cpu").is_none() {
            return Ok(None);
        }
    }
    let groups: bool = same_text(provider, PROC_SNMP) || same_text(provider, PROC_NETSTAT)
        || same_text(provider, PROC_SOCKSTAT) || same_text(provider, PROC_SOCKSTAT6);
    let mut raw = key.metric.clone();
    if groups {
        raw = key.group.clone();
        raw.append(".");
        raw.append(key.metric.as_str());
    }
    match catalog.descriptor_for_source(provider, raw.as_str()) {
        None => Ok(None),
        Some(descriptor) => match translated_labels(&descriptor.allowed_labels, key) {
            Err(error) => Err(error),
            Ok(labels) => {
                let identity = SeriesKey { metric: descriptor.id.clone(), labels };
                match descriptor.kind {
                    MetricKind::Counter => Ok(Some((identity, ReadingForm::Counter))),
                    MetricKind::Gauge => Ok(Some((identity, ReadingForm::Gauge))),
                    MetricKind::State => Ok(None),
                }
            },
        },
    }
}

/// The templates of the first `n` raw identities, or the first error.
pub open spec fn templates_upto(
    catalog: CatalogModel,
    provider: Seq<char>,
    keys: Seq<RawKeyModel>,
    n: int,
) -> Result<Seq<TemplateModel>, MonitorValidationError>
    decreases n,
{
    if n <= 0 {
        Ok(Seq::empty())
    } else {
        match templates_upto(catalog, provider, keys, n - 1) {
            Err(error) => Err(error),
            Ok(before) => match template_of(catalog, provider, keys[n - 1]) {
                Err(error) => Err(error),
                Ok(None) => Ok(before),
                Ok(Some((key, form))) => Ok(before.push(TemplateModel { key, input: n - 1, form })),
            },
        }
    }
}

/// The raw identities of raw values.
pub open spec fn raw_keys(samples: Seq<RawSampleModel>) -> Seq<RawKeyModel> {
    Seq::new(samples.len(), |i: int| samples[i].key)
}

/// The width that a raw value claims.
pub open spec fn claimed_bits(key: RawKeyModel) -> Option<CounterBits> {
    match raw_label(key.labels, "counter_bits"@) {
        Some(bits) => if bits == "32"@ {
            Some(CounterBits::Bits32)
        } else if bits == "64"@ {
            Some(CounterBits::Bits64)
        } else {
            None
        },
        None => None,
    }
}

fn counter_bits(key: &MetricKey) -> (bits: Option<CounterBits>)
    ensures
        bits == claimed_bits(key.deep_view()),
{
    match key.label("counter_bits") {
        Some(bits) => if same_text(bits, "32") {
            Some(CounterBits::Bits32)
        } else if same_text(bits, "64") {
            Some(CounterBits::Bits64)
        } else {
            None
        },
        None => None,
    }
}

/// The reading that a template makes of raw values.
pub open spec fn filled(samples: Seq<RawSampleModel>, template: TemplateModel) -> ReadingModel {
    let sample = samples[template.input];
    ReadingModel {
        key: template.key,
        outcome: ReadingOutcome::Observed(
            if template.form is Gauge {
                MetricReading::Gauge(sample.value)
            } else {
                MetricReading::Counter { value: sample.value, bits: claimed_bits(sample.key) }
            },
        ),
    }
}

/// The readings that templates make of raw values.
pub open spec fn fill(samples: Seq<RawSampleModel>, templates: Seq<TemplateModel>) -> Seq<
    ReadingModel,
> {
    templates.map_values(|template: TemplateModel| filled(samples, template))
}

/// The readings of raw values, in the order of the values.
pub open spec fn translated(
    catalog: CatalogModel,
    provider: Seq<char>,
    samples: Seq<RawSampleModel>,
) -> Result<Seq<ReadingModel>, MonitorValidationError> {
    match templates_upto(catalog, provider, raw_keys(samples), samples.len() as int) {
        Err(error) => Err(error),
        Ok(templates) => Ok(fill(samples, templates)),
    }
}

/// Whether every template reads one of `count` inputs.
pub open spec fn inputs_within(templates: Seq<TemplateModel>, count: int) -> bool {
    forall|i: int| 0 <= i < templates.len() ==> 0 <= (#[trigger] templates[i]).input < count
}

proof fn lemma_templates_within(
    catalog: CatalogModel,
    provider: Seq<char>,
    keys: Seq<RawKeyModel>,
    n: int,
)
    requires
        0 <= n <= keys.len(),
    ensures
        templates_upto(catalog, provider, keys, n) matches Ok(templates) ==> inputs_within(
            templates,
            n,
        ),
    decreases n,
{
    if n > 0 {
        lemma_templates_within(catalog, provider, keys, n - 1);
    }
}

proof fn lemma_first_error(
    catalog: CatalogModel,
    provider: Seq<char>,
    keys: Seq<RawKeyModel>,
    m: int,
    n: int,
)
    requires
        0 <= m <= n,
        templates_upto(catalog, provider, keys, m) is Err,
    ensures
        templates_upto(catalog, provider, keys, n) == templates_upto(catalog, provider, keys, m),
    decreases n,
{
    if m < n {
        lemma_first_error(catalog, provider, keys, m, n - 1);
    }
}

/// The templates of raw values.
fn find_templates(
    catalog: &MetricCatalog,
    provider: &str,
    samples: &Vec<MetricSample>,
) -> (result: Result<Vec<ReadingTemplate>, MonitorValidationError>)
    ensures
        templates_upto(
            catalog.deep_view(),
            provider@,
            raw_keys(samples.deep_view()),
            samples.len() as int,
        ) == match result {
            Ok(templates) => Ok(templates.deep_view()),
            Err(error) => Err(error),
        },
        result matches Ok(templates) ==> inputs_within(templates.deep_view(), samples.len() as int),
{
    let ghost cat = catalog.deep_view();
    let ghost keys = raw_keys(samples.deep_view());
    let mut templates: Vec<ReadingTemplate> = Vec::new();
    assert(templates.deep_view() =~= Seq::<TemplateModel>::empty());
    for i in 0..samples.len()
        invariant
            cat == catalog.deep_view(),
            keys == raw_keys(samples.deep_view()),
            templates_upto(cat, provider@, keys, i as int) == Ok::<
                Seq<TemplateModel>,
                MonitorValidationError,
            >(templates.deep_view()),
    {
        assert(keys[i as int] == samples@[i as int].key.deep_view());
        match template_for(catalog, provider, &samples[i].key) {
            Err(error) => {
                proof {
                    lemma_first_error(cat, provider@, keys, i as int + 1, samples.len() as int);
                }
                return Err(error);
            },
            Ok(None) => {},
            Ok(Some((identity, form))) => {
                let ghost before = templates;
                templates.push(ReadingTemplate { identity, input: i, form });
                proof {
                    seqs::lemma_deep_push(before, templates);
                }
            },
        }
    }
    proof {
        lemma_templates_within(cat, provider@, keys, samples.len() as int);
    }
    Ok(templates)
}

/// Fills templates with raw values.
fn fill_templates(templates: &Vec<ReadingTemplate>, samples: &Vec<MetricSample>) -> (readings: Vec<
    SampleReading,
>)
    requires
        inputs_within(templates.deep_view(), samples.len() as int),
    ensures
        readings.deep_view() == fill(samples.deep_view(), templates.deep_view()),
{
    let ghost all = templates.deep_view();
    let ghost raw = samples.deep_view();
    let ghost target = fill(raw, all);
    let mut readings: Vec<SampleReading> = Vec::new();
    for i in 0..templates.len()
        invariant
            all == templates.deep_view(),
            raw == samples.deep_view(),
            target == fill(raw, all),
            inputs_within(all, samples.len() as int),
            readings.deep_view() == target.take(i as int),
    {
        let template = &templates[i];
        assert(all[i as int] == template.deep_view());
        let sample = &samples[template.input];
        assert(raw[template.input as int] == sample.deep_view());
        let value = match template.form {
            ReadingForm::Gauge => MetricReading::Gauge(sample.value),
            _ => MetricReading::Counter { value: sample.value, bits: counter_bits(&sample.key) },
        };
        let ghost before = readings;
        readings.push(
            SampleReading::observed(
                template.identity.metric.clone(),
                template.identity.labels.copy(),
                value,
            ),
        );
        proof {
            seqs::lemma_deep_push(before, readings);
            seqs::lemma_take_push(target, i as int);
            assert(readings@.last().deep_view() == target[i as int]);
        }
    }
    proof {
        seqs::lemma_take_all(target);
    }
    readings
}

/// The readings of raw values, in the order of the values.
pub fn translate_metrics(
    catalog: &MetricCatalog,
    provider: &str,
    metrics: &Vec<MetricSample>,
) -> (result: Result<Vec<SampleReading>, MonitorValidationError>)
    ensures
        translated(catalog.deep_view(), provider@, metrics.deep_view()) == match result {
            Ok(readings) => Ok(readings.deep_view()),
            Err(error) => Err(error),
        },
{
    match find_templates(catalog, provider, metrics) {
        Err(error) => Err(error),
        Ok(templates) => Ok(fill_templates(&templates, metrics)),
    }
}

/// The identities of templates.
pub open spec fn template_keys(templates: Seq<TemplateModel>) -> Seq<KeyModel> {
    Seq::new(templates.len(), |i: int| templates[i].key)
}

/// Exchanges two templates.
fn swap_templates(templates: &mut Vec<ReadingTemplate>, a: usize, b: usize)
    requires
        a < old(templates).len(),
        b < old(templates).len(),
    ensures
        final(templates).deep_view() == order::swapped(
            old(templates).deep_view(),
            a as int,
            b as int,
        ),
{
    let ghost before = templates.deep_view();
    if a == b {
        assert(before =~= order::swapped(before, a as int, b as int));
        return;
    }
    let mut spare = ReadingTemplate {
        identity: SeriesKey { metric: String::new(), labels: MetricLabels::none() },
        input: 0,
        form: ReadingForm::Gauge,
    };
    std::mem::swap(&mut spare, &mut templates[a]);
    std::mem::swap(&mut spare, &mut templates[b]);
    std::mem::swap(&mut spare, &mut templates[a]);
    assert(templates.deep_view() =~= order::swapped(before, a as int, b as int));
}

proof fn lemma_template_swaps_commute(
    templates: Seq<TemplateModel>,
    swaps: Seq<(usize, usize)>,
    n: int,
)
    requires
        0 <= n <= swaps.len(),
        order::swaps_within(swaps, templates.len() as int),
    ensures
        template_keys(order::apply_swaps(templates, swaps, n)) == order::apply_swaps(
            template_keys(templates),
            swaps,
            n,
        ),
    decreases n,
{
    order::lemma_swaps_length(templates, swaps, n);
    order::lemma_swaps_length(template_keys(templates), swaps, n);
    if n > 0 {
        lemma_template_swaps_commute(templates, swaps, n - 1);
        order::lemma_swaps_length(templates, swaps, n - 1);
        let before = order::apply_swaps(templates, swaps, n - 1);
        assert(swaps[n - 1].0 < templates.len() && swaps[n - 1].1 < templates.len());
        assert(template_keys(order::swapped(before, swaps[n - 1].0 as int, swaps[n - 1].1 as int))
            =~= order::swapped(
            template_keys(before),
            swaps[n - 1].0 as int,
            swaps[n - 1].1 as int,
        ));
    }
}

/// Puts templates into the canonical order of their identities.
fn sort_templates(templates: Vec<ReadingTemplate>) -> (sorted: Vec<ReadingTemplate>)
    ensures
        order::keys_sorted(template_keys(sorted.deep_view())),
        sorted.deep_view().to_multiset() == templates.deep_view().to_multiset(),
        sorted.len() == templates.len(),
{
    let ghost given = templates.deep_view();
    let mut sorted = templates;
    let mut keys: Vec<SeriesKey> = Vec::new();
    for i in 0..sorted.len()
        invariant
            sorted.deep_view() == given,
            keys.deep_view() == template_keys(given).take(i as int),
    {
        let ghost before = keys;
        keys.push(
            SeriesKey {
                metric: sorted[i].identity.metric.clone(),
                labels: sorted[i].identity.labels.copy(),
            },
        );
        proof {
            seqs::lemma_deep_push(before, keys);
            seqs::lemma_take_push(template_keys(given), i as int);
            assert(given[i as int] == sorted@[i as int].deep_view());
        }
    }
    proof {
        seqs::lemma_take_all(template_keys(given));
    }
    let swaps = order::sorting_swaps(&keys);
    let count: usize = swaps.len();
    for k in 0..count
        invariant
            count == swaps.len(),
            order::swaps_within(swaps@, given.len() as int),
            sorted.len() == given.len(),
            sorted.deep_view() == order::apply_swaps(given, swaps@, k as int),
    {
        let pair: (usize, usize) = swaps[k];
        assert(swaps@[k as int].0 < given.len() && swaps@[k as int].1 < given.len());
        swap_templates(&mut sorted, pair.0, pair.1);
        proof {
            assert(sorted.deep_view().len() == sorted.len());
            order::lemma_swaps_length(given, swaps@, k as int);
        }
    }
    proof {
        lemma_template_swaps_commute(given, swaps@, count as int);
        order::lemma_swaps_keep_elements(given, swaps@, count as int);
    }
    sorted
}

/// The templates of the raw identities that were seen last.
#[derive(Clone, Debug, PartialEq, Eq)]
pub struct MetricReadingsCache {
    pub provider: Option<String>,
    pub keys: Vec<MetricKey>,
    pub templates: Vec<ReadingTemplate>,
}

impl MetricReadingsCache {
    /// The kept templates are those of the kept identities, in canonical order.
    pub open spec fn wf(&self, catalog: CatalogModel) -> bool {
        match self.provider {
            None => self.templates.len() == 0,
            Some(provider) => templates_upto(
                catalog,
                provider@,
                self.keys.deep_view(),
                self.keys.len() as int,
            ) matches Ok(templates) && self.templates.deep_view().to_multiset()
                == templates.to_multiset() && order::keys_sorted(
                template_keys(self.templates.deep_view()),
            ) && inputs_within(self.templates.deep_view(), self.keys.len() as int),
        }
    }

    pub fn new() -> (cache: MetricReadingsCache)
        ensures
            forall|catalog: CatalogModel| #[trigger] cache.wf(catalog),
            cache.templates.len() == 0,
    {
        MetricReadingsCache { provider: None, keys: Vec::new(), templates: Vec::new() }
    }

    /// Whether the kept templates are those of these raw values.
    fn remembers(&self, provider: &str, metrics: &Vec<MetricSample>) -> (same: bool)
        ensures
            same == (self.provider.deep_view() == Some(provider@) && self.keys.deep_view()
                == raw_keys(metrics.deep_view())),
    {
        let ghost a = self.keys.deep_view();
        let ghost b = raw_keys(metrics.deep_view());
        assert(a.len() == self.keys.len() && b.len() == metrics.len());
        match &self.provider {
            None => {
                return false;
            },
            Some(kept) => {
                if !same_text(kept.as_str(), provider) {
                    return false;
                }
            },
        }
        if self.keys.len() != metrics.len() {
            return false;
        }
        let mut i: usize = 0;
        while i < metrics.len()
            invariant
                i <= metrics.len() == self.keys.len(),
                a == self.keys.deep_view(),
                b == raw_keys(metrics.deep_view()),
                forall|j: int| 0 <= j < i ==> a[j] == b[j],
            decreases metrics.len() - i,
        {
            assert(a[i as int] == self.keys@[i as int].deep_view());
            assert(b[i as int] == metrics@[i as int].key.deep_view());
            if !self.keys[i].same(&metrics[i].key) {
                return false;
            }
            i += 1;
        }
        assert(a =~= b);
        true
    }

    /// The readings of raw values, in canonical order. What was kept of earlier
    /// values never shows: the readings are the same without it. More values than a
    /// provider may have are taken as they come.
    pub fn translate(
        &mut self,
        catalog: &MetricCatalog,
        provider: &str,
        metrics: &Vec<MetricSample>,
    ) -> (result: Result<Vec<SampleReading>, MonitorValidationError>)
        requires
            old(self).wf(catalog.deep_view()),
        ensures
            final(self).wf(catalog.deep_view()),
            match (result, translated(catalog.deep_view(), provider@, metrics.deep_view())) {
                (Ok(readings), Ok(expected)) => {
                    &&& readings.deep_view().to_multiset() == expected.to_multiset()
                    &&& metrics.len() > MAX_READINGS_PER_PROVIDER ==> readings.deep_view()
                        == expected && final(self).templates.len() == 0
                    &&& metrics.len() <= MAX_READINGS_PER_PROVIDER ==> model::readings_sorted(
                        readings.deep_view(),
                    )
                },
                (Err(error), Err(expected)) => error == expected,
                _ => false,
            },
    {
        let ghost cat = catalog.deep_view();
        let ghost raw = metrics.deep_view();
        let ghost keys = raw_keys(raw);
        if metrics.len() > MAX_READINGS_PER_PROVIDER {
            self.provider = None;
            self.keys = Vec::new();
            self.templates = Vec::new();
            return translate_metrics(catalog, provider, metrics);
        }
        if !self.remembers(provider, metrics) {
            let templates = match find_templates(catalog, provider, metrics) {
                Ok(templates) => templates,
                Err(error) => {
                    return Err(error);
                },
            };
            let ghost found = templates.deep_view();
            let sorted = sort_templates(templates);
            let mut kept: Vec<MetricKey> = Vec::new();
            for i in 0..metrics.len()
                invariant
                    raw == metrics.deep_view(),
                    keys == raw_keys(raw),
                    kept.deep_view() == keys.take(i as int),
            {
                let ghost before = kept;
                kept.push(metrics[i].key.copy());
                proof {
                    seqs::lemma_deep_push(before, kept);
                    seqs::lemma_take_push(keys, i as int);
                    assert(keys[i as int] == metrics@[i as int].key.deep_view());
                }
            }
            proof {
                seqs::lemma_take_all(keys);
                lemma_within_survives(found, sorted.deep_view(), metrics.len() as int);
            }
            self.provider = Some(owned(provider));
            self.keys = kept;
            self.templates = sorted;
        }
        proof {
            let expected = templates_upto(cat, provider@, keys, keys.len() as int)->Ok_0;
            let f = |template: TemplateModel| filled(raw, template);
            seqs::lemma_map_keeps_multisets(self.templates.deep_view(), expected, f);
            let readings = fill(raw, self.templates.deep_view());
            assert forall|i: int, j: int| 0 <= i < j < readings.len() implies !model::key_before(
                (#[trigger] readings[j]).key,
                (#[trigger] readings[i]).key,
            ) by {
                let t = template_keys(self.templates.deep_view());
                assert(readings[i].key == t[i] && readings[j].key == t[j]);
            }
        }
        Ok(fill_templates(&self.templates, metrics))
    }
}

proof fn lemma_within_survives(a: Seq<TemplateModel>, b: Seq<TemplateModel>, count: int)
    requires
        inputs_within(a, count),
        a.to_multiset() == b.to_multiset(),
    ensures
        inputs_within(b, count),
{
    broadcast use vstd::seq_lib::group_to_multiset_ensures;

    assert forall|i: int| 0 <= i < b.len() implies 0 <= (#[trigger] b[i]).input < count by {
        assert(b.contains(b[i]));
        assert(a.to_multiset().count(b[i]) > 0);
        assert(a.contains(b[i]));
        let k = choose|k: int| 0 <= k < a.len() && a[k] == b[i];
        assert(0 <= a[k].input < count);
    }
}

/// The labels of one network interface.
pub open spec fn interface_labels_of(interface: Seq<char>, ifindex: u32) -> Result<
    LabelsModel,
    MonitorValidationError,
> {
    if model::valid_value(interface) {
        Ok(
            seq![
                model::Label { label: MetricLabel::Interface, value: interface },
                model::Label {
                    label: MetricLabel::Ifindex,
                    value: text::decimal(ifindex as nat),
                },
            ],
        )
    } else {
        Err(MonitorValidationError::InvalidLabelValue)
    }
}

pub fn interface_labels(interface: &str, ifindex: u32) -> (result: Result<
    MetricLabels,
    MonitorValidationError,
>)
    ensures
        interface_labels_of(interface@, ifindex) == match result {
            Ok(labels) => Ok(labels.deep_view()),
            Err(error) => Err(error),
        },
        result matches Ok(labels) ==> labels.wf(),
{
    let mut labels = MetricLabels::none();
    if let Err(error) = labels.put(MetricLabel::Interface, owned(interface)) {
        return Err(error);
    }
    let ghost one = seq![model::Label { label: MetricLabel::Interface, value: interface@ }];
    proof {
        assert(labels.deep_view() =~= one);
        assert(one.drop_last() =~= LabelsModel::empty());
        assert(model::label_value(one.drop_last(), MetricLabel::Ifindex) is None);
        assert(model::label_value(one, MetricLabel::Ifindex) is None);
        assert(model::label_slot(one, MetricLabel::Ifindex) == 1);
        text::lemma_decimal_is_short(ifindex as nat);
        model::lemma_decimal_is_valid(ifindex as nat);
    }
    let result = labels.put(MetricLabel::Ifindex, decimal_text(ifindex as u128));
    proof {
        assert(labels.deep_view() =~= one.push(
            model::Label { label: MetricLabel::Ifindex, value: text::decimal(ifindex as nat) },
        ));
        assert(labels.deep_view() =~= interface_labels_of(interface@, ifindex)->Ok_0);
    }
    match result {
        Ok(()) => Ok(labels),
        Err(error) => Err(error),
    }
}

/// What the kernel counts for a link.
#[derive(Clone, Debug, PartialEq, Eq)]
pub struct LinkCounters {
    pub interface: String,
    pub ifindex: u32,
    pub counter_bits: u32,
    pub values: Vec<u64>,
    pub carrier_changes: Option<u32>,
}

/// What a contract says of a link's counters.
#[verifier::ext_equal]
pub struct LinkModel {
    pub interface: Seq<char>,
    pub ifindex: u32,
    pub counter_bits: u32,
    pub values: Seq<u64>,
    pub carrier_changes: Option<u32>,
}

impl DeepView for LinkCounters {
    type V = LinkModel;

    open spec fn deep_view(&self) -> LinkModel {
        LinkModel {
            interface: self.interface@,
            ifindex: self.ifindex,
            counter_bits: self.counter_bits,
            values: self.values@,
            carrier_changes: self.carrier_changes,
        }
    }
}

/// How many link counters have a name.
pub const LINK_COUNTERS: usize = 25;

/// The name of the link counter at a position.
pub open spec fn link_counter(i: int) -> Seq<char> {
    seq![
        "rx_packets"@,
        "tx_packets"@,
        "rx_bytes"@,
        "tx_bytes"@,
        "rx_errors"@,
        "tx_errors"@,
        "rx_dropped"@,
        "tx_dropped"@,
        "multicast"@,
        "collisions"@,
        "rx_length_errors"@,
        "rx_over_errors"@,
        "rx_crc_errors"@,
        "rx_frame_errors"@,
        "rx_fifo_errors"@,
        "rx_missed_errors"@,
        "tx_aborted_errors"@,
        "tx_carrier_errors"@,
        "tx_fifo_errors"@,
        "tx_heartbeat_errors"@,
        "tx_window_errors"@,
        "rx_compressed"@,
        "tx_compressed"@,
        "rx_nohandler"@,
        "rx_otherhost_dropped"@,
    ][i]
}

pub fn link_counter_name(i: usize) -> (name: &'static str)
    requires
        i < LINK_COUNTERS,
    ensures
        name@ == link_counter(i as int),
{
    match i {
        0 => "rx_packets",
        1 => "tx_packets",
        2 => "rx_bytes",
        3 => "tx_bytes",
        4 => "rx_errors",
        5 => "tx_errors",
        6 => "rx_dropped",
        7 => "tx_dropped",
        8 => "multicast",
        9 => "collisions",
        10 => "rx_length_errors",
        11 => "rx_over_errors",
        12 => "rx_crc_errors",
        13 => "rx_frame_errors",
        14 => "rx_fifo_errors",
        15 => "rx_missed_errors",
        16 => "tx_aborted_errors",
        17 => "tx_carrier_errors",
        18 => "tx_fifo_errors",
        19 => "tx_heartbeat_errors",
        20 => "tx_window_errors",
        21 => "rx_compressed",
        22 => "tx_compressed",
        23 => "rx_nohandler",
        _ => "rx_otherhost_dropped",
    }
}

/// How many counters a link has: the named values, and the carrier changes if they
/// are known.
pub open spec fn named_values(link: LinkModel) -> int {
    if link.values.len() < LINK_COUNTERS {
        link.values.len() as int
    } else {
        LINK_COUNTERS as int
    }
}

/// The template of one named link counter, if it is catalogued.
pub open spec fn link_template(
    catalog: CatalogModel,
    labels: LabelsModel,
    input: int,
    name: Seq<char>,
    form: ReadingForm,
) -> Option<TemplateModel> {
    match catalog::metric_for_source(catalog, RTNETLINK_LINK@, name) {
        Some(i) => Some(
            TemplateModel { key: KeyModel { metric: catalog[i].id, labels }, input, form },
        ),
        None => None,
    }
}

/// A list with one more element, if there is one.
pub open spec fn with_some<A>(list: Seq<A>, item: Option<A>) -> Seq<A> {
    match item {
        Some(item) => list.push(item),
        None => list,
    }
}

/// The templates of the first `n` values of a link.
pub open spec fn value_templates(
    catalog: CatalogModel,
    labels: LabelsModel,
    input: int,
    n: int,
) -> Seq<TemplateModel>
    decreases n,
{
    if n <= 0 {
        Seq::empty()
    } else {
        with_some(
            value_templates(catalog, labels, input, n - 1),
            link_template(
                catalog,
                labels,
                input,
                link_counter(n - 1),
                ReadingForm::LinkValue((n - 1) as usize),
            ),
        )
    }
}

/// The templates of one link.
pub open spec fn templates_of_link(
    catalog: CatalogModel,
    labels: LabelsModel,
    input: int,
    link: LinkModel,
) -> Seq<TemplateModel> {
    let values = value_templates(catalog, labels, input, named_values(link));
    if link.carrier_changes is Some {
        with_some(
            values,
            link_template(
                catalog,
                labels,
                input,
                "carrier_changes"@,
                ReadingForm::CarrierChanges,
            ),
        )
    } else {
        values
    }
}

/// The templates of the first `n` links, or the first error.
pub open spec fn link_templates_upto(
    catalog: CatalogModel,
    links: Seq<LinkModel>,
    n: int,
) -> Result<Seq<TemplateModel>, MonitorValidationError>
    decreases n,
{
    if n <= 0 {
        Ok(Seq::empty())
    } else {
        let link = links[n - 1];
        match (
            link_templates_upto(catalog, links, n - 1),
            interface_labels_of(link.interface, link.ifindex),
        ) {
            (Err(error), _) => Err(error),
            (Ok(_), Err(error)) => Err(error),
            (Ok(before), Ok(labels)) => Ok(
                before + templates_of_link(catalog, labels, n - 1, link),
            ),
        }
    }
}

/// The width of a counter that claims `bits`.
pub open spec fn width(bits: u32) -> CounterBits {
    if bits == 64 {
        CounterBits::Bits64
    } else {
        CounterBits::Bits32
    }
}

/// The reading that a template makes of link counters.
pub open spec fn filled_link(links: Seq<LinkModel>, template: TemplateModel) -> ReadingModel {
    let link = links[template.input];
    ReadingModel {
        key: template.key,
        outcome: ReadingOutcome::Observed(
            match template.form {
                ReadingForm::LinkValue(k) => MetricReading::Counter {
                    value: link.values[k as int],
                    bits: Some(width(link.counter_bits)),
                },
                _ => MetricReading::Counter {
                    value: link.carrier_changes->0 as u64,
                    bits: Some(CounterBits::Bits32),
                },
            },
        ),
    }
}

/// The readings that templates make of link counters.
pub open spec fn fill_links(links: Seq<LinkModel>, templates: Seq<TemplateModel>) -> Seq<
    ReadingModel,
> {
    templates.map_values(|template: TemplateModel| filled_link(links, template))
}

/// The readings of link counters, in the order of the links and their counters.
pub open spec fn translated_links(catalog: CatalogModel, links: Seq<LinkModel>) -> Result<
    Seq<ReadingModel>,
    MonitorValidationError,
> {
    match link_templates_upto(catalog, links, links.len() as int) {
        Err(error) => Err(error),
        Ok(templates) => Ok(fill_links(links, templates)),
    }
}

/// Whether every template finds its value in the links.
pub open spec fn forms_within(links: Seq<LinkModel>, templates: Seq<TemplateModel>) -> bool {
    forall|i: int|
        0 <= i < templates.len() ==> form_within(links, #[trigger] templates[i])
}

pub open spec fn form_within(links: Seq<LinkModel>, template: TemplateModel) -> bool {
    0 <= template.input < links.len() && match template.form {
        ReadingForm::LinkValue(k) => k < links[template.input].values.len(),
        ReadingForm::CarrierChanges => links[template.input].carrier_changes is Some,
        _ => false,
    }
}

fn find_link_template(
    catalog: &MetricCatalog,
    labels: &MetricLabels,
    input: usize,
    name: &str,
    form: ReadingForm,
) -> (template: Option<ReadingTemplate>)
    ensures
        template.deep_view() == link_template(
            catalog.deep_view(),
            labels.deep_view(),
            input as int,
            name@,
            form,
        ),
{
    match catalog.descriptor_for_source(RTNETLINK_LINK, name) {
        Some(descriptor) => Some(
            ReadingTemplate {
                identity: SeriesKey { metric: descriptor.id.clone(), labels: labels.copy() },
                input,
                form,
            },
        ),
        None => None,
    }
}

/// Appends the templates of one link.
fn append_link_templates(
    catalog: &MetricCatalog,
    links: &Vec<LinkCounters>,
    input: usize,
    labels: &MetricLabels,
    templates: &mut Vec<ReadingTemplate>,
)
    requires
        input < links.len(),
        forms_within(links.deep_view(), old(templates).deep_view()),
    ensures
        final(templates).deep_view() == old(templates).deep_view() + templates_of_link(
            catalog.deep_view(),
            labels.deep_view(),
            input as int,
            links.deep_view()[input as int],
        ),
        forms_within(links.deep_view(), final(templates).deep_view()),
{
    let ghost cat = catalog.deep_view();
    let ghost all = links.deep_view();
    let ghost given = templates.deep_view();
    let link = &links[input];
    assert(all[input as int] == link.deep_view());
    let count: usize = if link.values.len() < LINK_COUNTERS {
        link.values.len()
    } else {
        LINK_COUNTERS
    };
    assert(given + Seq::<TemplateModel>::empty() =~= given);
    for k in 0..count
        invariant
            input < links.len(),
            count <= link.values.len(),
            count <= LINK_COUNTERS,
            link == links@[input as int],
            all == links.deep_view(),
            all[input as int] == link.deep_view(),
            cat == catalog.deep_view(),
            templates.deep_view() == given + value_templates(
                cat,
                labels.deep_view(),
                input as int,
                k as int,
            ),
            forms_within(all, templates.deep_view()),
    {
        let ghost before = *templates;
        let ghost values = value_templates(cat, labels.deep_view(), input as int, k as int);
        if let Some(template) = find_link_template(
            catalog,
            labels,
            input,
            link_counter_name(k),
            ReadingForm::LinkValue(k),
        ) {
            let ghost item = template.deep_view();
            templates.push(template);
            proof {
                seqs::lemma_deep_push(before, *templates);
                assert((given + values).push(item) =~= given + values.push(item));
                assert forall|i: int| 0 <= i < templates.deep_view().len() implies form_within(
                    all,
                    #[trigger] templates.deep_view()[i],
                ) by {
                    if i < before.deep_view().len() {
                        assert(templates.deep_view()[i] == before.deep_view()[i]);
                    }
                }
            }
        }
    }
    if link.carrier_changes.is_some() {
        let ghost before = *templates;
        let ghost values = value_templates(cat, labels.deep_view(), input as int, count as int);
        if let Some(template) = find_link_template(
            catalog,
            labels,
            input,
            "carrier_changes",
            ReadingForm::CarrierChanges,
        ) {
            let ghost item = template.deep_view();
            templates.push(template);
            proof {
                seqs::lemma_deep_push(before, *templates);
                assert((given + values).push(item) =~= given + values.push(item));
                assert forall|i: int| 0 <= i < templates.deep_view().len() implies form_within(
                    all,
                    #[trigger] templates.deep_view()[i],
                ) by {
                    if i < before.deep_view().len() {
                        assert(templates.deep_view()[i] == before.deep_view()[i]);
                    }
                }
            }
        }
    }
}

proof fn lemma_first_link_error(catalog: CatalogModel, links: Seq<LinkModel>, m: int, n: int)
    requires
        0 <= m <= n,
        link_templates_upto(catalog, links, m) is Err,
    ensures
        link_templates_upto(catalog, links, n) == link_templates_upto(catalog, links, m),
    decreases n,
{
    if m < n {
        lemma_first_link_error(catalog, links, m, n - 1);
    }
}

/// The templates of link counters.
fn find_link_templates(catalog: &MetricCatalog, links: &Vec<LinkCounters>) -> (result: Result<
    Vec<ReadingTemplate>,
    MonitorValidationError,
>)
    ensures
        link_templates_upto(catalog.deep_view(), links.deep_view(), links.len() as int)
            == match result {
            Ok(templates) => Ok(templates.deep_view()),
            Err(error) => Err(error),
        },
        result matches Ok(templates) ==> forms_within(links.deep_view(), templates.deep_view()),
{
    let ghost cat = catalog.deep_view();
    let ghost all = links.deep_view();
    let mut templates: Vec<ReadingTemplate> = Vec::new();
    assert(templates.deep_view() =~= Seq::<TemplateModel>::empty());
    for i in 0..links.len()
        invariant
            cat == catalog.deep_view(),
            all == links.deep_view(),
            link_templates_upto(cat, all, i as int) == Ok::<
                Seq<TemplateModel>,
                MonitorValidationError,
            >(templates.deep_view()),
            forms_within(all, templates.deep_view()),
    {
        assert(all[i as int] == links@[i as int].deep_view());
        match interface_labels(links[i].interface.as_str(), links[i].ifindex) {
            Err(error) => {
                proof {
                    lemma_first_link_error(cat, all, i as int + 1, links.len() as int);
                }
                return Err(error);
            },
            Ok(labels) => {
                append_link_templates(catalog, links, i, &labels, &mut templates);
            },
        }
    }
    Ok(templates)
}

/// Fills templates with link counters.
fn fill_link_templates(templates: &Vec<ReadingTemplate>, links: &Vec<LinkCounters>) -> (readings:
    Vec<SampleReading>)
    requires
        forms_within(links.deep_view(), templates.deep_view()),
    ensures
        readings.deep_view() == fill_links(links.deep_view(), templates.deep_view()),
{
    let ghost all = templates.deep_view();
    let ghost raw = links.deep_view();
    let ghost target = fill_links(raw, all);
    let mut readings: Vec<SampleReading> = Vec::new();
    for i in 0..templates.len()
        invariant
            all == templates.deep_view(),
            raw == links.deep_view(),
            target == fill_links(raw, all),
            forms_within(raw, all),
            readings.deep_view() == target.take(i as int),
    {
        let template = &templates[i];
        assert(all[i as int] == template.deep_view());
        assert(form_within(raw, all[i as int]));
        let link = &links[template.input];
        assert(raw[template.input as int] == link.deep_view());
        let (value, bits) = match template.form {
            ReadingForm::LinkValue(k) => (
                link.values[k],
                if link.counter_bits == 64 {
                    CounterBits::Bits64
                } else {
                    CounterBits::Bits32
                },
            ),
            _ => (
                match link.carrier_changes {
                    Some(changes) => changes as u64,
                    None => 0,
                },
                CounterBits::Bits32,
            ),
        };
        let ghost before = readings;
        readings.push(
            SampleReading::observed(
                template.identity.metric.clone(),
                template.identity.labels.copy(),
                MetricReading::Counter { value, bits: Some(bits) },
            ),
        );
        proof {
            seqs::lemma_deep_push(before, readings);
            seqs::lemma_take_push(target, i as int);
            assert(readings@.last().deep_view() == target[i as int]);
        }
    }
    proof {
        seqs::lemma_take_all(target);
    }
    readings
}

/// The readings of link counters, in the order of the links and their counters.
pub fn translate_link_counters(catalog: &MetricCatalog, links: &Vec<LinkCounters>) -> (result:
    Result<Vec<SampleReading>, MonitorValidationError>)
    ensures
        translated_links(catalog.deep_view(), links.deep_view()) == match result {
            Ok(readings) => Ok(readings.deep_view()),
            Err(error) => Err(error),
        },
{
    match find_link_templates(catalog, links) {
        Err(error) => Err(error),
        Ok(templates) => Ok(fill_link_templates(&templates, links)),
    }
}

/// What is kept of a link to tell whether its templates still hold.
#[derive(Clone, Debug, PartialEq, Eq)]
pub struct LinkSchema {
    pub interface: String,
    pub ifindex: u32,
    pub fields: usize,
    pub carrier_changes: bool,
}

/// Whether a link has the identity and the counters that are kept of it.
pub open spec fn fits_schema(schema: LinkSchema, link: LinkModel) -> bool {
    &&& schema.interface@ == link.interface
    &&& schema.ifindex == link.ifindex
    &&& schema.fields == link.values.len()
    &&& schema.carrier_changes == (link.carrier_changes is Some)
}

/// Whether links have the identities and the counters that are kept of them.
pub open spec fn fit_schemas(schemas: Seq<LinkSchema>, links: Seq<LinkModel>) -> bool {
    schemas.len() == links.len() && forall|i: int|
        0 <= i < links.len() ==> fits_schema(#[trigger] schemas[i], links[i])
}

/// Links that fit the same schemas have the same templates.
proof fn lemma_same_schema(
    catalog: CatalogModel,
    schemas: Seq<LinkSchema>,
    a: Seq<LinkModel>,
    b: Seq<LinkModel>,
    n: int,
)
    requires
        fit_schemas(schemas, a),
        fit_schemas(schemas, b),
        0 <= n <= a.len(),
    ensures
        link_templates_upto(catalog, a, n) == link_templates_upto(catalog, b, n),
    decreases n,
{
    if n > 0 {
        lemma_same_schema(catalog, schemas, a, b, n - 1);
        assert(fits_schema(schemas[n - 1], a[n - 1]) && fits_schema(schemas[n - 1], b[n - 1]));
    }
}

/// How many counters the first `n` links have.
pub open spec fn counters_upto(links: Seq<LinkModel>, n: int) -> int
    decreases n,
{
    if n <= 0 {
        0
    } else {
        counters_upto(links, n - 1) + named_values(links[n - 1]) + if links[n
            - 1].carrier_changes is Some {
            1int
        } else {
            0
        }
    }
}

/// Whether links have more counters than a provider may have readings.
fn too_many_counters(links: &Vec<LinkCounters>) -> (many: bool)
    ensures
        many == (counters_upto(links.deep_view(), links.len() as int) > MAX_READINGS_PER_PROVIDER),
{
    let ghost all = links.deep_view();
    let mut total: usize = 0;
    let mut i: usize = 0;
    while i < links.len()
        invariant
            i <= links.len(),
            all == links.deep_view(),
            total <= MAX_READINGS_PER_PROVIDER,
            total == counters_upto(all, i as int),
        decreases links.len() - i,
    {
        let link = &links[i];
        assert(all[i as int] == link.deep_view());
        let values: usize = if link.values.len() < LINK_COUNTERS {
            link.values.len()
        } else {
            LINK_COUNTERS
        };
        let more: usize = if link.carrier_changes.is_some() {
            values + 1
        } else {
            values
        };
        total = total + more;
        i += 1;
        if total > MAX_READINGS_PER_PROVIDER {
            proof {
                lemma_counters_grow(all, i as int, links.len() as int);
            }
            return true;
        }
    }
    false
}

proof fn lemma_counters_grow(links: Seq<LinkModel>, m: int, n: int)
    requires
        0 <= m <= n,
    ensures
        counters_upto(links, m) <= counters_upto(links, n),
    decreases n,
{
    if m < n {
        lemma_counters_grow(links, m, n - 1);
    }
}

/// The templates of the links that were seen last.
#[derive(Clone, Debug, PartialEq, Eq)]
pub struct LinkReadingsCache {
    pub interfaces: Vec<LinkSchema>,
    pub templates: Vec<ReadingTemplate>,
}

impl LinkReadingsCache {
    /// For all links that fit the kept schemas, the kept templates are theirs, in
    /// canonical order.
    pub open spec fn wf(&self, catalog: CatalogModel) -> bool {
        forall|links: Seq<LinkModel>| #[trigger]
            fit_schemas(self.interfaces@, links) ==> {
                &&& link_templates_upto(catalog, links, links.len() as int) matches Ok(templates)
                    && self.templates.deep_view().to_multiset() == templates.to_multiset()
                &&& order::keys_sorted(template_keys(self.templates.deep_view()))
                &&& forms_within(links, self.templates.deep_view())
            }
    }

    pub fn new() -> (cache: LinkReadingsCache)
        ensures
            forall|catalog: CatalogModel| #[trigger] cache.wf(catalog),
            cache.templates.len() == 0,
    {
        let cache = LinkReadingsCache { interfaces: Vec::new(), templates: Vec::new() };
        assert(cache.templates.deep_view() =~= Seq::<TemplateModel>::empty());
        cache
    }

    /// Whether the links have the kept identities and counters.
    fn remembers(&self, links: &Vec<LinkCounters>) -> (same: bool)
        ensures
            same == fit_schemas(self.interfaces@, links.deep_view()),
    {
        let ghost all = links.deep_view();
        assert(all.len() == links.len());
        if self.interfaces.len() != links.len() {
            return false;
        }
        let mut i: usize = 0;
        while i < links.len()
            invariant
                i <= links.len() == self.interfaces.len(),
                all == links.deep_view(),
                forall|j: int| 0 <= j < i ==> fits_schema(#[trigger] self.interfaces@[j], all[j]),
            decreases links.len() - i,
        {
            let schema = &self.interfaces[i];
            let link = &links[i];
            assert(all[i as int] == link.deep_view());
            if !(same_text(schema.interface.as_str(), link.interface.as_str()) && schema.ifindex
                == link.ifindex && schema.fields == link.values.len() && schema.carrier_changes
                == link.carrier_changes.is_some()) {
                assert(!fits_schema(self.interfaces@[i as int], all[i as int]));
                return false;
            }
            i += 1;
        }
        true
    }

    /// The readings of link counters, in canonical order. What was kept of earlier
    /// links never shows. More counters than a provider may have are translated as
    /// they come, unless they were kept.
    pub fn translate(&mut self, catalog: &MetricCatalog, links: &Vec<LinkCounters>) -> (result:
        Result<Vec<SampleReading>, MonitorValidationError>)
        requires
            old(self).wf(catalog.deep_view()),
        ensures
            final(self).wf(catalog.deep_view()),
            match (result, translated_links(catalog.deep_view(), links.deep_view())) {
                (Ok(readings), Ok(expected)) => {
                    &&& readings.deep_view().to_multiset() == expected.to_multiset()
                    &&& counters_upto(links.deep_view(), links.len() as int)
                        <= MAX_READINGS_PER_PROVIDER ==> model::readings_sorted(
                        readings.deep_view(),
                    )
                },
                (Err(error), Err(expected)) => error == expected,
                _ => false,
            },
            counters_upto(links.deep_view(), links.len() as int) > MAX_READINGS_PER_PROVIDER
                && !fit_schemas(old(self).interfaces@, links.deep_view()) ==> final(
                self).templates.len() == 0,
    {
        let ghost cat = catalog.deep_view();
        let ghost all = links.deep_view();
        if !self.remembers(links) {
            if too_many_counters(links) {
                self.interfaces = Vec::new();
                self.templates = Vec::new();
                assert(self.templates.deep_view() =~= Seq::<TemplateModel>::empty());
                return translate_link_counters(catalog, links);
            }
            let templates = match find_link_templates(catalog, links) {
                Ok(templates) => templates,
                Err(error) => {
                    return Err(error);
                },
            };
            let ghost found = templates.deep_view();
            let sorted = sort_templates(templates);
            let mut schemas: Vec<LinkSchema> = Vec::new();
            for i in 0..links.len()
                invariant
                    all == links.deep_view(),
                    schemas.len() == i,
                    forall|j: int| 0 <= j < i ==> fits_schema(#[trigger] schemas@[j], all[j]),
            {
                assert(all[i as int] == links@[i as int].deep_view());
                schemas.push(
                    LinkSchema {
                        interface: links[i].interface.clone(),
                        ifindex: links[i].ifindex,
                        fields: links[i].values.len(),
                        carrier_changes: links[i].carrier_changes.is_some(),
                    },
                );
            }
            proof {
                let kept = sorted.deep_view();
                assert(fit_schemas(schemas@, all));
                assert forall|other: Seq<LinkModel>| #[trigger]
                    fit_schemas(schemas@, other) implies {
                    &&& link_templates_upto(cat, other, other.len() as int) matches Ok(templates)
                        && kept.to_multiset() == templates.to_multiset()
                    &&& order::keys_sorted(template_keys(kept))
                    &&& forms_within(other, kept)
                } by {
                    lemma_same_schema(cat, schemas@, all, other, all.len() as int);
                    lemma_forms_survive(schemas@, all, other, found, kept);
                }
            }
            self.interfaces = schemas;
            self.templates = sorted;
        }
        proof {
            assert(fit_schemas(self.interfaces@, all));
            let expected = link_templates_upto(cat, all, all.len() as int)->Ok_0;
            let f = |template: TemplateModel| filled_link(all, template);
            seqs::lemma_map_keeps_multisets(self.templates.deep_view(), expected, f);
            let readings = fill_links(all, self.templates.deep_view());
            assert forall|i: int, j: int| 0 <= i < j < readings.len() implies !model::key_before(
                (#[trigger] readings[j]).key,
                (#[trigger] readings[i]).key,
            ) by {
                let t = template_keys(self.templates.deep_view());
                assert(readings[i].key == t[i] && readings[j].key == t[j]);
            }
        }
        Ok(fill_link_templates(&self.templates, links))
    }
}

proof fn lemma_forms_survive(
    schemas: Seq<LinkSchema>,
    links: Seq<LinkModel>,
    other: Seq<LinkModel>,
    a: Seq<TemplateModel>,
    b: Seq<TemplateModel>,
)
    requires
        fit_schemas(schemas, links),
        fit_schemas(schemas, other),
        forms_within(links, a),
        a.to_multiset() == b.to_multiset(),
    ensures
        forms_within(other, b),
{
    broadcast use vstd::seq_lib::group_to_multiset_ensures;

    assert forall|i: int| 0 <= i < b.len() implies form_within(other, #[trigger] b[i]) by {
        assert(b.contains(b[i]));
        assert(a.to_multiset().count(b[i]) > 0);
        assert(a.contains(b[i]));
        let k = choose|k: int| 0 <= k < a.len() && a[k] == b[i];
        assert(form_within(links, a[k]));
        assert(fits_schema(schemas[b[i].input], links[b[i].input]));
        assert(fits_schema(schemas[b[i].input], other[b[i].input]));
    }
}

/// Which processors handle the interrupts of an interface.
#[derive(Clone, Debug, PartialEq, Eq)]
pub struct AffinityRecord {
    pub interface: String,
    pub ifindex: u32,
    pub cpu_list: Option<String>,
    pub complete: bool,
}

/// The metric of interrupt affinity.
pub const AFFINITY_METRIC: &'static str = "linux.hardirq.affinity";

/// The reading of an affinity record: a list that is not complete is not shown in
/// part.
pub open spec fn affinity_reading(record: AffinityRecord) -> Result<
    ReadingModel,
    MonitorValidationError,
> {
    match interface_labels_of(record.interface@, record.ifindex) {
        Err(error) => Err(error),
        Ok(labels) => {
            let key = KeyModel { metric: AFFINITY_METRIC@, labels };
            let missing = ReadingOutcome::Unavailable(UnavailableReason::Missing);
            let invalid = ReadingOutcome::Unavailable(UnavailableReason::InvalidValue);
            if !record.complete {
                Ok(ReadingModel { key, outcome: missing })
            } else {
                match record.cpu_list {
                    None => Ok(ReadingModel { key, outcome: invalid }),
                    Some(list) => if model::valid_value(list@) {
                        Ok(
                            ReadingModel {
                                key,
                                outcome: ReadingOutcome::Observed(MetricReading::State(list@)),
                            },
                        )
                    } else {
                        Err(MonitorValidationError::InvalidStateValue)
                    },
                }
            }
        },
    }
}

pub fn translate_affinity(record: &AffinityRecord) -> (result: Result<
    SampleReading,
    MonitorValidationError,
>)
    ensures
        affinity_reading(*record) == match result {
            Ok(reading) => Ok(reading.deep_view()),
            Err(error) => Err(error),
        },
{
    let labels = match interface_labels(record.interface.as_str(), record.ifindex) {
        Ok(labels) => labels,
        Err(error) => {
            return Err(error);
        },
    };
    let metric = owned(AFFINITY_METRIC);
    if !record.complete {
        return Ok(SampleReading::unavailable(metric, labels, UnavailableReason::Missing));
    }
    match &record.cpu_list {
        None => Ok(SampleReading::unavailable(metric, labels, UnavailableReason::InvalidValue)),
        Some(list) => if model::is_bounded_printable(
            list.as_str(),
            model::MAX_LABEL_VALUE_BYTES,
        ) {
            Ok(SampleReading::observed(metric, labels, MetricReading::State(list.clone())))
        } else {
            Err(MonitorValidationError::InvalidStateValue)
        },
    }
}

/// Readings of affinity records behind other readings, up to record `n`.
pub open spec fn with_affinities(
    readings: Seq<ReadingModel>,
    records: Seq<AffinityRecord>,
    n: int,
) -> Result<Seq<ReadingModel>, MonitorValidationError>
    decreases n,
{
    if n <= 0 {
        Ok(readings)
    } else {
        match (with_affinities(readings, records, n - 1), affinity_reading(records[n - 1])) {
            (Err(error), _) => Err(error),
            (Ok(_), Err(error)) => Err(error),
            (Ok(before), Ok(reading)) => Ok(before.push(reading)),
        }
    }
}

proof fn lemma_first_affinity_error(
    readings: Seq<ReadingModel>,
    records: Seq<AffinityRecord>,
    m: int,
    n: int,
)
    requires
        0 <= m <= n,
        with_affinities(readings, records, m) is Err,
    ensures
        with_affinities(readings, records, n) == with_affinities(readings, records, m),
    decreases n,
{
    if m < n {
        lemma_first_affinity_error(readings, records, m, n - 1);
    }
}

/// The readings of an interrupt collection: the counters, then the affinities.
pub open spec fn hardirq_readings(
    catalog: CatalogModel,
    metrics: Seq<RawSampleModel>,
    records: Seq<AffinityRecord>,
) -> Result<Seq<ReadingModel>, MonitorValidationError> {
    match translated(catalog, PROC_INTERRUPTS@, metrics) {
        Err(error) => Err(error),
        Ok(readings) => with_affinities(readings, records, records.len() as int),
    }
}

pub fn translate_hardirq_collection(
    catalog: &MetricCatalog,
    metrics: &Vec<MetricSample>,
    affinities: &Vec<AffinityRecord>,
) -> (result: Result<Vec<SampleReading>, MonitorValidationError>)
    ensures
        hardirq_readings(catalog.deep_view(), metrics.deep_view(), affinities@) == match result {
            Ok(readings) => Ok(readings.deep_view()),
            Err(error) => Err(error),
        },
{
    let mut readings = match translate_metrics(catalog, PROC_INTERRUPTS, metrics) {
        Ok(readings) => readings,
        Err(error) => {
            return Err(error);
        },
    };
    let ghost counters = readings.deep_view();
    for i in 0..affinities.len()
        invariant
            translated(catalog.deep_view(), PROC_INTERRUPTS@, metrics.deep_view()) == Ok::<
                Seq<ReadingModel>,
                MonitorValidationError,
            >(counters),
            with_affinities(counters, affinities@, i as int) == Ok::<
                Seq<ReadingModel>,
                MonitorValidationError,
            >(readings.deep_view()),
    {
        match translate_affinity(&affinities[i]) {
            Err(error) => {
                proof {
                    lemma_first_affinity_error(
                        counters,
                        affinities@,
                        i as int + 1,
                        affinities.len() as int,
                    );
                }
                return Err(error);
            },
            Ok(reading) => {
                let ghost before = readings;
                readings.push(reading);
                proof {
                    seqs::lemma_deep_push(before, readings);
                }
            },
        }
    }
    Ok(readings)
}

/// When a collection ran, on the clock of the session.
#[derive(Clone, Copy, Debug, PartialEq, Eq, Structural)]
pub struct CollectionTiming {
    pub finished_at: Nanos,
    pub collection_duration: Nanos,
}

/// A collection cannot have taken longer than the session lasts.
pub open spec fn timing_of(session_start: Nanos, started: Nanos, finished: Nanos) -> CollectionTiming {
    let finished_at = if finished >= session_start {
        (finished - session_start) as Nanos
    } else {
        0
    };
    let duration = if finished >= started {
        (finished - started) as Nanos
    } else {
        0
    };
    CollectionTiming {
        finished_at,
        collection_duration: if duration < finished_at {
            duration
        } else {
            finished_at
        },
    }
}

impl CollectionTiming {
    /// The timing of a collection, from readings of one monotonic clock.
    pub fn observed(session_start: Nanos, started: Nanos, finished: Nanos) -> (timing:
        CollectionTiming)
        ensures
            timing == timing_of(session_start, started, finished),
    {
        let finished_at: Nanos = finished.saturating_sub(session_start);
        let duration: Nanos = finished.saturating_sub(started);
        CollectionTiming {
            finished_at,
            collection_duration: if duration < finished_at {
                duration
            } else {
                finished_at
            },
        }
    }
}

/// What stands in front of the explanation of readings that do not validate.
pub const INVALID_READING: &'static str = "invalid translated reading: ";

/// The sample of translated readings, or of what is wrong with them.
pub open spec fn sample_of_translation(
    catalog: CatalogModel,
    provider: Seq<char>,
    timing: CollectionTiming,
    health: ProviderHealth<Seq<char>>,
    readings: Result<Seq<ReadingModel>, MonitorValidationError>,
) -> SampleModel {
    let built = match readings {
        Err(error) => Err(error),
        Ok(readings) => catalog::built_sample(
            catalog,
            provider,
            timing.finished_at,
            timing.collection_duration,
            health,
            readings,
        ),
    };
    match built {
        Ok(sample) => sample,
        Err(error) => diagnostics::failed_sample(
            provider,
            timing.finished_at,
            timing.collection_duration,
            MonitorErrorCode::Internal,
            INVALID_READING@ + diagnostics::explanation(error),
        ),
    }
}

fn invalid_reading(error: MonitorValidationError) -> (words: String)
    ensures
        words@ == INVALID_READING@ + diagnostics::explanation(error),
{
    let mut words = owned(INVALID_READING);
    words.append(explain(error));
    words
}

fn sample_translation(
    catalog: &MetricCatalog,
    provider: &str,
    timing: CollectionTiming,
    health: ProviderHealth<String>,
    readings: Result<Vec<SampleReading>, MonitorValidationError>,
) -> (sample: ProviderSample)
    ensures
        sample.deep_view() == sample_of_translation(
            catalog.deep_view(),
            provider@,
            timing,
            health.deep_view(),
            match readings {
                Ok(readings) => Ok(readings.deep_view()),
                Err(error) => Err(error),
            },
        ),
        catalog::sample_valid(catalog.deep_view(), sample.deep_view()),
{
    let built = match readings {
        Err(error) => Err(error),
        Ok(readings) => ProviderSample::new(
            catalog,
            owned(provider),
            timing.finished_at,
            timing.collection_duration,
            health,
            readings,
        ),
    };
    match built {
        Ok(sample) => sample,
        Err(error) => {
            let words = invalid_reading(error);
            error_sample(
                provider,
                timing.finished_at,
                timing.collection_duration,
                MonitorErrorCode::Internal,
                words.as_str(),
            )
        },
    }
}

/// What an attempt to collect raw values reports.
pub open spec fn attempt_report(
    catalog: CatalogModel,
    provider: Seq<char>,
    timing: CollectionTiming,
    result: Result<Seq<RawSampleModel>, AttemptError>,
) -> SampleModel {
    match result {
        Err(error) => diagnostics::failed_sample(
            provider,
            timing.finished_at,
            timing.collection_duration,
            error.code,
            error.message@,
        ),
        Ok(metrics) => sample_of_translation(
            catalog,
            provider,
            timing,
            ProviderHealth::Fresh,
            translated(catalog, provider, metrics),
        ),
    }
}

/// The sample of an attempt to collect raw values: a failed attempt says why, and
/// shows nothing of earlier ones.
pub fn collect_attempt(
    catalog: &MetricCatalog,
    cache: &mut MetricReadingsCache,
    provider: &str,
    timing: CollectionTiming,
    result: Result<Vec<MetricSample>, AttemptError>,
) -> (sample: ProviderSample)
    requires
        old(cache).wf(catalog.deep_view()),
    ensures
        final(cache).wf(catalog.deep_view()),
        sample.deep_view() == attempt_report(
            catalog.deep_view(),
            provider@,
            timing,
            match result {
                Ok(metrics) => Ok(metrics.deep_view()),
                Err(error) => Err(error),
            },
        ),
        catalog::sample_valid(catalog.deep_view(), sample.deep_view()),
{
    match result {
        Err(error) => error_sample(
            provider,
            timing.finished_at,
            timing.collection_duration,
            error.code,
            error.message.as_str(),
        ),
        Ok(metrics) => {
            let readings = cache.translate(catalog, provider, &metrics);
            proof {
                if readings is Ok {
                    let found = readings->Ok_0;
                    catalog::samples_ignore_the_order_of_readings(
                        catalog.deep_view(),
                        provider@,
                        timing.finished_at,
                        timing.collection_duration,
                        ProviderHealth::Fresh,
                        found.deep_view(),
                        translated(catalog.deep_view(), provider@, metrics.deep_view())->Ok_0,
                    );
                }
            }
            sample_translation(catalog, provider, timing, ProviderHealth::Fresh, readings)
        },
    }
}

/// What an attempt to collect link counters reports.
pub open spec fn link_report(
    catalog: CatalogModel,
    timing: CollectionTiming,
    result: Result<Seq<LinkModel>, AttemptError>,
) -> SampleModel {
    match result {
        Err(error) => diagnostics::failed_sample(
            RTNETLINK_LINK@,
            timing.finished_at,
            timing.collection_duration,
            error.code,
            error.message@,
        ),
        Ok(links) => sample_of_translation(
            catalog,
            RTNETLINK_LINK@,
            timing,
            ProviderHealth::Fresh,
            translated_links(catalog, links),
        ),
    }
}

/// The sample of an attempt to collect link counters, and whether the link metadata
/// that came with them can be used: only with a fresh sample.
pub fn collect_rtnetlink_sample(
    catalog: &MetricCatalog,
    cache: &mut LinkReadingsCache,
    timing: CollectionTiming,
    result: Result<Vec<LinkCounters>, AttemptError>,
) -> (sample: (ProviderSample, bool))
    requires
        old(cache).wf(catalog.deep_view()),
    ensures
        final(cache).wf(catalog.deep_view()),
        sample.0.deep_view() == link_report(
            catalog.deep_view(),
            timing,
            match result {
                Ok(links) => Ok(links.deep_view()),
                Err(error) => Err(error),
            },
        ),
        sample.1 == (sample.0.deep_view().health is Fresh),
        catalog::sample_valid(catalog.deep_view(), sample.0.deep_view()),
{
    match result {
        Err(error) => (
            error_sample(
                RTNETLINK_LINK,
                timing.finished_at,
                timing.collection_duration,
                error.code,
                error.message.as_str(),
            ),
            false,
        ),
        Ok(links) => {
            let readings = cache.translate(catalog, &links);
            proof {
                if readings is Ok {
                    let found = readings->Ok_0;
                    catalog::samples_ignore_the_order_of_readings(
                        catalog.deep_view(),
                        RTNETLINK_LINK@,
                        timing.finished_at,
                        timing.collection_duration,
                        ProviderHealth::Fresh,
                        found.deep_view(),
                        translated_links(catalog.deep_view(), links.deep_view())->Ok_0,
                    );
                }
            }
            let sample = sample_translation(
                catalog,
                RTNETLINK_LINK,
                timing,
                ProviderHealth::Fresh,
                readings,
            );
            let usable: bool = sample.health.is_fresh();
            (sample, usable)
        },
    }
}

/// What was collected of the interrupts of network interfaces.
#[derive(Clone, Debug, PartialEq, Eq)]
pub struct HardirqCollection {
    pub metrics: Vec<MetricSample>,
    pub affinities: Vec<AffinityRecord>,
    /// Interrupts that more than one interface shares, and that were left out.
    pub skipped_shared_irqs: usize,
}

pub open spec fn skipped_words(skipped: nat) -> Seq<char> {
    "skipped "@ + text::decimal(skipped) + " IRQs mapped to multiple network interfaces"@
}

/// What an attempt to collect interrupts reports.
pub open spec fn hardirq_report(
    catalog: CatalogModel,
    timing: CollectionTiming,
    result: Result<HardirqCollection, AttemptError>,
) -> SampleModel {
    match result {
        Err(error) => diagnostics::failed_sample(
            PROC_INTERRUPTS@,
            timing.finished_at,
            timing.collection_duration,
            error.code,
            error.message@,
        ),
        Ok(collection) => match hardirq_readings(
            catalog,
            collection.metrics.deep_view(),
            collection.affinities@,
        ) {
            Err(error) => diagnostics::failed_sample(
                PROC_INTERRUPTS@,
                timing.finished_at,
                timing.collection_duration,
                MonitorErrorCode::Internal,
                INVALID_READING@ + diagnostics::explanation(error),
            ),
            Ok(readings) => diagnostics::sample_or_failure(
                catalog,
                PROC_INTERRUPTS@,
                timing.finished_at,
                timing.collection_duration,
                if collection.skipped_shared_irqs == 0 {
                    ProviderHealth::Fresh
                } else {
                    ProviderHealth::Partial {
                        warning: diagnostics::error_with(
                            MonitorErrorCode::Unsupported,
                            skipped_words(collection.skipped_shared_irqs as nat),
                        ),
                    }
                },
                readings,
            ),
        },
    }
}

/// The sample of an attempt to collect interrupts. Shared interrupts degrade the
/// provider.
pub fn collect_hardirq_sample(
    catalog: &MetricCatalog,
    timing: CollectionTiming,
    result: Result<HardirqCollection, AttemptError>,
) -> (sample: ProviderSample)
    ensures
        sample.deep_view() == hardirq_report(catalog.deep_view(), timing, result),
{
    let collection = match result {
        Err(error) => {
            return error_sample(
                PROC_INTERRUPTS,
                timing.finished_at,
                timing.collection_duration,
                error.code,
                error.message.as_str(),
            );
        },
        Ok(collection) => collection,
    };
    match translate_hardirq_collection(catalog, &collection.metrics, &collection.affinities) {
        Err(error) => {
            let words = invalid_reading(error);
            error_sample(
                PROC_INTERRUPTS,
                timing.finished_at,
                timing.collection_duration,
                MonitorErrorCode::Internal,
                words.as_str(),
            )
        },
        Ok(readings) => {
            let health = if collection.skipped_shared_irqs == 0 {
                ProviderHealth::Fresh
            } else {
                let mut words = owned("skipped ");
                push_decimal(&mut words, collection.skipped_shared_irqs as u128);
                words.append(" IRQs mapped to multiple network interfaces");
                ProviderHealth::Partial {
                    warning: monitor_error(MonitorErrorCode::Unsupported, words.as_str()),
                }
            };
            provider_sample(
                catalog,
                PROC_INTERRUPTS,
                timing.finished_at,
                timing.collection_duration,
                health,
                readings,
            )
        },
    }
}

} // verus!
