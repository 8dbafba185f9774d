//! Raw counter changes and events into evidence: with identities of its own, with
//! attributes from a fixed registry, and with the subjects it is about.
use crate::evidence;
use crate::evidence::{
    Attribute, AttributeValue, Attributes, AttributesModel, BpfMode, CounterStatus, Direction,
    EvidenceContext, EvidenceDescriptor, EvidenceMeta, Layer, Measurement, MeasurementBound,
    MetaModel, MetricDelta, MetricModel, MetricValues, Observation, ObservationModel,
    ProviderTelemetry, Subject, SubjectKind, SubjectModel, SubjectRef, SubjectRole, Telemetry,
    TelemetryCounters,
};
use crate::provider;
use crate::provider::{
    descriptor_for_metric_source, EVENT_SKB_FREE, PROVIDER_KFREE_SKB, PROVIDER_LINK,
    PROVIDER_SOCK_DIAG,
};
use crate::seqs;
use crate::text;
use crate::text::{debug_form, owned, parse_unsigned, push_decimal, same_text};
use crate::translate;
use crate::translate::{MetricKey, RawKeyModel, RawLabel};
use vstd::prelude::*;
use vstd::string::*;

verus! {

pub const ATTR_INTERFACE_NAME: &'static str = "linux.interface.name";

pub const ATTR_IFINDEX: &'static str = "linux.interface.index";

pub const ATTR_COUNTER_BITS: &'static str = "linux.counter.bits";

pub const ATTR_CPU_ROW: &'static str = "linux.cpu.row";

pub const ATTR_SKB_REASON_CODE: &'static str = "linux.skb.reason_code";

pub const ATTR_SKB_REASON_NAME: &'static str = "linux.skb.reason_name";

pub const ATTR_BPF_MODE: &'static str = "linux.bpf.mode";

pub const DOMAIN_KERNEL: &'static str = "linux.kernel";

pub const DOMAIN_HARDWARE: &'static str = "linux.hardware";

/// Why evidence could not be built.
#[derive(Clone, Debug, PartialEq, Eq)]
pub enum NormalizeError<T> {
    UnregisteredSource(T),
    UnregisteredLabel(T),
    /// A label whose value is not the number that it should be.
    InvalidNumber { label: T, value: T },
    DuplicateAttribute,
    /// A value that was asked for stands where an observed value belongs.
    RequestedScope,
    /// The provenance of an event does not fit its context.
    InvalidScope(T),
    /// The evidence that was built is not valid.
    InvalidEvidence(T),
}

impl DeepView for NormalizeError<String> {
    type V = NormalizeError<Seq<char>>;

    open spec fn deep_view(&self) -> NormalizeError<Seq<char>> {
        match self {
            NormalizeError::UnregisteredSource(source) => NormalizeError::UnregisteredSource(
                source@,
            ),
            NormalizeError::UnregisteredLabel(name) => NormalizeError::UnregisteredLabel(name@),
            NormalizeError::InvalidNumber { label, value } => NormalizeError::InvalidNumber {
                label: label@,
                value: value@,
            },
            NormalizeError::DuplicateAttribute => NormalizeError::DuplicateAttribute,
            NormalizeError::RequestedScope => NormalizeError::RequestedScope,
            NormalizeError::InvalidScope(why) => NormalizeError::InvalidScope(why@),
            NormalizeError::InvalidEvidence(why) => NormalizeError::InvalidEvidence(why@),
        }
    }
}

type Failure = NormalizeError<Seq<char>>;

/// The text of the input that an error quotes.
pub open spec fn quotation(error: Failure) -> Seq<char> {
    match error {
        NormalizeError::UnregisteredSource(source) => source,
        NormalizeError::UnregisteredLabel(name) => name,
        NormalizeError::InvalidNumber { value, .. } => value,
        _ => Seq::empty(),
    }
}

/// An error in words, with what it quotes in its quoted form.
pub open spec fn error_words(error: Failure, quoted: Seq<char>) -> Seq<char> {
    match error {
        NormalizeError::UnregisteredSource(_) => "unregistered metric source "@ + quoted,
        NormalizeError::UnregisteredLabel(_) => "unregistered metric label "@ + quoted,
        NormalizeError::InvalidNumber { label, .. } => "invalid "@ + label + " label "@ + quoted,
        NormalizeError::DuplicateAttribute => "duplicate normalized attribute"@,
        NormalizeError::RequestedScope => "validate raw evidence scope provenance: "@
            + "requested scope values are not observed evidence"@,
        NormalizeError::InvalidScope(why) => "validate raw evidence scope provenance: "@ + why,
        NormalizeError::InvalidEvidence(why) => "validate normalized report evidence: "@ + why,
    }
}

impl NormalizeError<String> {
    /// The error in words, with what it quotes in its quoted form.
    pub fn describe(&self, quoted: &str) -> (words: String)
        ensures
            words@ == error_words(self.deep_view(), quoted@),
    {
        match self {
            NormalizeError::UnregisteredSource(_) => {
                let mut words = owned("unregistered metric source ");
                words.append(quoted);
                words
            },
            NormalizeError::UnregisteredLabel(_) => {
                let mut words = owned("unregistered metric label ");
                words.append(quoted);
                words
            },
            NormalizeError::InvalidNumber { label, .. } => {
                let mut words = owned("invalid ");
                words.append(label.as_str());
                words.append(" label ");
                words.append(quoted);
                words
            },
            NormalizeError::DuplicateAttribute => owned("duplicate normalized attribute"),
            NormalizeError::RequestedScope => {
                let mut words = owned("validate raw evidence scope provenance: ");
                words.append("requested scope values are not observed evidence");
                words
            },
            NormalizeError::InvalidScope(why) => {
                let mut words = owned("validate raw evidence scope provenance: ");
                words.append(why.as_str());
                words
            },
            NormalizeError::InvalidEvidence(why) => {
                let mut words = owned("validate normalized report evidence: ");
                words.append(why.as_str());
                words
            },
        }
    }

    /// The error in words.
    pub fn message(&self) -> (words: String)
        ensures
            words@ == error_words(
                self.deep_view(),
                text::debug_text(quotation(self.deep_view())),
            ),
    {
        let quoted = match self {
            NormalizeError::UnregisteredSource(source) => debug_form(source.as_str()),
            NormalizeError::UnregisteredLabel(name) => debug_form(name.as_str()),
            NormalizeError::InvalidNumber { value, .. } => debug_form(value.as_str()),
            _ => String::new(),
        };
        self.describe(quoted.as_str())
    }
}

/// How a counter of a source changed.
#[derive(Clone, Debug, PartialEq, Eq)]
pub struct RawMetricDelta {
    pub key: MetricKey,
    pub start: Option<u64>,
    pub end: Option<u64>,
    pub delta: Option<u64>,
    pub reset: bool,
}

/// What a known counter means.
#[derive(Clone, Debug, PartialEq, Eq)]
pub struct MetricContract {
    pub source: String,
    pub group: String,
    pub metric: String,
    pub metric_type: String,
    pub layer: Layer,
    pub descriptor: EvidenceDescriptor<String>,
}

/// What the drop counter of a socket means.
#[derive(Clone, Debug, PartialEq, Eq)]
pub struct SocketContract {
    pub metric_type: String,
    pub descriptor: EvidenceDescriptor<String>,
}

/// What counters mean.
#[derive(Clone, Debug, PartialEq, Eq)]
pub struct Contracts {
    pub metrics: Vec<MetricContract>,
    pub socket: SocketContract,
}

/// How the drop counter of one socket changed.
#[derive(Clone, Copy, Debug, PartialEq, Eq, Structural)]
pub struct SocketDropDelta {
    pub start: u64,
    pub end: u64,
    pub delta: Option<u64>,
    pub reset: bool,
}

/// Where a value of a context comes from.
#[derive(Clone, Copy, Debug, PartialEq, Eq, Structural)]
pub enum ScopeValueProvenance {
    Observed,
    Requested,
}

/// Where the values of a context come from.
#[derive(Clone, Copy, Debug, PartialEq, Eq, Structural)]
pub struct EvidenceScopeProvenance {
    pub ingress_ifindex: Option<ScopeValueProvenance>,
    pub egress_ifindex: Option<ScopeValueProvenance>,
    pub queue_id: Option<ScopeValueProvenance>,
    pub cpu: Option<ScopeValueProvenance>,
    pub protocol: Option<ScopeValueProvenance>,
}

fn observed_if(present: bool) -> (provenance: Option<ScopeValueProvenance>)
    ensures
        provenance == (if present {
            Some(ScopeValueProvenance::Observed)
        } else {
            None
        }),
{
    if present {
        Some(ScopeValueProvenance::Observed)
    } else {
        None
    }
}

fn is_requested(provenance: Option<ScopeValueProvenance>) -> (requested: bool)
    ensures
        requested == (provenance == Some(ScopeValueProvenance::Requested)),
{
    match provenance {
        Some(ScopeValueProvenance::Requested) => true,
        _ => false,
    }
}

impl EvidenceScopeProvenance {
    /// Whether a value that was only asked for is among the values.
    pub open spec fn has_requested(self) -> bool {
        let requested = Some(ScopeValueProvenance::Requested);
        ||| self.ingress_ifindex == requested
        ||| self.egress_ifindex == requested
        ||| self.queue_id == requested
        ||| self.cpu == requested
        ||| self.protocol == requested
    }

    /// The provenance of a context whose values were all observed.
    pub fn observed(context: &EvidenceContext) -> (provenance: EvidenceScopeProvenance)
        ensures
            !provenance.has_requested(),
            provenance.ingress_ifindex is Some == context.ingress_ifindex is Some,
            provenance.egress_ifindex is Some == context.egress_ifindex is Some,
            provenance.queue_id is Some == context.queue_id is Some,
            provenance.cpu is Some == context.cpu is Some,
            provenance.protocol is Some == context.protocol is Some,
    {
        EvidenceScopeProvenance {
            ingress_ifindex: observed_if(context.ingress_ifindex.is_some()),
            egress_ifindex: observed_if(context.egress_ifindex.is_some()),
            queue_id: observed_if(context.queue_id.is_some()),
            cpu: observed_if(context.cpu.is_some()),
            protocol: observed_if(context.protocol.is_some()),
        }
    }

    fn requests(&self) -> (requested: bool)
        ensures
            requested == self.has_requested(),
    {
        is_requested(self.ingress_ifindex) || is_requested(self.egress_ifindex) || is_requested(
            self.queue_id,
        ) || is_requested(self.cpu) || is_requested(self.protocol)
    }
}

/// An event as the kernel gave it.
#[derive(Clone, Debug, PartialEq, Eq)]
pub struct RawObservation {
    pub monotonic_ns: u64,
    pub reason: Option<u32>,
    pub reason_name: Option<String>,
    pub layer: Option<Layer>,
    pub scope_provenance: EvidenceScopeProvenance,
    /// Why the provenance does not fit the context, where it does not.
    pub scope_fault: Option<String>,
    pub descriptor: EvidenceDescriptor<String>,
    pub source_mode: BpfMode,
}

/// Evidence with the subjects it is about.
#[derive(Clone, Debug, PartialEq, Eq)]
pub struct EvidenceBundle {
    pub subjects: Vec<Subject>,
    pub metrics: Vec<MetricDelta>,
    pub observations: Vec<Observation>,
}

#[verifier::ext_equal]
pub struct BundleModel {
    pub subjects: Seq<SubjectModel>,
    pub metrics: Seq<MetricModel>,
    pub observations: Seq<ObservationModel>,
}

impl DeepView for EvidenceBundle {
    type V = BundleModel;

    open spec fn deep_view(&self) -> BundleModel {
        BundleModel {
            subjects: self.subjects.deep_view(),
            metrics: self.metrics.deep_view(),
            observations: self.observations.deep_view(),
        }
    }
}

/// A hexadecimal digit.
pub open spec fn hex_digit(d: int) -> char {
    seq![
        '0',
        '1',
        '2',
        '3',
        '4',
        '5',
        '6',
        '7',
        '8',
        '9',
        'a',
        'b',
        'c',
        'd',
        'e',
        'f',
    ][d]
}

/// The first `n` bytes in hexadecimal, two digits each.
pub open spec fn hex_upto(bytes: Seq<u8>, n: int) -> Seq<char>
    decreases n,
{
    if n <= 0 {
        Seq::empty()
    } else {
        hex_upto(bytes, n - 1).push(hex_digit(bytes[n - 1] as int / 16)).push(
            hex_digit(bytes[n - 1] as int % 16),
        )
    }
}

fn hex_char(d: u8) -> (c: char)
    requires
        d < 16,
    ensures
        c == hex_digit(d as int),
{
    if d < 8 {
        if d < 4 {
            if d == 0 {
                '0'
            } else if d == 1 {
                '1'
            } else if d == 2 {
                '2'
            } else {
                '3'
            }
        } else if d == 4 {
            '4'
        } else if d == 5 {
            '5'
        } else if d == 6 {
            '6'
        } else {
            '7'
        }
    } else if d < 12 {
        if d == 8 {
            '8'
        } else if d == 9 {
            '9'
        } else if d == 10 {
            'a'
        } else {
            'b'
        }
    } else if d == 12 {
        'c'
    } else if d == 13 {
        'd'
    } else if d == 14 {
        'e'
    } else {
        'f'
    }
}

/// The identities of one report: a nonce and a number, so that reports cannot be
/// taken for one another and an identity tells nothing of what it stands for.
#[derive(Clone, Debug, PartialEq, Eq)]
pub struct ReportIdAllocator {
    pub nonce: String,
    pub evidence_counter: u64,
    pub subject_counter: u64,
}

pub open spec fn evidence_id(nonce: Seq<char>, n: nat) -> Seq<char> {
    "e_"@ + nonce + "_"@ + text::decimal(n)
}

pub open spec fn subject_id(nonce: Seq<char>, n: nat) -> Seq<char> {
    "s_"@ + nonce + "_"@ + text::decimal(n)
}

impl ReportIdAllocator {
    /// An allocator whose nonce is made of random bytes.
    pub fn new(bytes: &Vec<u8>) -> (allocator: ReportIdAllocator)
        ensures
            allocator.nonce@ == hex_upto(bytes@, bytes@.len() as int),
            allocator.evidence_counter == 0,
            allocator.subject_counter == 0,
    {
        let mut nonce = String::new();
        assert(nonce@ =~= Seq::<char>::empty());
        for i in 0..bytes.len()
            invariant
                nonce@ == hex_upto(bytes@, i as int),
        {
            nonce.push(hex_char(bytes[i] / 16));
            nonce.push(hex_char(bytes[i] % 16));
        }
        ReportIdAllocator { nonce, evidence_counter: 0, subject_counter: 0 }
    }

    pub fn next_evidence(&mut self) -> (id: String)
        requires
            old(self).evidence_counter < u64::MAX,
        ensures
            final(self).evidence_counter == old(self).evidence_counter + 1,
            final(self).nonce == old(self).nonce,
            final(self).subject_counter == old(self).subject_counter,
            id@ == evidence_id(old(self).nonce@, final(self).evidence_counter as nat),
    {
        self.evidence_counter = self.evidence_counter + 1;
        let mut id = owned("e_");
        id.append(self.nonce.as_str());
        id.append("_");
        push_decimal(&mut id, self.evidence_counter as u128);
        id
    }

    pub fn next_subject(&mut self) -> (id: String)
        requires
            old(self).subject_counter < u64::MAX,
        ensures
            final(self).subject_counter == old(self).subject_counter + 1,
            final(self).nonce == old(self).nonce,
            final(self).evidence_counter == old(self).evidence_counter,
            id@ == subject_id(old(self).nonce@, final(self).subject_counter as nat),
    {
        self.subject_counter = self.subject_counter + 1;
        let mut id = owned("s_");
        id.append(self.nonce.as_str());
        id.append("_");
        push_decimal(&mut id, self.subject_counter as u128);
        id
    }
}

/// Attributes with one more, if there is none of its name.
pub open spec fn with_attribute(
    attributes: AttributesModel,
    name: Seq<char>,
    value: AttributeValue<Seq<char>>,
) -> Result<AttributesModel, Failure> {
    if evidence::attribute(attributes, name) is None {
        Ok(attributes.push(Attribute { name, value }))
    } else {
        Err(NormalizeError::DuplicateAttribute)
    }
}

fn insert_attribute(attributes: &mut Attributes, name: &str, value: AttributeValue<String>) -> (
result: Result<(), NormalizeError<String>>)
    ensures
        with_attribute(old(attributes).deep_view(), name@, value.deep_view()) == match result {
            Ok(()) => Ok(final(attributes).deep_view()),
            Err(error) => Err(error.deep_view()),
        },
{
    if attributes.insert(name, value) {
        Ok(())
    } else {
        Err(NormalizeError::DuplicateAttribute)
    }
}

/// The attribute of a label that has to be a number.
pub open spec fn with_number(
    attributes: AttributesModel,
    name: Seq<char>,
    label: RawLabel<Seq<char>>,
) -> Result<AttributesModel, Failure> {
    match text::parsed(label.value) {
        Some(number) if number <= u64::MAX => with_attribute(
            attributes,
            name,
            AttributeValue::Unsigned(number as u64),
        ),
        _ => Err(NormalizeError::InvalidNumber { label: label.name, value: label.value }),
    }
}

fn insert_number(attributes: &mut Attributes, name: &str, label: &RawLabel<String>) -> (result:
    Result<(), NormalizeError<String>>)
    ensures
        with_number(old(attributes).deep_view(), name@, label.deep_view()) == match result {
            Ok(()) => Ok(final(attributes).deep_view()),
            Err(error) => Err(error.deep_view()),
        },
{
    match parse_unsigned(label.value.as_str(), u64::MAX) {
        Some(number) => insert_attribute(attributes, name, AttributeValue::Unsigned(number)),
        None => Err(
            NormalizeError::InvalidNumber {
                label: owned(label.name.as_str()),
                value: owned(label.value.as_str()),
            },
        ),
    }
}

/// Attributes with what a label adds. Only labels of the registry are let through.
pub open spec fn with_label(attributes: AttributesModel, label: RawLabel<Seq<char>>) -> Result<
    AttributesModel,
    Failure,
> {
    if label.name == "cpu"@ || label.name == "ifindex"@ {
        Ok(attributes)
    } else if label.name == "interface"@ {
        with_attribute(attributes, ATTR_INTERFACE_NAME@, AttributeValue::Text(label.value))
    } else if label.name == "counter_bits"@ {
        with_number(attributes, ATTR_COUNTER_BITS@, label)
    } else if label.name == "cpu_row"@ {
        with_number(attributes, ATTR_CPU_ROW@, label)
    } else {
        Err(NormalizeError::UnregisteredLabel(label.name))
    }
}

/// The attributes that the first `n` labels make.
pub open spec fn attributes_upto(labels: Seq<RawLabel<Seq<char>>>, n: int) -> Result<
    AttributesModel,
    Failure,
>
    decreases n,
{
    if n <= 0 {
        Ok(AttributesModel::empty())
    } else {
        match attributes_upto(labels, n - 1) {
            Err(error) => Err(error),
            Ok(attributes) => with_label(attributes, labels[n - 1]),
        }
    }
}

proof fn lemma_attributes_fail(labels: Seq<RawLabel<Seq<char>>>, m: int, n: int)
    requires
        m <= n,
        attributes_upto(labels, m) is Err,
    ensures
        attributes_upto(labels, n) == attributes_upto(labels, m),
    decreases n - m,
{
    if m < n {
        lemma_attributes_fail(labels, m, n - 1);
    }
}

fn metric_attributes(key: &MetricKey) -> (result: Result<Attributes, NormalizeError<String>>)
    ensures
        attributes_upto(key.deep_view().labels, key.deep_view().labels.len() as int)
            == match result {
            Ok(attributes) => Ok(attributes.deep_view()),
            Err(error) => Err(error.deep_view()),
        },
{
    let ghost labels = key.deep_view().labels;
    assert(labels.len() == key.labels@.len());
    let mut attributes = Attributes::none();
    for i in 0..key.labels.len()
        invariant
            labels == key.deep_view().labels,
            labels.len() == key.labels@.len(),
            attributes_upto(labels, i as int) == Ok::<AttributesModel, Failure>(
                attributes.deep_view(),
            ),
    {
        let label = &key.labels[i];
        assert(labels[i as int] == key.labels@[i as int].deep_view());
        let name = label.name.as_str();
        let result = if same_text(name, "cpu") || same_text(name, "ifindex") {
            Ok(())
        } else if same_text(name, "interface") {
            insert_attribute(
                &mut attributes,
                ATTR_INTERFACE_NAME,
                AttributeValue::Text(owned(label.value.as_str())),
            )
        } else if same_text(name, "counter_bits") {
            insert_number(&mut attributes, ATTR_COUNTER_BITS, label)
        } else if same_text(name, "cpu_row") {
            insert_number(&mut attributes, ATTR_CPU_ROW, label)
        } else {
            Err(NormalizeError::UnregisteredLabel(owned(name)))
        };
        if let Err(error) = result {
            proof {
                lemma_attributes_fail(labels, i as int + 1, labels.len() as int);
            }
            return Err(error);
        }
    }
    Ok(attributes)
}

/// A report under way.
#[verifier::ext_equal]
pub struct ReportModel {
    pub nonce: Seq<char>,
    pub evidence: nat,
    pub subject: nat,
    pub subjects: Seq<SubjectModel>,
    pub metrics: Seq<MetricModel>,
}

/// A report under way.
struct Draft {
    allocator: ReportIdAllocator,
    subjects: Vec<Subject>,
    metrics: Vec<MetricDelta>,
}

impl DeepView for Draft {
    type V = ReportModel;

    closed spec fn deep_view(&self) -> ReportModel {
        ReportModel {
            nonce: self.allocator.nonce@,
            evidence: self.allocator.evidence_counter as nat,
            subject: self.allocator.subject_counter as nat,
            subjects: self.subjects.deep_view(),
            metrics: self.metrics.deep_view(),
        }
    }
}

/// The attributes of an interface.
pub open spec fn interface_attributes(name: Option<Seq<char>>, ifindex: Option<u32>) -> AttributesModel {
    let named = match name {
        Some(name) => seq![
            Attribute { name: ATTR_INTERFACE_NAME@, value: AttributeValue::Text(name) },
        ],
        None => AttributesModel::empty(),
    };
    match ifindex {
        Some(ifindex) => named.push(
            Attribute { name: ATTR_IFINDEX@, value: AttributeValue::Unsigned(ifindex as u64) },
        ),
        None => named,
    }
}

fn attributes_of_interface(name: Option<&str>, ifindex: Option<u32>) -> (attributes: Attributes)
    ensures
        attributes.deep_view() == interface_attributes(
            match name {
                Some(name) => Some(name@),
                None => None,
            },
            ifindex,
        ),
{
    let mut attributes = Attributes::none();
    if let Some(name) = name {
        attributes.insert(ATTR_INTERFACE_NAME, AttributeValue::Text(owned(name)));
        assert(attributes.deep_view() =~= interface_attributes(Some(name@), None));
    }
    if let Some(ifindex) = ifindex {
        proof {
            reveal_strlit("linux.interface.name");
            reveal_strlit("linux.interface.index");
            let before = attributes.deep_view();
            let wanted = evidence::is_named(ATTR_IFINDEX@);
            assert("linux.interface.name"@.len() == 20 && "linux.interface.index"@.len() == 21);
            assert forall|i: int| 0 <= i < before.len() implies !wanted(#[trigger] before[i]) by {
                assert(before[i].name == ATTR_INTERFACE_NAME@);
            }
            seqs::lemma_first_where(before, wanted, before.len() as int);
        }
        attributes.insert(ATTR_IFINDEX, AttributeValue::Unsigned(ifindex as u64));
    }
    attributes
}

pub open spec fn is_subject(
    provider: Seq<char>,
    kind: SubjectKind,
    attributes: AttributesModel,
) -> spec_fn(SubjectModel) -> bool {
    |subject: SubjectModel|
        subject.provider == provider && subject.kind == kind && subject.attributes == attributes
}

pub open spec fn role_of(direction: Option<Direction>) -> SubjectRole {
    match direction {
        Some(Direction::Ingress) => SubjectRole::Ingress,
        Some(Direction::Egress) => SubjectRole::Egress,
        None => SubjectRole::Primary,
    }
}

/// The index of the interface that a metric is of.
pub open spec fn interface_index(key: RawKeyModel) -> Result<Option<u32>, Failure> {
    match translate::raw_label(key.labels, "ifindex"@) {
        None => Ok(None),
        Some(value) => match text::parsed(value) {
            Some(number) if number <= u32::MAX => Ok(Some(number as u32)),
            _ => Err(NormalizeError::InvalidNumber { label: "ifindex"@, value }),
        },
    }
}

/// A report with the subject that a metric is about. Each interface is one subject,
/// however many metrics it has.
pub open spec fn with_subject(
    report: ReportModel,
    provider: Seq<char>,
    key: RawKeyModel,
    direction: Option<Direction>,
) -> Result<(ReportModel, Seq<SubjectRef<Seq<char>>>), Failure> {
    let name = translate::raw_label(key.labels, "interface"@);
    if provider != PROVIDER_LINK@ {
        Ok((report, Seq::empty()))
    } else {
        match interface_index(key) {
            Err(error) => Err(error),
            Ok(ifindex) => if name is None && ifindex is None {
                Ok((report, Seq::empty()))
            } else {
                let attributes = interface_attributes(name, ifindex);
                let kind = SubjectKind::Interface;
                match seqs::first_where(
                    report.subjects,
                    is_subject(provider, kind, attributes),
                    report.subjects.len() as int,
                ) {
                    Some(i) => Ok(
                        (
                            report,
                            seq![SubjectRef { role: role_of(direction), id: report.subjects[i].id }],
                        ),
                    ),
                    None => {
                        let id = subject_id(report.nonce, report.subject + 1);
                        Ok(
                            (
                                ReportModel {
                                    subject: report.subject + 1,
                                    subjects: report.subjects.push(
                                        SubjectModel { id, provider, kind, attributes },
                                    ),
                                    ..report
                                },
                                seq![SubjectRef { role: role_of(direction), id }],
                            ),
                        )
                    },
                }
            },
        }
    }
}

fn find_subject(
    subjects: &Vec<Subject>,
    provider: &str,
    kind: SubjectKind,
    attributes: &Attributes,
) -> (found: Option<usize>)
    ensures
        seqs::first_where(
            subjects.deep_view(),
            is_subject(provider@, kind, attributes.deep_view()),
            subjects.deep_view().len() as int,
        ) == match found {
            Some(i) => Some(i as int),
            None => None,
        },
        found matches Some(i) ==> i < subjects@.len(),
{
    let ghost all = subjects.deep_view();
    let ghost wanted = is_subject(provider@, kind, attributes.deep_view());
    assert(all.len() == subjects@.len());
    let mut i: usize = 0;
    while i < subjects.len()
        invariant
            i <= subjects.len(),
            all == subjects.deep_view(),
            all.len() == subjects@.len(),
            wanted == is_subject(provider@, kind, attributes.deep_view()),
            seqs::first_where(all, wanted, i as int) is None,
        decreases subjects.len() - i,
    {
        assert(all[i as int] == subjects@[i as int].deep_view());
        if same_text(subjects[i].provider.as_str(), provider) && subjects[i].kind == kind
            && subjects[i].attributes.same(attributes) {
            proof {
                seqs::lemma_first_where_stays(all, wanted, i as int + 1, all.len() as int);
            }
            return Some(i);
        }
        i += 1;
    }
    None
}

fn metric_subjects(
    draft: &mut Draft,
    provider: &str,
    key: &MetricKey,
    direction: Option<Direction>,
) -> (result: Result<Vec<SubjectRef<String>>, NormalizeError<String>>)
    requires
        old(draft).allocator.subject_counter < u64::MAX,
    ensures
        match with_subject(old(draft).deep_view(), provider@, key.deep_view(), direction) {
            Ok((report, refs)) => result matches Ok(found) && found.deep_view() == refs
                && final(draft).deep_view() == report,
            Err(error) => result matches Err(failure) && failure.deep_view() == error,
        },
        final(draft).allocator.subject_counter <= old(draft).allocator.subject_counter + 1,
        final(draft).allocator.evidence_counter == old(draft).allocator.evidence_counter,
{
    let mut refs: Vec<SubjectRef<String>> = Vec::new();
    assert(refs.deep_view() =~= Seq::<SubjectRef<Seq<char>>>::empty());
    if !same_text(provider, PROVIDER_LINK) {
        return Ok(refs);
    }
    let name = key.label("interface");
    let ifindex: Option<u32> = match key.label("ifindex") {
        None => None,
        Some(value) => match parse_unsigned(value, u32::MAX as u64) {
            Some(number) => Some(number as u32),
            None => {
                return Err(
                    NormalizeError::InvalidNumber { label: owned("ifindex"), value: owned(value) },
                );
            },
        },
    };
    if name.is_none() && ifindex.is_none() {
        return Ok(refs);
    }
    let attributes = attributes_of_interface(name, ifindex);
    let kind = SubjectKind::Interface;
    let role = match direction {
        Some(Direction::Ingress) => SubjectRole::Ingress,
        Some(Direction::Egress) => SubjectRole::Egress,
        None => SubjectRole::Primary,
    };
    let ghost given = draft.subjects.deep_view();
    assert(given.len() == draft.subjects@.len());
    let id = match find_subject(&draft.subjects, provider, kind, &attributes) {
        Some(i) => {
            assert(given[i as int] == draft.subjects@[i as int].deep_view());
            owned(draft.subjects[i].id.as_str())
        },
        None => {
            let id = draft.allocator.next_subject();
            let ghost before = draft.subjects;
            draft.subjects.push(
                Subject {
                    id: owned(id.as_str()),
                    provider: owned(provider),
                    kind,
                    attributes,
                },
            );
            proof {
                seqs::lemma_deep_push(before, draft.subjects);
            }
            id
        },
    };
    refs.push(SubjectRef { role, id });
    assert(refs.deep_view() =~= seq![SubjectRef { role, id: id@ }]);
    Ok(refs)
}

pub open spec fn means(key: RawKeyModel) -> spec_fn(MetricContract) -> bool {
    |contract: MetricContract|
        contract.source@ == key.source && contract.group@ == key.group && contract.metric@
            == key.metric
}

/// What a counter means, if it is a known one.
pub open spec fn contract_of(contracts: Seq<MetricContract>, key: RawKeyModel) -> Option<
    MetricContract,
> {
    match seqs::first_where(contracts, means(key), contracts.len() as int) {
        Some(i) => Some(contracts[i]),
        None => None,
    }
}

fn find_contract<'a>(contracts: &'a Vec<MetricContract>, key: &MetricKey) -> (found: Option<
    &'a MetricContract,
>)
    ensures
        contract_of(contracts@, key.deep_view()) == match found {
            Some(contract) => Some(*contract),
            None => None,
        },
{
    let ghost all = contracts@;
    let ghost wanted = means(key.deep_view());
    let mut i: usize = 0;
    while i < contracts.len()
        invariant
            i <= contracts.len(),
            all == contracts@,
            wanted == means(key.deep_view()),
            seqs::first_where(all, wanted, i as int) is None,
        decreases contracts.len() - i,
    {
        if same_text(contracts[i].source.as_str(), key.source.as_str()) && same_text(
            contracts[i].group.as_str(),
            key.group.as_str(),
        ) && same_text(contracts[i].metric.as_str(), key.metric.as_str()) {
            proof {
                seqs::lemma_first_where_stays(all, wanted, i as int + 1, all.len() as int);
            }
            return Some(&contracts[i]);
        }
        i += 1;
    }
    None
}

/// A descriptor for a change that may be unknown: of an unknown change there is no
/// bound.
pub open spec fn described(
    descriptor: EvidenceDescriptor<Seq<char>>,
    delta: Option<u64>,
) -> EvidenceDescriptor<Seq<char>> {
    if delta is None {
        EvidenceDescriptor {
            measurement: Measurement { bound: None, ..descriptor.measurement },
            ..descriptor
        }
    } else {
        descriptor
    }
}

fn describe(descriptor: &EvidenceDescriptor<String>, delta: Option<u64>) -> (result:
    EvidenceDescriptor<String>)
    ensures
        result.deep_view() == described(descriptor.deep_view(), delta),
{
    let mut result = descriptor.copy();
    if delta.is_none() {
        result.measurement.bound = None;
    }
    result
}

pub open spec fn domain_of(layer: Layer) -> Seq<char> {
    if layer == Layer::Nic {
        DOMAIN_HARDWARE@
    } else {
        DOMAIN_KERNEL@
    }
}

/// A report with a counter change. A counter that is not known stays out; one that
/// is known must come from a registered source, with registered labels.
pub open spec fn with_metric(
    report: ReportModel,
    contracts: Seq<MetricContract>,
    raw: RawMetricDelta,
) -> Result<ReportModel, Failure> {
    let key = raw.key.deep_view();
    match contract_of(contracts, key) {
        None => Ok(report),
        Some(contract) => match provider::first_provider(provider::has_metric_source(key.source)) {
            None => Err(NormalizeError::UnregisteredSource(key.source)),
            Some(owner) => match attributes_upto(key.labels, key.labels.len() as int) {
                Err(error) => Err(error),
                Ok(attributes) => match with_subject(
                    report,
                    owner.name,
                    key,
                    contract.descriptor.direction,
                ) {
                    Err(error) => Err(error),
                    Ok((linked, refs)) => Ok(
                        ReportModel {
                            evidence: linked.evidence + 1,
                            metrics: linked.metrics.push(
                                MetricModel {
                                    meta: MetaModel {
                                        id: evidence_id(linked.nonce, linked.evidence + 1),
                                        provider: owner.name,
                                        layer: Some(contract.layer),
                                        execution_domain: Some(domain_of(contract.layer)),
                                        transition: None,
                                        descriptor: described(
                                            contract.descriptor.deep_view(),
                                            raw.delta,
                                        ),
                                        subjects: refs,
                                    },
                                    metric_type: contract.metric_type@,
                                    values: MetricValues {
                                        start: raw.start,
                                        end: raw.end,
                                        delta: raw.delta,
                                        reset: raw.reset,
                                    },
                                    attributes,
                                },
                            ),
                            ..linked
                        },
                    ),
                },
            },
        },
    }
}

fn add_metric(
    draft: &mut Draft,
    contracts: &Vec<MetricContract>,
    raw: &RawMetricDelta,
) -> (result: Result<(), NormalizeError<String>>)
    requires
        old(draft).allocator.subject_counter < u64::MAX,
        old(draft).allocator.evidence_counter < u64::MAX,
    ensures
        match with_metric(old(draft).deep_view(), contracts@, *raw) {
            Ok(report) => result is Ok && final(draft).deep_view() == report,
            Err(error) => result matches Err(failure) && failure.deep_view() == error,
        },
        final(draft).allocator.subject_counter <= old(draft).allocator.subject_counter + 1,
        final(draft).allocator.evidence_counter <= old(draft).allocator.evidence_counter + 1,
{
    let contract = match find_contract(contracts, &raw.key) {
        None => {
            return Ok(());
        },
        Some(contract) => contract,
    };
    let owner = match descriptor_for_metric_source(raw.key.source.as_str()) {
        None => {
            return Err(NormalizeError::UnregisteredSource(owned(raw.key.source.as_str())));
        },
        Some(owner) => owner,
    };
    let attributes = match metric_attributes(&raw.key) {
        Err(error) => {
            return Err(error);
        },
        Ok(attributes) => attributes,
    };
    let subjects = match metric_subjects(
        draft,
        owner.name,
        &raw.key,
        contract.descriptor.direction,
    ) {
        Err(error) => {
            return Err(error);
        },
        Ok(subjects) => subjects,
    };
    let domain = if contract.layer == Layer::Nic {
        DOMAIN_HARDWARE
    } else {
        DOMAIN_KERNEL
    };
    let id = draft.allocator.next_evidence();
    let ghost before = draft.metrics;
    draft.metrics.push(
        MetricDelta {
            meta: EvidenceMeta {
                id,
                provider: owned(owner.name),
                layer: Some(contract.layer),
                execution_domain: Some(owned(domain)),
                transition: None,
                descriptor: describe(&contract.descriptor, raw.delta),
                subjects,
            },
            metric_type: owned(contract.metric_type.as_str()),
            values: MetricValues {
                start: raw.start,
                end: raw.end,
                delta: raw.delta,
                reset: raw.reset,
            },
            attributes,
        },
    );
    proof {
        seqs::lemma_deep_push(before, draft.metrics);
    }
    Ok(())
}

/// A report with the drop counter of one more socket, which is a subject of its own.
pub open spec fn with_drop(
    report: ReportModel,
    contract: SocketContract,
    raw: SocketDropDelta,
) -> ReportModel {
    let id = subject_id(report.nonce, report.subject + 1);
    ReportModel {
        nonce: report.nonce,
        evidence: report.evidence + 1,
        subject: report.subject + 1,
        subjects: report.subjects.push(
            SubjectModel {
                id,
                provider: PROVIDER_SOCK_DIAG@,
                kind: SubjectKind::Socket,
                attributes: AttributesModel::empty(),
            },
        ),
        metrics: report.metrics.push(
            MetricModel {
                meta: MetaModel {
                    id: evidence_id(report.nonce, report.evidence + 1),
                    provider: PROVIDER_SOCK_DIAG@,
                    layer: None,
                    execution_domain: Some(DOMAIN_KERNEL@),
                    transition: None,
                    descriptor: described(contract.descriptor.deep_view(), raw.delta),
                    subjects: seq![SubjectRef { role: SubjectRole::Primary, id }],
                },
                metric_type: contract.metric_type@,
                values: MetricValues {
                    start: Some(raw.start),
                    end: Some(raw.end),
                    delta: raw.delta,
                    reset: raw.reset,
                },
                attributes: AttributesModel::empty(),
            },
        ),
    }
}

fn add_drop(draft: &mut Draft, contract: &SocketContract, raw: SocketDropDelta)
    requires
        old(draft).allocator.subject_counter < u64::MAX,
        old(draft).allocator.evidence_counter < u64::MAX,
    ensures
        final(draft).deep_view() == with_drop(old(draft).deep_view(), *contract, raw),
{
    let id = draft.allocator.next_subject();
    let ghost subjects = draft.subjects;
    draft.subjects.push(
        Subject {
            id: owned(id.as_str()),
            provider: owned(PROVIDER_SOCK_DIAG),
            kind: SubjectKind::Socket,
            attributes: Attributes::none(),
        },
    );
    proof {
        seqs::lemma_deep_push(subjects, draft.subjects);
    }
    let mut refs: Vec<SubjectRef<String>> = Vec::new();
    refs.push(SubjectRef { role: SubjectRole::Primary, id });
    assert(refs.deep_view() =~= seq![SubjectRef { role: SubjectRole::Primary, id: id@ }]);
    let evidence = draft.allocator.next_evidence();
    let ghost metrics = draft.metrics;
    draft.metrics.push(
        MetricDelta {
            meta: EvidenceMeta {
                id: evidence,
                provider: owned(PROVIDER_SOCK_DIAG),
                layer: None,
                execution_domain: Some(owned(DOMAIN_KERNEL)),
                transition: None,
                descriptor: describe(&contract.descriptor, raw.delta),
                subjects: refs,
            },
            metric_type: owned(contract.metric_type.as_str()),
            values: MetricValues {
                start: Some(raw.start),
                end: Some(raw.end),
                delta: raw.delta,
                reset: raw.reset,
            },
            attributes: Attributes::none(),
        },
    );
    proof {
        seqs::lemma_deep_push(metrics, draft.metrics);
    }
}

/// The report after the first `n` counter changes.
pub open spec fn metrics_upto(
    report: ReportModel,
    contracts: Seq<MetricContract>,
    raws: Seq<RawMetricDelta>,
    n: int,
) -> Result<ReportModel, Failure>
    decreases n,
{
    if n <= 0 {
        Ok(report)
    } else {
        match metrics_upto(report, contracts, raws, n - 1) {
            Err(error) => Err(error),
            Ok(before) => with_metric(before, contracts, raws[n - 1]),
        }
    }
}

proof fn lemma_metrics_fail(
    report: ReportModel,
    contracts: Seq<MetricContract>,
    raws: Seq<RawMetricDelta>,
    m: int,
    n: int,
)
    requires
        m <= n,
        metrics_upto(report, contracts, raws, m) is Err,
    ensures
        metrics_upto(report, contracts, raws, n) == metrics_upto(report, contracts, raws, m),
    decreases n - m,
{
    if m < n {
        lemma_metrics_fail(report, contracts, raws, m, n - 1);
    }
}

/// The report after the drop counters of the first `n` sockets.
pub open spec fn drops_upto(
    report: ReportModel,
    contract: SocketContract,
    raws: Seq<SocketDropDelta>,
    n: int,
) -> ReportModel
    decreases n,
{
    if n <= 0 {
        report
    } else {
        with_drop(drops_upto(report, contract, raws, n - 1), contract, raws[n - 1])
    }
}

/// The attributes of an event.
pub open spec fn observation_attributes(raw: RawObservation) -> AttributesModel {
    let coded = match raw.reason {
        Some(reason) => seq![
            Attribute {
                name: ATTR_SKB_REASON_CODE@,
                value: AttributeValue::Unsigned(reason as u64),
            },
        ],
        None => AttributesModel::empty(),
    };
    let named = match raw.reason_name {
        Some(name) => coded.push(
            Attribute { name: ATTR_SKB_REASON_NAME@, value: AttributeValue::Text(name@) },
        ),
        None => coded,
    };
    named.push(
        Attribute { name: ATTR_BPF_MODE@, value: AttributeValue::Text(raw.source_mode.word()) },
    )
}

fn attributes_of_observation(raw: &RawObservation) -> (attributes: Attributes)
    ensures
        attributes.deep_view() == observation_attributes(*raw),
{
    proof {
        reveal_strlit("linux.skb.reason_code");
        reveal_strlit("linux.skb.reason_name");
        reveal_strlit("linux.bpf.mode");
        assert("linux.skb.reason_code"@[17] == 'c' && "linux.skb.reason_name"@[17] == 'n');
        assert("linux.bpf.mode"@.len() == 14 && "linux.skb.reason_code"@.len() == 21
            && "linux.skb.reason_name"@.len() == 21);
    }
    let mut attributes = Attributes::none();
    if let Some(reason) = raw.reason {
        attributes.insert(ATTR_SKB_REASON_CODE, AttributeValue::Unsigned(reason as u64));
    }
    let ghost coded = attributes.deep_view();
    if let Some(name) = &raw.reason_name {
        proof {
            let wanted = evidence::is_named(ATTR_SKB_REASON_NAME@);
            assert forall|i: int| 0 <= i < coded.len() implies !wanted(#[trigger] coded[i]) by {
                assert(coded[i].name == ATTR_SKB_REASON_CODE@);
            }
            seqs::lemma_first_where(coded, wanted, coded.len() as int);
        }
        attributes.insert(ATTR_SKB_REASON_NAME, AttributeValue::Text(owned(name.as_str())));
    }
    proof {
        let named = attributes.deep_view();
        let wanted = evidence::is_named(ATTR_BPF_MODE@);
        assert forall|i: int| 0 <= i < named.len() implies !wanted(#[trigger] named[i]) by {
            assert(named[i].name == ATTR_SKB_REASON_CODE@ || named[i].name
                == ATTR_SKB_REASON_NAME@);
        }
        seqs::lemma_first_where(named, wanted, named.len() as int);
    }
    attributes.insert(ATTR_BPF_MODE, AttributeValue::Text(owned(raw.source_mode.as_str())));
    attributes
}

/// An event as evidence.
pub open spec fn observation_of(raw: RawObservation, nonce: Seq<char>, n: nat) -> ObservationModel {
    ObservationModel {
        meta: MetaModel {
            id: evidence_id(nonce, n),
            provider: PROVIDER_KFREE_SKB@,
            layer: raw.layer,
            execution_domain: Some(DOMAIN_KERNEL@),
            transition: None,
            descriptor: raw.descriptor.deep_view(),
            subjects: Seq::empty(),
        },
        event_type: EVENT_SKB_FREE@,
        monotonic_ns: raw.monotonic_ns,
        attributes: observation_attributes(raw),
    }
}

/// The first `n` events as evidence, numbered after `evidence` other pieces. A value
/// that was only asked for must not pass for an observed one.
pub open spec fn observations_upto(
    nonce: Seq<char>,
    evidence: nat,
    raws: Seq<RawObservation>,
    n: int,
) -> Result<Seq<ObservationModel>, Failure>
    decreases n,
{
    if n <= 0 {
        Ok(Seq::empty())
    } else {
        match observations_upto(nonce, evidence, raws, n - 1) {
            Err(error) => Err(error),
            Ok(before) => if raws[n - 1].scope_provenance.has_requested() {
                Err(NormalizeError::RequestedScope)
            } else {
                match raws[n - 1].scope_fault {
                    Some(why) => Err(NormalizeError::InvalidScope(why@)),
                    None => Ok(
                        before.push(observation_of(raws[n - 1], nonce, (evidence + n) as nat)),
                    ),
                }
            },
        }
    }
}

proof fn lemma_observations_fail(
    nonce: Seq<char>,
    evidence: nat,
    raws: Seq<RawObservation>,
    m: int,
    n: int,
)
    requires
        m <= n,
        observations_upto(nonce, evidence, raws, m) is Err,
    ensures
        observations_upto(nonce, evidence, raws, n) == observations_upto(nonce, evidence, raws, m),
    decreases n - m,
{
    if m < n {
        lemma_observations_fail(nonce, evidence, raws, m, n - 1);
    }
}

fn normalize_observations(allocator: &mut ReportIdAllocator, raws: &Vec<RawObservation>) -> (
result: Result<Vec<Observation>, NormalizeError<String>>)
    requires
        old(allocator).evidence_counter + raws@.len() <= u64::MAX,
    ensures
        observations_upto(
            old(allocator).nonce@,
            old(allocator).evidence_counter as nat,
            raws@,
            raws@.len() as int,
        ) == match result {
            Ok(observations) => Ok(observations.deep_view()),
            Err(error) => Err(error.deep_view()),
        },
{
    let ghost nonce = allocator.nonce@;
    let ghost evidence = allocator.evidence_counter as nat;
    let mut observations: Vec<Observation> = Vec::new();
    assert(observations.deep_view() =~= Seq::<ObservationModel>::empty());
    for i in 0..raws.len()
        invariant
            nonce == old(allocator).nonce@,
            evidence == old(allocator).evidence_counter as nat,
            evidence + raws@.len() <= u64::MAX,
            allocator.nonce@ == nonce,
            allocator.evidence_counter == evidence + i,
            observations_upto(nonce, evidence, raws@, i as int) == Ok::<
                Seq<ObservationModel>,
                Failure,
            >(observations.deep_view()),
    {
        let raw = &raws[i];
        if raw.scope_provenance.requests() {
            proof {
                lemma_observations_fail(nonce, evidence, raws@, i as int + 1, raws@.len() as int);
            }
            return Err(NormalizeError::RequestedScope);
        }
        if let Some(why) = &raw.scope_fault {
            proof {
                lemma_observations_fail(nonce, evidence, raws@, i as int + 1, raws@.len() as int);
            }
            return Err(NormalizeError::InvalidScope(owned(why.as_str())));
        }
        let refs: Vec<SubjectRef<String>> = Vec::new();
        assert(refs.deep_view() =~= Seq::<SubjectRef<Seq<char>>>::empty());
        let observation = Observation {
            meta: EvidenceMeta {
                id: allocator.next_evidence(),
                provider: owned(PROVIDER_KFREE_SKB),
                layer: raw.layer,
                execution_domain: Some(owned(DOMAIN_KERNEL)),
                transition: None,
                descriptor: raw.descriptor.copy(),
                subjects: refs,
            },
            event_type: owned(EVENT_SKB_FREE),
            monotonic_ns: raw.monotonic_ns,
            attributes: attributes_of_observation(raw),
        };
        let ghost before = observations;
        observations.push(observation);
        proof {
            seqs::lemma_deep_push(before, observations);
        }
    }
    Ok(observations)
}

/// An empty report.
pub open spec fn empty_report(nonce: Seq<char>) -> ReportModel {
    ReportModel {
        nonce,
        evidence: 0,
        subject: 0,
        subjects: Seq::empty(),
        metrics: Seq::empty(),
    }
}

/// The evidence that counter changes, drop counters of sockets and events make.
pub open spec fn normalized(
    nonce: Seq<char>,
    contracts: Contracts,
    raw_metrics: Seq<RawMetricDelta>,
    raw_observations: Seq<RawObservation>,
    socket_drops: Seq<SocketDropDelta>,
) -> Result<BundleModel, Failure> {
    match metrics_upto(
        empty_report(nonce),
        contracts.metrics@,
        raw_metrics,
        raw_metrics.len() as int,
    ) {
        Err(error) => Err(error),
        Ok(report) => {
            let report = drops_upto(
                report,
                contracts.socket,
                socket_drops,
                socket_drops.len() as int,
            );
            match observations_upto(
                nonce,
                report.evidence,
                raw_observations,
                raw_observations.len() as int,
            ) {
                Err(error) => Err(error),
                Ok(observations) => Ok(
                    BundleModel {
                        subjects: report.subjects,
                        metrics: report.metrics,
                        observations,
                    },
                ),
            }
        },
    }
}

/// Builds evidence, with the drop counters of single sockets. `nonce` holds random
/// bytes. `accept_evidence` hands the evidence on.
pub fn normalize_with_socket_drops(
    nonce: &Vec<u8>,
    contracts: &Contracts,
    raw_metrics: &Vec<RawMetricDelta>,
    raw_observations: &Vec<RawObservation>,
    socket_drops: &Vec<SocketDropDelta>,
) -> (result: Result<EvidenceBundle, NormalizeError<String>>)
    requires
        raw_metrics@.len() + raw_observations@.len() + socket_drops@.len() <= u64::MAX,
    ensures
        normalized(
            hex_upto(nonce@, nonce@.len() as int),
            *contracts,
            raw_metrics@,
            raw_observations@,
            socket_drops@,
        ) == match result {
            Ok(bundle) => Ok(bundle.deep_view()),
            Err(error) => Err(error.deep_view()),
        },
{
    let allocator = ReportIdAllocator::new(nonce);
    let mut draft = Draft { allocator, subjects: Vec::new(), metrics: Vec::new() };
    let ghost start = empty_report(hex_upto(nonce@, nonce@.len() as int));
    assert(draft.deep_view() =~= start);
    for i in 0..raw_metrics.len()
        invariant
            raw_metrics@.len() + raw_observations@.len() + socket_drops@.len() <= u64::MAX,
            start == empty_report(hex_upto(nonce@, nonce@.len() as int)),
            draft.allocator.subject_counter <= i,
            draft.allocator.evidence_counter <= i,
            metrics_upto(start, contracts.metrics@, raw_metrics@, i as int) == Ok::<
                ReportModel,
                Failure,
            >(draft.deep_view()),
    {
        if let Err(error) = add_metric(&mut draft, &contracts.metrics, &raw_metrics[i]) {
            proof {
                lemma_metrics_fail(
                    start,
                    contracts.metrics@,
                    raw_metrics@,
                    i as int + 1,
                    raw_metrics@.len() as int,
                );
            }
            return Err(error);
        }
    }
    let ghost counted = draft.deep_view();
    for i in 0..socket_drops.len()
        invariant
            raw_metrics@.len() + raw_observations@.len() + socket_drops@.len() <= u64::MAX,
            draft.allocator.subject_counter <= raw_metrics@.len() + i,
            draft.allocator.evidence_counter <= raw_metrics@.len() + i,
            draft.deep_view() == drops_upto(counted, contracts.socket, socket_drops@, i as int),
    {
        add_drop(&mut draft, &contracts.socket, socket_drops[i]);
    }
    let ghost report = draft.deep_view();
    let Draft { allocator, subjects, metrics } = draft;
    let mut allocator = allocator;
    proof {
        lemma_nonce_stays(start, contracts.metrics@, raw_metrics@, raw_metrics@.len() as int);
        lemma_drops_keep_nonce(
            counted,
            contracts.socket,
            socket_drops@,
            socket_drops@.len() as int,
        );
    }
    match normalize_observations(&mut allocator, raw_observations) {
        Err(error) => Err(error),
        Ok(observations) => Ok(EvidenceBundle { subjects, metrics, observations }),
    }
}

proof fn lemma_nonce_stays(
    report: ReportModel,
    contracts: Seq<MetricContract>,
    raws: Seq<RawMetricDelta>,
    n: int,
)
    ensures
        metrics_upto(report, contracts, raws, n) matches Ok(after) ==> after.nonce == report.nonce,
    decreases n,
{
    if n > 0 {
        lemma_nonce_stays(report, contracts, raws, n - 1);
    }
}

proof fn lemma_drops_keep_nonce(
    report: ReportModel,
    contract: SocketContract,
    raws: Seq<SocketDropDelta>,
    n: int,
)
    ensures
        drops_upto(report, contract, raws, n).nonce == report.nonce,
    decreases n,
{
    if n > 0 {
        lemma_drops_keep_nonce(report, contract, raws, n - 1);
    }
}

/// Builds evidence from counter changes and events.
pub fn normalize(
    nonce: &Vec<u8>,
    contracts: &Contracts,
    raw_metrics: &Vec<RawMetricDelta>,
    raw_observations: &Vec<RawObservation>,
) -> (result: Result<EvidenceBundle, NormalizeError<String>>)
    requires
        raw_metrics@.len() + raw_observations@.len() <= u64::MAX,
    ensures
        normalized(
            hex_upto(nonce@, nonce@.len() as int),
            *contracts,
            raw_metrics@,
            raw_observations@,
            Seq::empty(),
        ) == match result {
            Ok(bundle) => Ok(bundle.deep_view()),
            Err(error) => Err(error.deep_view()),
        },
{
    let none: Vec<SocketDropDelta> = Vec::new();
    assert(none@ =~= Seq::<SocketDropDelta>::empty());
    normalize_with_socket_drops(nonce, contracts, raw_metrics, raw_observations, &none)
}

/// Hands evidence on, if it is valid; `checked` is what validating it gave.
pub fn accept_evidence(bundle: EvidenceBundle, checked: Result<(), String>) -> (result: Result<
    EvidenceBundle,
    NormalizeError<String>,
>)
    ensures
        match (checked, result) {
            (Ok(()), Ok(accepted)) => accepted == bundle,
            (Err(why), Err(error)) => error == NormalizeError::InvalidEvidence(why),
            _ => false,
        },
{
    match checked {
        Ok(()) => Ok(bundle),
        Err(why) => Err(NormalizeError::InvalidEvidence(why)),
    }
}

pub open spec fn is_unknown(status: CounterStatus) -> bool {
    status is Unknown
}

pub open spec fn counts_some(status: CounterStatus) -> bool {
    status matches CounterStatus::Measured { value } && value > 0
}

/// Whether a source lost something, or does not know whether it did.
pub open spec fn lost_or_unknown(counters: TelemetryCounters) -> bool {
    ||| is_unknown(counters.bpf_events_seen)
    ||| is_unknown(counters.bpf_output_lost)
    ||| is_unknown(counters.transport_events_received)
    ||| is_unknown(counters.transport_events_lost)
    ||| is_unknown(counters.user_events_dropped)
    ||| is_unknown(counters.netlink_loss_events)
    ||| is_unknown(counters.netlink_dump_interruptions)
    ||| is_unknown(counters.parse_errors)
    ||| counts_some(counters.bpf_output_lost)
    ||| counts_some(counters.transport_events_lost)
    ||| counts_some(counters.user_events_dropped)
    ||| counts_some(counters.netlink_loss_events)
    ||| counts_some(counters.netlink_dump_interruptions)
    ||| counts_some(counters.parse_errors)
}

fn unknown(status: &CounterStatus) -> (unknown: bool)
    ensures
        unknown == is_unknown(*status),
{
    match status {
        CounterStatus::Unknown => true,
        _ => false,
    }
}

fn some_counted(status: &CounterStatus) -> (some: bool)
    ensures
        some == counts_some(*status),
{
    match status {
        CounterStatus::Measured { value } => *value > 0,
        _ => false,
    }
}

fn has_loss_or_unknown(provider: &ProviderTelemetry) -> (lost: bool)
    ensures
        lost == lost_or_unknown(provider.counters),
{
    let counters = &provider.counters;
    unknown(&counters.bpf_events_seen) || unknown(&counters.bpf_output_lost)
        || unknown(&counters.transport_events_received)
        || unknown(&counters.transport_events_lost) || unknown(&counters.user_events_dropped)
        || unknown(&counters.netlink_loss_events)
        || unknown(&counters.netlink_dump_interruptions) || unknown(&counters.parse_errors)
        || some_counted(&counters.bpf_output_lost)
        || some_counted(&counters.transport_events_lost)
        || some_counted(&counters.user_events_dropped)
        || some_counted(&counters.netlink_loss_events)
        || some_counted(&counters.netlink_dump_interruptions)
        || some_counted(&counters.parse_errors)
}

/// Whether one of the first `n` sources is `provider` and lost something, or does not
/// know whether it did.
pub open spec fn is_lossy(providers: Seq<ProviderTelemetry>, provider: Seq<char>, n: int) -> bool {
    exists|i: int|
        0 <= i < n && (#[trigger] providers[i]).provider@ == provider && lost_or_unknown(
            providers[i].counters,
        )
}

/// A count of a lossy source is a lower bound of what happened.
pub open spec fn lowered(meta: MetaModel, lossy: bool) -> MetaModel {
    if lossy && meta.descriptor.measurement.bound is Some {
        MetaModel {
            descriptor: EvidenceDescriptor {
                measurement: Measurement {
                    bound: Some(MeasurementBound::LowerBound),
                    ..meta.descriptor.measurement
                },
                ..meta.descriptor
            },
            ..meta
        }
    } else {
        meta
    }
}

/// Evidence after the first `n` sources were heard.
pub open spec fn bounded(bundle: BundleModel, providers: Seq<ProviderTelemetry>, n: int) -> BundleModel {
    BundleModel {
        subjects: bundle.subjects,
        metrics: Seq::new(
            bundle.metrics.len(),
            |i: int|
                MetricModel {
                    meta: lowered(
                        bundle.metrics[i].meta,
                        is_lossy(providers, bundle.metrics[i].meta.provider, n),
                    ),
                    ..bundle.metrics[i]
                },
        ),
        observations: Seq::new(
            bundle.observations.len(),
            |i: int|
                ObservationModel {
                    meta: lowered(
                        bundle.observations[i].meta,
                        is_lossy(providers, bundle.observations[i].meta.provider, n),
                    ),
                    ..bundle.observations[i]
                },
        ),
    }
}

fn lower_bound(meta: &mut EvidenceMeta)
    ensures
        final(meta).deep_view() == lowered(old(meta).deep_view(), true),
{
    if meta.descriptor.measurement.bound.is_some() {
        meta.descriptor.measurement.bound = Some(MeasurementBound::LowerBound);
    }
}

fn is_lossy_provider(providers: &Vec<ProviderTelemetry>, provider: &str) -> (lossy: bool)
    ensures
        lossy == is_lossy(providers@, provider@, providers@.len() as int),
{
    let mut i: usize = 0;
    while i < providers.len()
        invariant
            i <= providers.len(),
            !is_lossy(providers@, provider@, i as int),
        decreases providers.len() - i,
    {
        if same_text(providers[i].provider.as_str(), provider) && has_loss_or_unknown(
            &providers[i],
        ) {
            assert(providers@[i as int].provider@ == provider@);
            return true;
        }
        i += 1;
    }
    false
}

/// Lowers the bounds of evidence whose source lost something, or does not know
/// whether it did.
pub fn apply_telemetry_bounds(bundle: &mut EvidenceBundle, telemetry: &Telemetry)
    ensures
        final(bundle).deep_view() == bounded(
            old(bundle).deep_view(),
            telemetry.providers@,
            telemetry.providers@.len() as int,
        ),
{
    let ghost given = bundle.deep_view();
    let ghost target = bounded(given, telemetry.providers@, telemetry.providers@.len() as int);
    assert(given.metrics.len() == bundle.metrics@.len());
    assert(given.observations.len() == bundle.observations@.len());
    let metrics: usize = bundle.metrics.len();
    for i in 0..metrics
        invariant
            given == old(bundle).deep_view(),
            target == bounded(given, telemetry.providers@, telemetry.providers@.len() as int),
            metrics == bundle.metrics@.len() == given.metrics.len(),
            bundle.subjects == old(bundle).subjects,
            bundle.observations == old(bundle).observations,
            forall|k: int|
                0 <= k < i ==> (#[trigger] bundle.metrics@[k]).deep_view() == target.metrics[k],
            forall|k: int|
                i <= k < metrics ==> (#[trigger] bundle.metrics@[k]).deep_view()
                    == given.metrics[k],
    {
        if is_lossy_provider(&telemetry.providers, bundle.metrics[i].meta.provider.as_str()) {
            lower_bound(&mut bundle.metrics[i].meta);
        }
    }
    let observations: usize = bundle.observations.len();
    for i in 0..observations
        invariant
            given == old(bundle).deep_view(),
            target == bounded(given, telemetry.providers@, telemetry.providers@.len() as int),
            metrics == bundle.metrics@.len() == given.metrics.len(),
            observations == bundle.observations@.len() == given.observations.len(),
            bundle.subjects == old(bundle).subjects,
            forall|k: int|
                0 <= k < metrics ==> (#[trigger] bundle.metrics@[k]).deep_view()
                    == target.metrics[k],
            forall|k: int|
                0 <= k < i ==> (#[trigger] bundle.observations@[k]).deep_view()
                    == target.observations[k],
            forall|k: int|
                i <= k < observations ==> (#[trigger] bundle.observations@[k]).deep_view()
                    == given.observations[k],
    {
        if is_lossy_provider(&telemetry.providers, bundle.observations[i].meta.provider.as_str()) {
            lower_bound(&mut bundle.observations[i].meta);
        }
    }
    assert(bundle.deep_view().metrics =~= target.metrics);
    assert(bundle.deep_view().observations =~= target.observations);
}

/// Lowering bounds once is enough: what the sources report of themselves does not
/// change evidence a second time.
pub proof fn bounds_are_lowered_once(
    bundle: BundleModel,
    providers: Seq<ProviderTelemetry>,
    n: int,
)
    ensures
        bounded(bounded(bundle, providers, n), providers, n) == bounded(bundle, providers, n),
{
    let once = bounded(bundle, providers, n);
    let twice = bounded(once, providers, n);
    assert(twice.metrics =~= once.metrics);
    assert(twice.observations =~= once.observations);
}

/// Identities of one report are different for different things: two pieces of
/// evidence, two subjects, or a piece of evidence and a subject never share one.
pub proof fn identities_tell_apart(nonce: Seq<char>, a: nat, b: nat)
    ensures
        evidence_id(nonce, a) == evidence_id(nonce, b) ==> a == b,
        subject_id(nonce, a) == subject_id(nonce, b) ==> a == b,
        evidence_id(nonce, a) != subject_id(nonce, b),
{
    reveal_strlit("e_");
    reveal_strlit("s_");
    let e = "e_"@ + nonce + "_"@;
    let s = "s_"@ + nonce + "_"@;
    let k = e.len() as int;
    assert(evidence_id(nonce, a).skip(k) =~= text::decimal(a));
    assert(evidence_id(nonce, b).skip(k) =~= text::decimal(b));
    assert(subject_id(nonce, a).skip(k) =~= text::decimal(a));
    assert(subject_id(nonce, b).skip(k) =~= text::decimal(b));
    if text::decimal(a) == text::decimal(b) {
        text::decimal_tells_apart(a, b);
    }
    assert(evidence_id(nonce, a)[0] == 'e');
    assert(subject_id(nonce, b)[0] == 's');
}

/// Whether the rows of a report are numbered from one, and every reference leads to
/// a subject.
pub open spec fn is_linked(report: ReportModel) -> bool {
    &&& report.evidence == report.metrics.len()
    &&& report.subject == report.subjects.len()
    &&& forall|i: int|
        0 <= i < report.subjects.len() ==> (#[trigger] report.subjects[i]).id == subject_id(
            report.nonce,
            (i + 1) as nat,
        )
    &&& forall|i: int|
        0 <= i < report.metrics.len() ==> (#[trigger] report.metrics[i]).meta.id == evidence_id(
            report.nonce,
            (i + 1) as nat,
        )
    &&& forall|i: int|
        0 <= i < report.metrics.len() ==> refers_to(
            report.subjects,
            (#[trigger] report.metrics[i]).meta.subjects,
        )
}

/// Whether every reference is to one of the subjects.
pub open spec fn refers_to(subjects: Seq<SubjectModel>, refs: Seq<SubjectRef<Seq<char>>>) -> bool {
    forall|k: int| 0 <= k < refs.len() ==> has_subject(subjects, (#[trigger] refs[k]).id)
}

pub open spec fn has_subject(subjects: Seq<SubjectModel>, id: Seq<char>) -> bool {
    exists|j: int| 0 <= j < subjects.len() && (#[trigger] subjects[j]).id == id
}

proof fn lemma_refers_to_more(
    subjects: Seq<SubjectModel>,
    more: Seq<SubjectModel>,
    refs: Seq<SubjectRef<Seq<char>>>,
)
    requires
        refers_to(subjects, refs),
        subjects.len() <= more.len(),
        forall|j: int| 0 <= j < subjects.len() ==> more[j] == #[trigger] subjects[j],
    ensures
        refers_to(more, refs),
{
    assert forall|k: int| 0 <= k < refs.len() implies has_subject(
        more,
        (#[trigger] refs[k]).id,
    ) by {
        let j = choose|j: int|
            0 <= j < subjects.len() && (#[trigger] subjects[j]).id == refs[k].id;
        assert(more[j].id == refs[k].id);
    }
}

proof fn lemma_metric_links(
    report: ReportModel,
    contracts: Seq<MetricContract>,
    raw: RawMetricDelta,
)
    requires
        is_linked(report),
        with_metric(report, contracts, raw) is Ok,
    ensures
        is_linked(with_metric(report, contracts, raw)->Ok_0),
{
    let key = raw.key.deep_view();
    if contract_of(contracts, key) is Some {
        let contract = contract_of(contracts, key)->0;
        let owner = provider::first_provider(provider::has_metric_source(key.source))->0;
        let (linked, refs) = with_subject(
            report,
            owner.name,
            key,
            contract.descriptor.direction,
        )->Ok_0;
        let after = with_metric(report, contracts, raw)->Ok_0;
        assert(refers_to(linked.subjects, refs)) by {
            if refs.len() > 0 {
                let attributes = interface_attributes(
                    translate::raw_label(key.labels, "interface"@),
                    interface_index(key)->Ok_0,
                );
                seqs::lemma_first_where(
                    report.subjects,
                    is_subject(owner.name, SubjectKind::Interface, attributes),
                    report.subjects.len() as int,
                );
                match seqs::first_where(
                    report.subjects,
                    is_subject(owner.name, SubjectKind::Interface, attributes),
                    report.subjects.len() as int,
                ) {
                    Some(i) => {
                        assert(linked.subjects[i].id == refs[0].id);
                    },
                    None => {
                        assert(linked.subjects[linked.subjects.len() - 1].id == refs[0].id);
                    },
                }
            }
        }
        assert forall|i: int| 0 <= i < after.metrics.len() implies refers_to(
            after.subjects,
            (#[trigger] after.metrics[i]).meta.subjects,
        ) by {
            if i < report.metrics.len() {
                assert(after.metrics[i] == report.metrics[i]);
                lemma_refers_to_more(
                    report.subjects,
                    after.subjects,
                    report.metrics[i].meta.subjects,
                );
            }
        }
    }
}

proof fn lemma_drop_links(report: ReportModel, contract: SocketContract, raw: SocketDropDelta)
    requires
        is_linked(report),
    ensures
        is_linked(with_drop(report, contract, raw)),
{
    let after = with_drop(report, contract, raw);
    let n = report.subjects.len() as int;
    assert forall|i: int| 0 <= i < after.metrics.len() implies refers_to(
        after.subjects,
        (#[trigger] after.metrics[i]).meta.subjects,
    ) by {
        if i < report.metrics.len() {
            assert(after.metrics[i] == report.metrics[i]);
            lemma_refers_to_more(report.subjects, after.subjects, report.metrics[i].meta.subjects);
        } else {
            assert(after.subjects[n].id == after.metrics[i].meta.subjects[0].id);
        }
    }
}

proof fn lemma_metrics_link(
    report: ReportModel,
    contracts: Seq<MetricContract>,
    raws: Seq<RawMetricDelta>,
    n: int,
)
    requires
        is_linked(report),
        metrics_upto(report, contracts, raws, n) is Ok,
    ensures
        is_linked(metrics_upto(report, contracts, raws, n)->Ok_0),
    decreases n,
{
    if n > 0 {
        lemma_metrics_link(report, contracts, raws, n - 1);
        lemma_metric_links(
            metrics_upto(report, contracts, raws, n - 1)->Ok_0,
            contracts,
            raws[n - 1],
        );
    }
}

proof fn lemma_drops_link(
    report: ReportModel,
    contract: SocketContract,
    raws: Seq<SocketDropDelta>,
    n: int,
)
    requires
        is_linked(report),
    ensures
        is_linked(drops_upto(report, contract, raws, n)),
    decreases n,
{
    if n > 0 {
        lemma_drops_link(report, contract, raws, n - 1);
        lemma_drop_links(drops_upto(report, contract, raws, n - 1), contract, raws[n - 1]);
    }
}

proof fn lemma_observation_ids(
    nonce: Seq<char>,
    evidence: nat,
    raws: Seq<RawObservation>,
    n: int,
)
    requires
        0 <= n,
        observations_upto(nonce, evidence, raws, n) is Ok,
    ensures
        observations_upto(nonce, evidence, raws, n)->Ok_0.len() == n,
        forall|i: int|
            0 <= i < n ==> (#[trigger] observations_upto(nonce, evidence, raws, n)->Ok_0[i]).meta.id
                == evidence_id(nonce, (evidence + i + 1) as nat),
    decreases n,
{
    if n > 0 {
        lemma_observation_ids(nonce, evidence, raws, n - 1);
    }
}

/// What is built fits together: subjects and pieces of evidence are numbered from
/// one, so that no two have an identity in common, every reference leads to a
/// subject, and identities tell nothing but the number.
pub proof fn evidence_fits_together(
    nonce: Seq<char>,
    contracts: Contracts,
    raw_metrics: Seq<RawMetricDelta>,
    raw_observations: Seq<RawObservation>,
    socket_drops: Seq<SocketDropDelta>,
)
    requires
        normalized(nonce, contracts, raw_metrics, raw_observations, socket_drops) is Ok,
    ensures
        ({
            let bundle = normalized(
                nonce,
                contracts,
                raw_metrics,
                raw_observations,
                socket_drops,
            )->Ok_0;
            &&& forall|i: int|
                0 <= i < bundle.subjects.len() ==> (#[trigger] bundle.subjects[i]).id
                    == subject_id(nonce, (i + 1) as nat)
            &&& forall|i: int|
                0 <= i < bundle.metrics.len() ==> (#[trigger] bundle.metrics[i]).meta.id
                    == evidence_id(nonce, (i + 1) as nat)
            &&& forall|i: int|
                0 <= i < bundle.observations.len() ==> (
                #[trigger] bundle.observations[i]).meta.id == evidence_id(
                    nonce,
                    (bundle.metrics.len() + i + 1) as nat,
                )
            &&& forall|i: int|
                0 <= i < bundle.metrics.len() ==> refers_to(
                    bundle.subjects,
                    (#[trigger] bundle.metrics[i]).meta.subjects,
                )
        }),
{
    let start = empty_report(nonce);
    let n = raw_metrics.len() as int;
    lemma_metrics_link(start, contracts.metrics@, raw_metrics, n);
    lemma_nonce_stays(start, contracts.metrics@, raw_metrics, n);
    let counted = metrics_upto(start, contracts.metrics@, raw_metrics, n)->Ok_0;
    lemma_drops_link(counted, contracts.socket, socket_drops, socket_drops.len() as int);
    lemma_drops_keep_nonce(counted, contracts.socket, socket_drops, socket_drops.len() as int);
    let report = drops_upto(counted, contracts.socket, socket_drops, socket_drops.len() as int);
    lemma_observation_ids(
        nonce,
        report.evidence,
        raw_observations,
        raw_observations.len() as int,
    );
}

} // verus!
