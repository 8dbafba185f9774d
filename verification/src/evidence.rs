//! Evidence: what was measured or observed in a capture window, where in the network
//! stack it belongs, and what is known of the sources.
use crate::seqs;
use crate::text;
use crate::text::{copy_option, owned, same_text};
use vstd::prelude::*;

verus! {

/// A layer of the network stack.
#[derive(Clone, Copy, Debug, PartialEq, Eq, Structural)]
pub enum Layer {
    Socket,
    Transport,
    Network,
    Netfilter,
    Route,
    Xfrm,
    VirtualDevice,
    Tc,
    Netdevice,
    Xdp,
    Driver,
    Nic,
}

impl Layer {
    pub open spec fn word(self) -> Seq<char> {
        match self {
            Layer::Socket => "socket"@,
            Layer::Transport => "transport"@,
            Layer::Network => "network"@,
            Layer::Netfilter => "netfilter"@,
            Layer::Route => "route"@,
            Layer::Xfrm => "xfrm"@,
            Layer::VirtualDevice => "virtual_device"@,
            Layer::Tc => "tc"@,
            Layer::Netdevice => "netdevice"@,
            Layer::Xdp => "xdp"@,
            Layer::Driver => "driver"@,
            Layer::Nic => "nic"@,
        }
    }

    pub fn as_str(self) -> (word: &'static str)
        ensures
            word@ == self.word(),
    {
        match self {
            Layer::Socket => "socket",
            Layer::Transport => "transport",
            Layer::Network => "network",
            Layer::Netfilter => "netfilter",
            Layer::Route => "route",
            Layer::Xfrm => "xfrm",
            Layer::VirtualDevice => "virtual_device",
            Layer::Tc => "tc",
            Layer::Netdevice => "netdevice",
            Layer::Xdp => "xdp",
            Layer::Driver => "driver",
            Layer::Nic => "nic",
        }
    }
}

/// The direction of traffic.
#[derive(Clone, Copy, Debug, PartialEq, Eq, Structural)]
pub enum Direction {
    Ingress,
    Egress,
}

impl Direction {
    pub open spec fn word(self) -> Seq<char> {
        match self {
            Direction::Ingress => "ingress"@,
            Direction::Egress => "egress"@,
        }
    }

    pub fn as_str(self) -> (word: &'static str)
        ensures
            word@ == self.word(),
    {
        match self {
            Direction::Ingress => "ingress",
            Direction::Egress => "egress",
        }
    }
}

/// What kind of thing evidence is about.
#[derive(Clone, Copy, Debug, PartialEq, Eq, Structural)]
pub enum SubjectKind {
    Socket,
    Rule,
    Program,
    Queue,
    Interface,
    Hop,
    FlowDomain,
}

impl SubjectKind {
    pub open spec fn word(self) -> Seq<char> {
        match self {
            SubjectKind::Socket => "socket"@,
            SubjectKind::Rule => "rule"@,
            SubjectKind::Program => "program"@,
            SubjectKind::Queue => "queue"@,
            SubjectKind::Interface => "interface"@,
            SubjectKind::Hop => "hop"@,
            SubjectKind::FlowDomain => "flow_domain"@,
        }
    }

    pub fn as_str(self) -> (word: &'static str)
        ensures
            word@ == self.word(),
    {
        match self {
            SubjectKind::Socket => "socket",
            SubjectKind::Rule => "rule",
            SubjectKind::Program => "program",
            SubjectKind::Queue => "queue",
            SubjectKind::Interface => "interface",
            SubjectKind::Hop => "hop",
            SubjectKind::FlowDomain => "flow_domain",
        }
    }
}

/// The part that a subject has in a piece of evidence.
#[derive(Clone, Copy, Debug, PartialEq, Eq, Structural)]
pub enum SubjectRole {
    Primary,
    Ingress,
    Egress,
    Owner,
    Peer,
    Before,
    After,
}

impl SubjectRole {
    pub open spec fn word(self) -> Seq<char> {
        match self {
            SubjectRole::Primary => "primary"@,
            SubjectRole::Ingress => "ingress"@,
            SubjectRole::Egress => "egress"@,
            SubjectRole::Owner => "owner"@,
            SubjectRole::Peer => "peer"@,
            SubjectRole::Before => "before"@,
            SubjectRole::After => "after"@,
        }
    }

    pub fn as_str(self) -> (word: &'static str)
        ensures
            word@ == self.word(),
    {
        match self {
            SubjectRole::Primary => "primary",
            SubjectRole::Ingress => "ingress",
            SubjectRole::Egress => "egress",
            SubjectRole::Owner => "owner",
            SubjectRole::Peer => "peer",
            SubjectRole::Before => "before",
            SubjectRole::After => "after",
        }
    }
}

/// How exactly a source can follow a filter.
#[derive(Clone, Copy, Debug, PartialEq, Eq, Structural)]
pub enum FilterSupport {
    KernelExact,
    UserspaceExact,
    BroaderOnly,
}

impl FilterSupport {
    pub open spec fn word(self) -> Seq<char> {
        match self {
            FilterSupport::KernelExact => "kernel_exact"@,
            FilterSupport::UserspaceExact => "userspace_exact"@,
            FilterSupport::BroaderOnly => "broader_only"@,
        }
    }

    pub fn as_str(self) -> (word: &'static str)
        ensures
            word@ == self.word(),
    {
        match self {
            FilterSupport::KernelExact => "kernel_exact",
            FilterSupport::UserspaceExact => "userspace_exact",
            FilterSupport::BroaderOnly => "broader_only",
        }
    }
}

/// The form that evidence has.
#[derive(Clone, Copy, Debug, PartialEq, Eq, Structural)]
pub enum EvidenceForm {
    CounterDelta,
    Event,
}

impl EvidenceForm {
    pub open spec fn word(self) -> Seq<char> {
        match self {
            EvidenceForm::CounterDelta => "counter_delta"@,
            EvidenceForm::Event => "event"@,
        }
    }

    pub fn as_str(self) -> (word: &'static str)
        ensures
            word@ == self.word(),
    {
        match self {
            EvidenceForm::CounterDelta => "counter_delta",
            EvidenceForm::Event => "event",
        }
    }
}

/// What evidence says about a problem.
#[derive(Clone, Copy, Debug, PartialEq, Eq, Structural)]
pub enum EvidenceRole {
    Causal,
    Symptom,
    Context,
    Telemetry,
}

impl EvidenceRole {
    pub open spec fn word(self) -> Seq<char> {
        match self {
            EvidenceRole::Causal => "causal"@,
            EvidenceRole::Symptom => "symptom"@,
            EvidenceRole::Context => "context"@,
            EvidenceRole::Telemetry => "telemetry"@,
        }
    }

    pub fn as_str(self) -> (word: &'static str)
        ensures
            word@ == self.word(),
    {
        match self {
            EvidenceRole::Causal => "causal",
            EvidenceRole::Symptom => "symptom",
            EvidenceRole::Context => "context",
            EvidenceRole::Telemetry => "telemetry",
        }
    }
}

/// How much of a layer a source sees.
#[derive(Clone, Copy, Debug, PartialEq, Eq, Structural)]
pub enum CoverageVisibility {
    Full,
    Partial,
    Opaque,
}

impl CoverageVisibility {
    pub open spec fn word(self) -> Seq<char> {
        match self {
            CoverageVisibility::Full => "full"@,
            CoverageVisibility::Partial => "partial"@,
            CoverageVisibility::Opaque => "opaque"@,
        }
    }

    pub fn as_str(self) -> (word: &'static str)
        ensures
            word@ == self.word(),
    {
        match self {
            CoverageVisibility::Full => "full",
            CoverageVisibility::Partial => "partial",
            CoverageVisibility::Opaque => "opaque",
        }
    }
}

/// Whether what a source reports is whole.
#[derive(Clone, Copy, Debug, PartialEq, Eq, Structural)]
pub enum CoverageIntegrity {
    Intact,
    Lossy,
    Unknown,
}

impl CoverageIntegrity {
    pub open spec fn word(self) -> Seq<char> {
        match self {
            CoverageIntegrity::Intact => "intact"@,
            CoverageIntegrity::Lossy => "lossy"@,
            CoverageIntegrity::Unknown => "unknown"@,
        }
    }

    pub fn as_str(self) -> (word: &'static str)
        ensures
            word@ == self.word(),
    {
        match self {
            CoverageIntegrity::Intact => "intact",
            CoverageIntegrity::Lossy => "lossy",
            CoverageIntegrity::Unknown => "unknown",
        }
    }
}

/// Whether a source can be used.
#[derive(Clone, Copy, Debug, PartialEq, Eq, Structural)]
pub enum Availability {
    Available,
    Degraded,
    Unavailable,
}

impl Availability {
    pub open spec fn word(self) -> Seq<char> {
        match self {
            Availability::Available => "available"@,
            Availability::Degraded => "degraded"@,
            Availability::Unavailable => "unavailable"@,
        }
    }

    pub fn as_str(self) -> (word: &'static str)
        ensures
            word@ == self.word(),
    {
        match self {
            Availability::Available => "available",
            Availability::Degraded => "degraded",
            Availability::Unavailable => "unavailable",
        }
    }
}

/// What became of a packet.
#[derive(Clone, Copy, Debug, PartialEq, Eq, Structural)]
pub enum Disposition {
    Dropped,
    Rejected,
    Consumed,
    Passed,
    Redirected,
    Queued,
}

impl Disposition {
    pub open spec fn word(self) -> Seq<char> {
        match self {
            Disposition::Dropped => "dropped"@,
            Disposition::Rejected => "rejected"@,
            Disposition::Consumed => "consumed"@,
            Disposition::Passed => "passed"@,
            Disposition::Redirected => "redirected"@,
            Disposition::Queued => "queued"@,
        }
    }

    pub fn as_str(self) -> (word: &'static str)
        ensures
            word@ == self.word(),
    {
        match self {
            Disposition::Dropped => "dropped",
            Disposition::Rejected => "rejected",
            Disposition::Consumed => "consumed",
            Disposition::Passed => "passed",
            Disposition::Redirected => "redirected",
            Disposition::Queued => "queued",
        }
    }
}

/// What a source reports beside the fate of a packet.
#[derive(Clone, Copy, Debug, PartialEq, Eq, Structural)]
pub enum Signal {
    Aborted,
    RedirectFailed,
    Backpressure,
    Congestion,
    Pressure,
    Timeout,
    Retransmission,
    Reset,
    Error,
}

impl Signal {
    pub open spec fn word(self) -> Seq<char> {
        match self {
            Signal::Aborted => "aborted"@,
            Signal::RedirectFailed => "redirect_failed"@,
            Signal::Backpressure => "backpressure"@,
            Signal::Congestion => "congestion"@,
            Signal::Pressure => "pressure"@,
            Signal::Timeout => "timeout"@,
            Signal::Retransmission => "retransmission"@,
            Signal::Reset => "reset"@,
            Signal::Error => "error"@,
        }
    }

    pub fn as_str(self) -> (word: &'static str)
        ensures
            word@ == self.word(),
    {
        match self {
            Signal::Aborted => "aborted",
            Signal::RedirectFailed => "redirect_failed",
            Signal::Backpressure => "backpressure",
            Signal::Congestion => "congestion",
            Signal::Pressure => "pressure",
            Signal::Timeout => "timeout",
            Signal::Retransmission => "retransmission",
            Signal::Reset => "reset",
            Signal::Error => "error",
        }
    }
}

/// Where on a path evidence was found.
#[derive(Clone, Copy, Debug, PartialEq, Eq, Structural)]
pub enum PathRole {
    Local,
    Forwarded,
    Tunnel,
    Bridge,
}

impl PathRole {
    pub open spec fn word(self) -> Seq<char> {
        match self {
            PathRole::Local => "local"@,
            PathRole::Forwarded => "forwarded"@,
            PathRole::Tunnel => "tunnel"@,
            PathRole::Bridge => "bridge"@,
        }
    }

    pub fn as_str(self) -> (word: &'static str)
        ensures
            word@ == self.word(),
    {
        match self {
            PathRole::Local => "local",
            PathRole::Forwarded => "forwarded",
            PathRole::Tunnel => "tunnel",
            PathRole::Bridge => "bridge",
        }
    }
}

/// What a count counts.
#[derive(Clone, Copy, Debug, PartialEq, Eq, Structural)]
pub enum MeasurementUnit {
    Packets,
    Bytes,
    Events,
    SourceUnits,
}

impl MeasurementUnit {
    pub open spec fn word(self) -> Seq<char> {
        match self {
            MeasurementUnit::Packets => "packets"@,
            MeasurementUnit::Bytes => "bytes"@,
            MeasurementUnit::Events => "events"@,
            MeasurementUnit::SourceUnits => "source_units"@,
        }
    }

    pub fn as_str(self) -> (word: &'static str)
        ensures
            word@ == self.word(),
    {
        match self {
            MeasurementUnit::Packets => "packets",
            MeasurementUnit::Bytes => "bytes",
            MeasurementUnit::Events => "events",
            MeasurementUnit::SourceUnits => "source_units",
        }
    }
}

/// What a count is about.
#[derive(Clone, Copy, Debug, PartialEq, Eq, Structural)]
pub enum MeasurementScope {
    Host,
    NetworkNamespace,
    Interface,
    Queue,
    Socket,
}

impl MeasurementScope {
    pub open spec fn word(self) -> Seq<char> {
        match self {
            MeasurementScope::Host => "host"@,
            MeasurementScope::NetworkNamespace => "network_namespace"@,
            MeasurementScope::Interface => "interface"@,
            MeasurementScope::Queue => "queue"@,
            MeasurementScope::Socket => "socket"@,
        }
    }

    pub fn as_str(self) -> (word: &'static str)
        ensures
            word@ == self.word(),
    {
        match self {
            MeasurementScope::Host => "host",
            MeasurementScope::NetworkNamespace => "network_namespace",
            MeasurementScope::Interface => "interface",
            MeasurementScope::Queue => "queue",
            MeasurementScope::Socket => "socket",
        }
    }
}

/// How a count relates to what happened.
#[derive(Clone, Copy, Debug, PartialEq, Eq, Structural)]
pub enum MeasurementBound {
    Exact,
    LowerBound,
    Estimate,
}

impl MeasurementBound {
    pub open spec fn word(self) -> Seq<char> {
        match self {
            MeasurementBound::Exact => "exact"@,
            MeasurementBound::LowerBound => "lower_bound"@,
            MeasurementBound::Estimate => "estimate"@,
        }
    }

    pub fn as_str(self) -> (word: &'static str)
        ensures
            word@ == self.word(),
    {
        match self {
            MeasurementBound::Exact => "exact",
            MeasurementBound::LowerBound => "lower_bound",
            MeasurementBound::Estimate => "estimate",
        }
    }
}

/// How kernel events reach the program.
#[derive(Clone, Copy, Debug, PartialEq, Eq, Structural)]
pub enum BpfMode {
    ModernRing,
    LegacyPerf,
    Unavailable,
}

impl BpfMode {
    pub open spec fn word(self) -> Seq<char> {
        match self {
            BpfMode::ModernRing => "modern_ring"@,
            BpfMode::LegacyPerf => "legacy_perf"@,
            BpfMode::Unavailable => "unavailable"@,
        }
    }

    pub fn as_str(self) -> (word: &'static str)
        ensures
            word@ == self.word(),
    {
        match self {
            BpfMode::ModernRing => "modern_ring",
            BpfMode::LegacyPerf => "legacy_perf",
            BpfMode::Unavailable => "unavailable",
        }
    }
}

/// The layout of a tracepoint.
#[derive(Clone, Copy, Debug, PartialEq, Eq, Structural)]
pub enum TracepointLayout {
    Legacy,
    WithReason,
}

impl TracepointLayout {
    pub open spec fn word(self) -> Seq<char> {
        match self {
            TracepointLayout::Legacy => "legacy"@,
            TracepointLayout::WithReason => "with_reason"@,
        }
    }

    pub fn as_str(self) -> (word: &'static str)
        ensures
            word@ == self.word(),
    {
        match self {
            TracepointLayout::Legacy => "legacy",
            TracepointLayout::WithReason => "with_reason",
        }
    }
}

/// How much a finding matters.
#[derive(Clone, Copy, Debug, PartialEq, Eq, Structural)]
pub enum Severity {
    Info,
    Warning,
    Error,
}

impl Severity {
    pub open spec fn word(self) -> Seq<char> {
        match self {
            Severity::Info => "info"@,
            Severity::Warning => "warning"@,
            Severity::Error => "error"@,
        }
    }

    pub fn as_str(self) -> (word: &'static str)
        ensures
            word@ == self.word(),
    {
        match self {
            Severity::Info => "info",
            Severity::Warning => "warning",
            Severity::Error => "error",
        }
    }
}

/// How sure a finding is.
#[derive(Clone, Copy, Debug, PartialEq, Eq, Structural)]
pub enum Confidence {
    Low,
    Medium,
    High,
}

impl Confidence {
    pub open spec fn word(self) -> Seq<char> {
        match self {
            Confidence::Low => "low"@,
            Confidence::Medium => "medium"@,
            Confidence::High => "high"@,
        }
    }

    pub fn as_str(self) -> (word: &'static str)
        ensures
            word@ == self.word(),
    {
        match self {
            Confidence::Low => "low",
            Confidence::Medium => "medium",
            Confidence::High => "high",
        }
    }
}

/// What is missing in the view of a path.
#[derive(Clone, Copy, Debug, PartialEq, Eq, Structural)]
pub enum TopologyGap {
    NamespaceBoundary,
    HiddenPeer,
    DepthLimit,
}

impl TopologyGap {
    pub open spec fn word(self) -> Seq<char> {
        match self {
            TopologyGap::NamespaceBoundary => "namespace_boundary"@,
            TopologyGap::HiddenPeer => "hidden_peer"@,
            TopologyGap::DepthLimit => "depth_limit"@,
        }
    }

    pub fn as_str(self) -> (word: &'static str)
        ensures
            word@ == self.word(),
    {
        match self {
            TopologyGap::NamespaceBoundary => "namespace_boundary",
            TopologyGap::HiddenPeer => "hidden_peer",
            TopologyGap::DepthLimit => "depth_limit",
        }
    }
}

/// How events were chosen.
#[derive(Clone, Copy, Debug, PartialEq, Eq, Structural)]
pub enum SamplingMethod {
    EveryNth,
    Random,
}

impl SamplingMethod {
    pub open spec fn word(self) -> Seq<char> {
        match self {
            SamplingMethod::EveryNth => "every_nth"@,
            SamplingMethod::Random => "random"@,
        }
    }

    pub fn as_str(self) -> (word: &'static str)
        ensures
            word@ == self.word(),
    {
        match self {
            SamplingMethod::EveryNth => "every_nth",
            SamplingMethod::Random => "random",
        }
    }
}

/// What events were chosen from.
#[derive(Clone, Copy, Debug, PartialEq, Eq, Structural)]
pub enum SamplingScope {
    Kernel,
    Transport,
    Userspace,
}

impl SamplingScope {
    pub open spec fn word(self) -> Seq<char> {
        match self {
            SamplingScope::Kernel => "kernel"@,
            SamplingScope::Transport => "transport"@,
            SamplingScope::Userspace => "userspace"@,
        }
    }

    pub fn as_str(self) -> (word: &'static str)
        ensures
            word@ == self.word(),
    {
        match self {
            SamplingScope::Kernel => "kernel",
            SamplingScope::Transport => "transport",
            SamplingScope::Userspace => "userspace",
        }
    }
}

/// The fate of a packet, or what else was reported.
#[derive(Clone, Copy, Debug, PartialEq, Eq, Structural)]
pub struct Outcome {
    pub disposition: Option<Disposition>,
    pub signal: Option<Signal>,
}

#[derive(Clone, Copy, Debug, PartialEq, Eq, Structural)]
pub struct Measurement {
    pub unit: MeasurementUnit,
    pub scope: Option<MeasurementScope>,
    pub bound: Option<MeasurementBound>,
}

/// Where evidence was found.
#[derive(Clone, Copy, Debug, PartialEq, Eq, Structural)]
pub struct EvidenceContext {
    pub ingress_ifindex: Option<u32>,
    pub egress_ifindex: Option<u32>,
    pub queue_id: Option<u32>,
    pub cpu: Option<u32>,
    pub protocol: Option<u8>,
}

/// What a piece of evidence says and how it is to be read.
#[derive(Clone, Debug, PartialEq, Eq)]
pub struct EvidenceDescriptor<T> {
    pub stage: Option<T>,
    pub direction: Option<Direction>,
    pub path_role: Option<PathRole>,
    pub outcome: Outcome,
    pub role: EvidenceRole,
    pub form: EvidenceForm,
    pub measurement: Measurement,
    pub context: EvidenceContext,
}

impl DeepView for EvidenceDescriptor<String> {
    type V = EvidenceDescriptor<Seq<char>>;

    open spec fn deep_view(&self) -> EvidenceDescriptor<Seq<char>> {
        EvidenceDescriptor {
            stage: text::optional_text(self.stage),
            direction: self.direction,
            path_role: self.path_role,
            outcome: self.outcome,
            role: self.role,
            form: self.form,
            measurement: self.measurement,
            context: self.context,
        }
    }
}

impl EvidenceDescriptor<String> {
    pub fn copy(&self) -> (copy: EvidenceDescriptor<String>)
        ensures
            copy.deep_view() == self.deep_view(),
    {
        EvidenceDescriptor {
            stage: copy_option(&self.stage),
            direction: self.direction,
            path_role: self.path_role,
            outcome: self.outcome,
            role: self.role,
            form: self.form,
            measurement: self.measurement,
            context: self.context,
        }
    }
}

/// The value of an attribute.
#[derive(Clone, Debug, PartialEq, Eq)]
pub enum AttributeValue<T> {
    Unsigned(u64),
    Text(T),
}

impl DeepView for AttributeValue<String> {
    type V = AttributeValue<Seq<char>>;

    open spec fn deep_view(&self) -> AttributeValue<Seq<char>> {
        match self {
            AttributeValue::Unsigned(value) => AttributeValue::Unsigned(*value),
            AttributeValue::Text(value) => AttributeValue::Text(value@),
        }
    }
}

impl AttributeValue<String> {
    pub fn copy(&self) -> (copy: AttributeValue<String>)
        ensures
            copy.deep_view() == self.deep_view(),
    {
        match self {
            AttributeValue::Unsigned(value) => AttributeValue::Unsigned(*value),
            AttributeValue::Text(value) => AttributeValue::Text(
                owned(value.as_str()),
            ),
        }
    }

    fn same(&self, other: &AttributeValue<String>) -> (same: bool)
        ensures
            same == (self.deep_view() == other.deep_view()),
    {
        match (self, other) {
            (AttributeValue::Unsigned(a), AttributeValue::Unsigned(b)) => *a == *b,
            (AttributeValue::Text(a), AttributeValue::Text(b)) => same_text(
                a.as_str(),
                b.as_str(),
            ),
            _ => false,
        }
    }
}

#[derive(Clone, Debug, PartialEq, Eq)]
pub struct Attribute<T> {
    pub name: T,
    pub value: AttributeValue<T>,
}

impl DeepView for Attribute<String> {
    type V = Attribute<Seq<char>>;

    open spec fn deep_view(&self) -> Attribute<Seq<char>> {
        Attribute { name: self.name@, value: self.value.deep_view() }
    }
}

/// Attributes, at most one of each name, in the order in which they were given.
#[derive(Clone, Debug, PartialEq, Eq)]
pub struct Attributes {
    pub entries: Vec<Attribute<String>>,
}

pub type AttributesModel = Seq<Attribute<Seq<char>>>;

impl DeepView for Attributes {
    type V = AttributesModel;

    open spec fn deep_view(&self) -> AttributesModel {
        self.entries.deep_view()
    }
}

pub open spec fn is_named(name: Seq<char>) -> spec_fn(Attribute<Seq<char>>) -> bool {
    |attribute: Attribute<Seq<char>>| attribute.name == name
}

/// The value of the attribute of a name.
pub open spec fn attribute(attributes: AttributesModel, name: Seq<char>) -> Option<
    AttributeValue<Seq<char>>,
> {
    match seqs::first_where(attributes, is_named(name), attributes.len() as int) {
        Some(i) => Some(attributes[i].value),
        None => None,
    }
}

impl Attributes {
    pub fn none() -> (attributes: Attributes)
        ensures
            attributes.deep_view() == AttributesModel::empty(),
    {
        let attributes = Attributes { entries: Vec::new() };
        assert(attributes.deep_view() =~= AttributesModel::empty());
        attributes
    }

    pub fn get(&self, name: &str) -> (value: Option<&AttributeValue<String>>)
        ensures
            attribute(self.deep_view(), name@) == match value {
                Some(value) => Some(value.deep_view()),
                None => None,
            },
    {
        let ghost all = self.deep_view();
        let ghost wanted = is_named(name@);
        assert(all.len() == self.entries@.len());
        let mut i: usize = 0;
        while i < self.entries.len()
            invariant
                i <= self.entries.len(),
                all == self.deep_view(),
                all.len() == self.entries@.len(),
                wanted == is_named(name@),
                seqs::first_where(all, wanted, i as int) is None,
            decreases self.entries.len() - i,
        {
            assert(all[i as int] == self.entries@[i as int].deep_view());
            if same_text(self.entries[i].name.as_str(), name) {
                proof {
                    seqs::lemma_first_where_stays(
                        all,
                        wanted,
                        i as int + 1,
                        all.len() as int,
                    );
                }
                return Some(&self.entries[i].value);
            }
            i += 1;
        }
        None
    }

    /// The text that an attribute holds, if it holds text.
    pub fn text(&self, name: &str) -> (text: Option<&String>)
        ensures
            match text {
                Some(text) => attribute(self.deep_view(), name@) == Some(
                    AttributeValue::Text(text@),
                ),
                None => !(attribute(self.deep_view(), name@) matches Some(AttributeValue::Text(_))),
            },
    {
        match self.get(name) {
            Some(AttributeValue::Text(text)) => Some(text),
            _ => None,
        }
    }

    /// The number that an attribute holds, if it holds a number.
    pub fn number(&self, name: &str) -> (number: Option<u64>)
        ensures
            match number {
                Some(number) => attribute(self.deep_view(), name@) == Some(
                    AttributeValue::<Seq<char>>::Unsigned(number),
                ),
                None => !(attribute(self.deep_view(), name@) matches Some(
                    AttributeValue::Unsigned(_),
                )),
            },
    {
        match self.get(name) {
            Some(AttributeValue::Unsigned(number)) => Some(*number),
            _ => None,
        }
    }

    /// Adds an attribute, unless there is one of this name.
    pub fn insert(&mut self, name: &str, value: AttributeValue<String>) -> (inserted: bool)
        ensures
            inserted == (attribute(old(self).deep_view(), name@) is None),
            final(self).deep_view() == (if inserted {
                old(self).deep_view().push(Attribute { name: name@, value: value.deep_view() })
            } else {
                old(self).deep_view()
            }),
    {
        if self.get(name).is_some() {
            return false;
        }
        let ghost before = self.entries;
        self.entries.push(Attribute { name: owned(name), value });
        proof {
            seqs::lemma_deep_push(before, self.entries);
        }
        true
    }

    pub fn copy(&self) -> (copy: Attributes)
        ensures
            copy.deep_view() == self.deep_view(),
    {
        let ghost all = self.deep_view();
        let mut entries: Vec<Attribute<String>> = Vec::new();
        for i in 0..self.entries.len()
            invariant
                all == self.deep_view(),
                all.len() == self.entries@.len(),
                entries@.len() == i,
                forall|j: int| 0 <= j < i ==> (#[trigger] entries@[j]).deep_view() == all[j],
        {
            assert(all[i as int] == self.entries@[i as int].deep_view());
            entries.push(
                Attribute {
                    name: owned(self.entries[i].name.as_str()),
                    value: self.entries[i].value.copy(),
                },
            );
        }
        assert(entries.deep_view() =~= all);
        Attributes { entries }
    }

    pub fn same(&self, other: &Attributes) -> (same: bool)
        ensures
            same == (self.deep_view() == other.deep_view()),
    {
        let ghost a = self.deep_view();
        let ghost b = other.deep_view();
        assert(a.len() == self.entries@.len() && b.len() == other.entries@.len());
        if self.entries.len() != other.entries.len() {
            return false;
        }
        let mut i: usize = 0;
        while i < self.entries.len()
            invariant
                i <= self.entries.len() == other.entries.len(),
                a == self.deep_view() && b == other.deep_view(),
                a.len() == self.entries@.len() && b.len() == other.entries@.len(),
                forall|j: int| 0 <= j < i ==> a[j] == b[j],
            decreases self.entries.len() - i,
        {
            assert(a[i as int] == self.entries@[i as int].deep_view());
            assert(b[i as int] == other.entries@[i as int].deep_view());
            if !same_text(self.entries[i].name.as_str(), other.entries[i].name.as_str())
                || !self.entries[i].value.same(&other.entries[i].value) {
                return false;
            }
            i += 1;
        }
        assert(a =~= b);
        true
    }
}

/// A thing that evidence is about.
#[derive(Clone, Debug, PartialEq, Eq)]
pub struct Subject {
    pub id: String,
    pub provider: String,
    pub kind: SubjectKind,
    pub attributes: Attributes,
}

#[verifier::ext_equal]
pub struct SubjectModel {
    pub id: Seq<char>,
    pub provider: Seq<char>,
    pub kind: SubjectKind,
    pub attributes: AttributesModel,
}

impl DeepView for Subject {
    type V = SubjectModel;

    open spec fn deep_view(&self) -> SubjectModel {
        SubjectModel {
            id: self.id@,
            provider: self.provider@,
            kind: self.kind,
            attributes: self.attributes.deep_view(),
        }
    }
}

#[derive(Clone, Debug, PartialEq, Eq)]
pub struct SubjectRef<T> {
    pub role: SubjectRole,
    pub id: T,
}

impl DeepView for SubjectRef<String> {
    type V = SubjectRef<Seq<char>>;

    open spec fn deep_view(&self) -> SubjectRef<Seq<char>> {
        SubjectRef { role: self.role, id: self.id@ }
    }
}

/// What all evidence has.
#[derive(Clone, Debug, PartialEq, Eq)]
pub struct EvidenceMeta {
    pub id: String,
    pub provider: String,
    pub layer: Option<Layer>,
    pub execution_domain: Option<String>,
    pub transition: Option<String>,
    pub descriptor: EvidenceDescriptor<String>,
    pub subjects: Vec<SubjectRef<String>>,
}

#[verifier::ext_equal]
pub struct MetaModel {
    pub id: Seq<char>,
    pub provider: Seq<char>,
    pub layer: Option<Layer>,
    pub execution_domain: Option<Seq<char>>,
    pub transition: Option<Seq<char>>,
    pub descriptor: EvidenceDescriptor<Seq<char>>,
    pub subjects: Seq<SubjectRef<Seq<char>>>,
}

impl DeepView for EvidenceMeta {
    type V = MetaModel;

    open spec fn deep_view(&self) -> MetaModel {
        MetaModel {
            id: self.id@,
            provider: self.provider@,
            layer: self.layer,
            execution_domain: text::optional_text(self.execution_domain),
            transition: text::optional_text(self.transition),
            descriptor: self.descriptor.deep_view(),
            subjects: self.subjects.deep_view(),
        }
    }
}

#[derive(Clone, Copy, Debug, PartialEq, Eq, Structural)]
pub struct MetricValues {
    pub start: Option<u64>,
    pub end: Option<u64>,
    pub delta: Option<u64>,
    pub reset: bool,
}

/// How a counter changed in the window.
#[derive(Clone, Debug, PartialEq, Eq)]
pub struct MetricDelta {
    pub meta: EvidenceMeta,
    pub metric_type: String,
    pub values: MetricValues,
    pub attributes: Attributes,
}

#[verifier::ext_equal]
pub struct MetricModel {
    pub meta: MetaModel,
    pub metric_type: Seq<char>,
    pub values: MetricValues,
    pub attributes: AttributesModel,
}

impl DeepView for MetricDelta {
    type V = MetricModel;

    open spec fn deep_view(&self) -> MetricModel {
        MetricModel {
            meta: self.meta.deep_view(),
            metric_type: self.metric_type@,
            values: self.values,
            attributes: self.attributes.deep_view(),
        }
    }
}

/// An event in the window.
#[derive(Clone, Debug, PartialEq, Eq)]
pub struct Observation {
    pub meta: EvidenceMeta,
    pub event_type: String,
    pub monotonic_ns: u64,
    pub attributes: Attributes,
}

#[verifier::ext_equal]
pub struct ObservationModel {
    pub meta: MetaModel,
    pub event_type: Seq<char>,
    pub monotonic_ns: u64,
    pub attributes: AttributesModel,
}

impl DeepView for Observation {
    type V = ObservationModel;

    open spec fn deep_view(&self) -> ObservationModel {
        ObservationModel {
            meta: self.meta.deep_view(),
            event_type: self.event_type@,
            monotonic_ns: self.monotonic_ns,
            attributes: self.attributes.deep_view(),
        }
    }
}

/// What is known of a counter of a source.
#[derive(Clone, Copy, Debug, PartialEq, Eq, Structural)]
pub enum CounterStatus {
    Measured { value: u64 },
    NotApplicable,
    Unknown,
}

/// What a source counts about itself.
#[derive(Clone, Copy, Debug, PartialEq, Eq, Structural)]
pub struct TelemetryCounters {
    pub bpf_events_seen: CounterStatus,
    pub bpf_output_lost: CounterStatus,
    pub transport_events_received: CounterStatus,
    pub transport_events_lost: CounterStatus,
    pub user_events_dropped: CounterStatus,
    pub netlink_loss_events: CounterStatus,
    pub netlink_dump_interruptions: CounterStatus,
    pub parse_errors: CounterStatus,
}

#[derive(Clone, Copy, Debug, PartialEq, Eq, Structural)]
pub enum SamplingComponent {
    Whole { scope: SamplingScope },
    Sampled {
        method: SamplingMethod,
        scope: SamplingScope,
        effective_numerator: u64,
        effective_denominator: u64,
    },
}

/// Whether events were left out on purpose.
#[derive(Clone, Debug, PartialEq, Eq)]
pub enum SamplingTelemetry {
    Whole,
    Sampled {
        method: SamplingMethod,
        scope: SamplingScope,
        effective_numerator: u64,
        effective_denominator: u64,
    },
    Mixed { components: Vec<SamplingComponent> },
}

#[derive(Clone, Debug, PartialEq, Eq)]
pub struct ProviderTelemetry {
    pub provider: String,
    pub counters: TelemetryCounters,
    pub sampling: SamplingTelemetry,
}

#[derive(Clone, Copy, Debug, PartialEq, Eq, Structural)]
pub enum TotalBound {
    Exact,
    LowerBound,
}

#[derive(Clone, Copy, Debug, PartialEq, Eq, Structural)]
pub struct BoundedTotal {
    pub value: u64,
    pub bound: TotalBound,
}

#[derive(Clone, Copy, Debug, PartialEq, Eq, Structural)]
pub struct TelemetryTotals {
    pub bpf_events_seen: BoundedTotal,
    pub bpf_output_lost: BoundedTotal,
    pub transport_events_received: BoundedTotal,
    pub transport_events_lost: BoundedTotal,
    pub user_events_dropped: BoundedTotal,
    pub netlink_loss_events: BoundedTotal,
    pub netlink_dump_interruptions: BoundedTotal,
    pub parse_errors: BoundedTotal,
}

#[derive(Clone, Debug, PartialEq, Eq)]
pub struct CollectionError {
    pub provider: String,
    pub message: String,
}

/// What the sources report of themselves.
#[derive(Clone, Debug, PartialEq, Eq)]
pub struct Telemetry {
    pub totals: TelemetryTotals,
    pub sampling: SamplingTelemetry,
    pub providers: Vec<ProviderTelemetry>,
    pub collection_errors: Vec<CollectionError>,
}

} // verus!
