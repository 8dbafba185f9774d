//! The registry of evidence providers: which layers each one covers, which metrics
//! and events it gives, and how far it can follow a filter.
use crate::evidence::{
    CoverageIntegrity, CoverageVisibility, EvidenceForm, FilterSupport, Layer, SubjectKind,
};
use crate::seqs;
use crate::text;
use crate::text::{same_text, starts_with};
use vstd::prelude::*;

verus! {

pub const PROVIDER_PROC_PROTOCOL: &'static str = "linux.proc.protocol";

pub const PROVIDER_SOFTNET: &'static str = "linux.softnet";

pub const PROVIDER_LINK: &'static str = "linux.link";

pub const PROVIDER_SOCK_DIAG: &'static str = "linux.sock_diag";

pub const PROVIDER_KFREE_SKB: &'static str = "linux.kfree_skb";

pub const PROVIDER_UDP_RECEIVE_ADMISSION: &'static str = "linux.udp.receive_admission";

pub const PROVIDER_SOCKET_RECEIVE_QUEUE_FULL: &'static str = "linux.socket.receive_queue_full";

pub const PROVIDER_NWDIAG_CORE: &'static str = "nwdiag.core";

pub const EVENT_SKB_FREE: &'static str = "linux.skb.free";

pub const EVENT_UDP_RECEIVE_ADMISSION_FAILURE: &'static str =
    "linux.udp.receive_admission_failure";

pub const EVENT_SOCKET_RECEIVE_QUEUE_FULL: &'static str = "linux.socket.queue_full";

/// Whether a provider has to report a counter about itself.
#[derive(Clone, Copy, Debug, PartialEq, Eq)]
pub enum TelemetryCounterRule {
    Required,
    NotApplicable,
    Optional,
    /// All counters of the named group, or none of them.
    AllOrNone(&'static str),
}

/// The rules for the counters that a provider reports about itself.
#[derive(Clone, Copy, Debug, PartialEq, Eq)]
pub struct TelemetryApplicability {
    pub bpf_events_seen: TelemetryCounterRule,
    pub bpf_output_lost: TelemetryCounterRule,
    pub transport_events_received: TelemetryCounterRule,
    pub transport_events_lost: TelemetryCounterRule,
    pub user_events_dropped: TelemetryCounterRule,
    pub netlink_loss_events: TelemetryCounterRule,
    pub netlink_dump_interruptions: TelemetryCounterRule,
    pub parse_errors: TelemetryCounterRule,
}

impl TelemetryApplicability {
    /// The rules in the order of the counters.
    pub fn as_array(self) -> (rules: [TelemetryCounterRule; 8])
        ensures
            rules@ == seq![
                self.bpf_events_seen,
                self.bpf_output_lost,
                self.transport_events_received,
                self.transport_events_lost,
                self.user_events_dropped,
                self.netlink_loss_events,
                self.netlink_dump_interruptions,
                self.parse_errors,
            ],
    {
        [
            self.bpf_events_seen,
            self.bpf_output_lost,
            self.transport_events_received,
            self.transport_events_lost,
            self.user_events_dropped,
            self.netlink_loss_events,
            self.netlink_dump_interruptions,
            self.parse_errors,
        ]
    }
}

/// The provider can only fail to parse.
pub open spec fn parse_only_rules() -> TelemetryApplicability {
    TelemetryApplicability {
        bpf_events_seen: TelemetryCounterRule::NotApplicable,
        bpf_output_lost: TelemetryCounterRule::NotApplicable,
        transport_events_received: TelemetryCounterRule::NotApplicable,
        transport_events_lost: TelemetryCounterRule::NotApplicable,
        user_events_dropped: TelemetryCounterRule::NotApplicable,
        netlink_loss_events: TelemetryCounterRule::NotApplicable,
        netlink_dump_interruptions: TelemetryCounterRule::NotApplicable,
        parse_errors: TelemetryCounterRule::Required,
    }
}

/// The provider can only fail to parse.
pub fn parse_only_telemetry() -> (rules: TelemetryApplicability)
    ensures
        rules == parse_only_rules(),
{
    TelemetryApplicability {
        bpf_events_seen: TelemetryCounterRule::NotApplicable,
        bpf_output_lost: TelemetryCounterRule::NotApplicable,
        transport_events_received: TelemetryCounterRule::NotApplicable,
        transport_events_lost: TelemetryCounterRule::NotApplicable,
        user_events_dropped: TelemetryCounterRule::NotApplicable,
        netlink_loss_events: TelemetryCounterRule::NotApplicable,
        netlink_dump_interruptions: TelemetryCounterRule::NotApplicable,
        parse_errors: TelemetryCounterRule::Required,
    }
}

/// The provider reads netlink dumps.
pub open spec fn netlink_rules() -> TelemetryApplicability {
    TelemetryApplicability {
        bpf_events_seen: TelemetryCounterRule::NotApplicable,
        bpf_output_lost: TelemetryCounterRule::NotApplicable,
        transport_events_received: TelemetryCounterRule::NotApplicable,
        transport_events_lost: TelemetryCounterRule::NotApplicable,
        user_events_dropped: TelemetryCounterRule::NotApplicable,
        netlink_loss_events: TelemetryCounterRule::Required,
        netlink_dump_interruptions: TelemetryCounterRule::Required,
        parse_errors: TelemetryCounterRule::Required,
    }
}

/// The provider reads netlink dumps.
pub fn netlink_telemetry() -> (rules: TelemetryApplicability)
    ensures
        rules == netlink_rules(),
{
    TelemetryApplicability {
        bpf_events_seen: TelemetryCounterRule::NotApplicable,
        bpf_output_lost: TelemetryCounterRule::NotApplicable,
        transport_events_received: TelemetryCounterRule::NotApplicable,
        transport_events_lost: TelemetryCounterRule::NotApplicable,
        user_events_dropped: TelemetryCounterRule::NotApplicable,
        netlink_loss_events: TelemetryCounterRule::Required,
        netlink_dump_interruptions: TelemetryCounterRule::Required,
        parse_errors: TelemetryCounterRule::Required,
    }
}

/// The provider counts on the whole path of an event, or not at all.
pub open spec fn event_rules() -> TelemetryApplicability {
    TelemetryApplicability {
        bpf_events_seen: TelemetryCounterRule::AllOrNone("event path"),
        bpf_output_lost: TelemetryCounterRule::AllOrNone("event path"),
        transport_events_received: TelemetryCounterRule::AllOrNone("event path"),
        transport_events_lost: TelemetryCounterRule::AllOrNone("event path"),
        user_events_dropped: TelemetryCounterRule::AllOrNone("event path"),
        netlink_loss_events: TelemetryCounterRule::NotApplicable,
        netlink_dump_interruptions: TelemetryCounterRule::NotApplicable,
        parse_errors: TelemetryCounterRule::AllOrNone("event path"),
    }
}

/// The provider counts on the whole path of an event, or not at all.
pub fn event_telemetry() -> (rules: TelemetryApplicability)
    ensures
        rules == event_rules(),
{
    TelemetryApplicability {
        bpf_events_seen: TelemetryCounterRule::AllOrNone("event path"),
        bpf_output_lost: TelemetryCounterRule::AllOrNone("event path"),
        transport_events_received: TelemetryCounterRule::AllOrNone("event path"),
        transport_events_lost: TelemetryCounterRule::AllOrNone("event path"),
        user_events_dropped: TelemetryCounterRule::AllOrNone("event path"),
        netlink_loss_events: TelemetryCounterRule::NotApplicable,
        netlink_dump_interruptions: TelemetryCounterRule::NotApplicable,
        parse_errors: TelemetryCounterRule::AllOrNone("event path"),
    }
}

/// Nothing is asked of the provider.
pub open spec fn unconstrained_rules() -> TelemetryApplicability {
    TelemetryApplicability {
        bpf_events_seen: TelemetryCounterRule::Optional,
        bpf_output_lost: TelemetryCounterRule::Optional,
        transport_events_received: TelemetryCounterRule::Optional,
        transport_events_lost: TelemetryCounterRule::Optional,
        user_events_dropped: TelemetryCounterRule::Optional,
        netlink_loss_events: TelemetryCounterRule::Optional,
        netlink_dump_interruptions: TelemetryCounterRule::Optional,
        parse_errors: TelemetryCounterRule::Optional,
    }
}

/// Nothing is asked of the provider.
pub fn unconstrained_telemetry() -> (rules: TelemetryApplicability)
    ensures
        rules == unconstrained_rules(),
{
    TelemetryApplicability {
        bpf_events_seen: TelemetryCounterRule::Optional,
        bpf_output_lost: TelemetryCounterRule::Optional,
        transport_events_received: TelemetryCounterRule::Optional,
        transport_events_lost: TelemetryCounterRule::Optional,
        user_events_dropped: TelemetryCounterRule::Optional,
        netlink_loss_events: TelemetryCounterRule::Optional,
        netlink_dump_interruptions: TelemetryCounterRule::Optional,
        parse_errors: TelemetryCounterRule::Optional,
    }
}

#[derive(Clone, Copy, Debug, PartialEq, Eq, Structural)]
pub enum ProviderActivation {
    Always,
    RuntimeReady,
    NotImplemented,
}

#[derive(Clone, Copy, Debug, PartialEq, Eq, Structural)]
pub enum NetworkNamespaceScope {
    Current,
    HostWide,
}

#[derive(Clone, Copy, Debug, PartialEq, Eq, Structural)]
pub enum InterfaceScope {
    AllVisible,
    RequestedPathWhenComplete,
}

#[derive(Clone, Copy, Debug, PartialEq, Eq, Structural)]
pub enum DirectionScope {
    Unspecified,
    Requested,
}

/// How exactly a provider follows each part of a filter.
#[derive(Clone, Copy, Debug, PartialEq, Eq, Structural)]
pub struct ProviderFilterSupport {
    pub layers: FilterSupport,
    pub network_namespace: FilterSupport,
    pub interface_path: FilterSupport,
    pub direction: FilterSupport,
    pub protocol: FilterSupport,
    pub source_address: FilterSupport,
    pub destination_address: FilterSupport,
    pub source_port: FilterSupport,
    pub destination_port: FilterSupport,
}

/// What a provider sees.
#[derive(Clone, Copy, Debug, PartialEq, Eq, Structural)]
pub struct ScopeDescriptor {
    pub activation: ProviderActivation,
    pub network_namespace: NetworkNamespaceScope,
    pub interface: InterfaceScope,
    pub direction: DirectionScope,
    pub filter_support: ProviderFilterSupport,
    pub complete_interface_path_support: Option<FilterSupport>,
}

impl ScopeDescriptor {
    /// How exactly the provider follows a filter, given whether the path of
    /// interfaces is known as a whole.
    pub fn filter_support(self, interface_path_complete: bool) -> (support: ProviderFilterSupport)
        ensures
            support == match self.complete_interface_path_support {
                Some(exact) if interface_path_complete => (ProviderFilterSupport {
                    interface_path: exact,
                    ..self.filter_support
                }),
                _ => self.filter_support,
            },
            !interface_path_complete ==> support == self.filter_support,
            support.direction == self.filter_support.direction,
            support.network_namespace == self.filter_support.network_namespace,
            interface_path_complete ==> (self.complete_interface_path_support matches Some(exact)
                ==> support.interface_path == exact),
    {
        let mut support = self.filter_support;
        if interface_path_complete {
            if let Some(exact) = self.complete_interface_path_support {
                support.interface_path = exact;
            }
        }
        support
    }
}

#[derive(Clone, Copy, Debug, PartialEq, Eq, Structural)]
pub enum CapabilityCoverage {
    BaselineCounters,
    ContextCounters,
    DeclaredEvents,
    DynamicEvents,
    Nothing,
}

#[derive(Clone, Copy, Debug, PartialEq, Eq, Structural)]
pub enum ObservationSemantics {
    Generic,
    SkbFree,
    UdpReceiveAdmission,
    SocketReceiveQueueFull,
}

#[derive(Clone, Copy, Debug, PartialEq, Eq, Structural)]
pub enum MetricSemantics {
    Generic,
    SocketDrops,
}

/// What a provider gives of a layer without further ado.
#[derive(Clone, Copy, Debug, PartialEq, Eq, Structural)]
pub struct CapabilityLayerCoverage {
    pub form: EvidenceForm,
    pub visibility: CoverageVisibility,
    pub filter_support: FilterSupport,
    pub integrity: CoverageIntegrity,
}

/// A layer that a provider covers.
#[derive(Clone, Copy, Debug, PartialEq, Eq, Structural)]
pub struct CapabilityLayerDescriptor {
    pub layer: Layer,
    pub baseline: Option<CapabilityLayerCoverage>,
}

/// A layer that is covered with evidence of a form.
pub open spec fn covered(
    layer: Layer,
    form: EvidenceForm,
    filter_support: FilterSupport,
) -> CapabilityLayerDescriptor {
    CapabilityLayerDescriptor {
        layer,
        baseline: Some(
            CapabilityLayerCoverage {
                form,
                visibility: CoverageVisibility::Partial,
                filter_support,
                integrity: CoverageIntegrity::Unknown,
            },
        ),
    }
}

/// A layer whose coverage is found out when the provider runs.
pub open spec fn dynamic_layer(layer: Layer) -> CapabilityLayerDescriptor {
    CapabilityLayerDescriptor { layer, baseline: None }
}

impl CapabilityLayerDescriptor {
    /// A layer that is covered with counters.
    pub fn baseline(layer: Layer, filter_support: FilterSupport) -> (descriptor:
        CapabilityLayerDescriptor)
        ensures
            descriptor == covered(layer, EvidenceForm::CounterDelta, filter_support),
    {
        CapabilityLayerDescriptor {
            layer,
            baseline: Some(
                CapabilityLayerCoverage {
                    form: EvidenceForm::CounterDelta,
                    visibility: CoverageVisibility::Partial,
                    filter_support,
                    integrity: CoverageIntegrity::Unknown,
                },
            ),
        }
    }

    pub fn dynamic(layer: Layer) -> (descriptor: CapabilityLayerDescriptor)
        ensures
            descriptor == dynamic_layer(layer),
    {
        CapabilityLayerDescriptor { layer, baseline: None }
    }

    /// A layer that is covered with events.
    pub fn baseline_event(layer: Layer) -> (descriptor: CapabilityLayerDescriptor)
        ensures
            descriptor == covered(layer, EvidenceForm::Event, FilterSupport::BroaderOnly),
    {
        CapabilityLayerDescriptor {
            layer,
            baseline: Some(
                CapabilityLayerCoverage {
                    form: EvidenceForm::Event,
                    visibility: CoverageVisibility::Partial,
                    filter_support: FilterSupport::BroaderOnly,
                    integrity: CoverageIntegrity::Unknown,
                },
            ),
        }
    }
}

/// A stage of the network stack that a provider has evidence of.
#[derive(Clone, Copy, Debug, PartialEq, Eq)]
pub struct CapabilityStageDescriptor<T> {
    pub layer: Layer,
    pub stage: T,
    pub execution_domain: T,
    pub form: EvidenceForm,
    pub visibility: CoverageVisibility,
    pub filter_support: FilterSupport,
    pub integrity: CoverageIntegrity,
    pub limitation: T,
}

impl DeepView for CapabilityStageDescriptor<&'static str> {
    type V = CapabilityStageDescriptor<Seq<char>>;

    open spec fn deep_view(&self) -> CapabilityStageDescriptor<Seq<char>> {
        CapabilityStageDescriptor {
            layer: self.layer,
            stage: self.stage@,
            execution_domain: self.execution_domain@,
            form: self.form,
            visibility: self.visibility,
            filter_support: self.filter_support,
            integrity: self.integrity,
            limitation: self.limitation@,
        }
    }
}

pub open spec fn stage_of(
    layer: Layer,
    form: EvidenceForm,
    stage: Seq<char>,
    execution_domain: Seq<char>,
    limitation: Seq<char>,
) -> CapabilityStageDescriptor<Seq<char>> {
    CapabilityStageDescriptor {
        layer,
        stage,
        execution_domain,
        form,
        visibility: CoverageVisibility::Partial,
        filter_support: FilterSupport::BroaderOnly,
        integrity: CoverageIntegrity::Unknown,
        limitation,
    }
}

impl CapabilityStageDescriptor<&'static str> {
    fn of_form(
        layer: Layer,
        form: EvidenceForm,
        stage: &'static str,
        execution_domain: &'static str,
        limitation: &'static str,
    ) -> (descriptor: CapabilityStageDescriptor<&'static str>)
        ensures
            descriptor.deep_view() == stage_of(
                layer,
                form,
                stage@,
                execution_domain@,
                limitation@,
            ),
    {
        CapabilityStageDescriptor {
            layer,
            stage,
            execution_domain,
            form,
            visibility: CoverageVisibility::Partial,
            filter_support: FilterSupport::BroaderOnly,
            integrity: CoverageIntegrity::Unknown,
            limitation,
        }
    }
}

/// An evidence provider.
#[derive(Clone, Debug, PartialEq, Eq)]
pub struct ProviderDescriptor {
    pub name: &'static str,
    pub owned_layers: Vec<CapabilityLayerDescriptor>,
    pub metric_sources: Vec<&'static str>,
    pub metric_type_prefixes: Vec<&'static str>,
    pub capability_source_aliases: Vec<&'static str>,
    pub observation_types: Vec<&'static str>,
    pub observation_semantics: ObservationSemantics,
    pub metric_semantics: MetricSemantics,
    pub subject_kinds: Vec<SubjectKind>,
    pub telemetry: TelemetryApplicability,
    pub scope: Option<ScopeDescriptor>,
    pub capability_coverage: CapabilityCoverage,
    pub capability_stages: Vec<CapabilityStageDescriptor<&'static str>>,
}

/// A provider as contracts speak of it.
#[verifier::ext_equal]
pub struct ProviderModel {
    pub name: Seq<char>,
    pub owned_layers: Seq<CapabilityLayerDescriptor>,
    pub metric_sources: Seq<Seq<char>>,
    pub metric_type_prefixes: Seq<Seq<char>>,
    pub capability_source_aliases: Seq<Seq<char>>,
    pub observation_types: Seq<Seq<char>>,
    pub observation_semantics: ObservationSemantics,
    pub metric_semantics: MetricSemantics,
    pub subject_kinds: Seq<SubjectKind>,
    pub telemetry: TelemetryApplicability,
    pub scope: Option<ScopeDescriptor>,
    pub capability_coverage: CapabilityCoverage,
    pub capability_stages: Seq<CapabilityStageDescriptor<Seq<char>>>,
}

impl DeepView for ProviderDescriptor {
    type V = ProviderModel;

    open spec fn deep_view(&self) -> ProviderModel {
        ProviderModel {
            name: self.name@,
            owned_layers: self.owned_layers@,
            metric_sources: self.metric_sources.deep_view(),
            metric_type_prefixes: self.metric_type_prefixes.deep_view(),
            capability_source_aliases: self.capability_source_aliases.deep_view(),
            observation_types: self.observation_types.deep_view(),
            observation_semantics: self.observation_semantics,
            metric_semantics: self.metric_semantics,
            subject_kinds: self.subject_kinds@,
            telemetry: self.telemetry,
            scope: self.scope,
            capability_coverage: self.capability_coverage,
            capability_stages: self.capability_stages.deep_view(),
        }
    }
}

pub open spec fn layer_owned(provider: ProviderModel, layer: Layer) -> bool {
    exists|i: int|
        0 <= i < provider.owned_layers.len() && (#[trigger] provider.owned_layers[i]).layer
            == layer
}

/// Whether a text is in a list.
fn lists(texts: &Vec<&'static str>, wanted: &str) -> (listed: bool)
    ensures
        listed == texts.deep_view().contains(wanted@),
{
    let ghost all = texts.deep_view();
    assert(all.len() == texts@.len());
    let mut i: usize = 0;
    while i < texts.len()
        invariant
            i <= texts.len(),
            all == texts.deep_view(),
            all.len() == texts@.len(),
            forall|j: int| 0 <= j < i ==> #[trigger] all[j] != wanted@,
        decreases texts.len() - i,
    {
        assert(all[i as int] == texts@[i as int]@);
        if same_text(texts[i], wanted) {
            assert(all[i as int] == wanted@);
            return true;
        }
        i += 1;
    }
    false
}

impl ProviderDescriptor {
    /// Whether the provider covers a layer.
    pub fn owns_layer(&self, layer: Layer) -> (owned: bool)
        ensures
            owned == layer_owned(self.deep_view(), layer),
    {
        let mut i: usize = 0;
        while i < self.owned_layers.len()
            invariant
                i <= self.owned_layers.len(),
                forall|j: int|
                    0 <= j < i ==> (#[trigger] self.owned_layers@[j]).layer != layer,
            decreases self.owned_layers.len() - i,
        {
            if self.owned_layers[i].layer == layer {
                assert(self.deep_view().owned_layers[i as int].layer == layer);
                return true;
            }
            i += 1;
        }
        false
    }

    /// The layers that the provider covers.
    pub fn owned_layer_ids(&self) -> (layers: Vec<Layer>)
        ensures
            layers@ == Seq::new(
                self.deep_view().owned_layers.len(),
                |i: int| self.deep_view().owned_layers[i].layer,
            ),
    {
        let mut layers: Vec<Layer> = Vec::new();
        for i in 0..self.owned_layers.len()
            invariant
                layers@.len() == i,
                forall|j: int| 0 <= j < i ==> layers@[j] == self.owned_layers@[j].layer,
        {
            layers.push(self.owned_layers[i].layer);
        }
        assert(layers@ =~= Seq::new(
            self.deep_view().owned_layers.len(),
            |i: int| self.deep_view().owned_layers[i].layer,
        ));
        layers
    }

    /// Whether a metric is one of the provider's: its type starts like them.
    pub fn supports_metric_type(&self, metric_type: &str) -> (supported: bool)
        ensures
            supported == exists|i: int|
                0 <= i < self.deep_view().metric_type_prefixes.len() && text::has_prefix(
                    metric_type@,
                    #[trigger] self.deep_view().metric_type_prefixes[i],
                ),
    {
        let ghost all = self.deep_view().metric_type_prefixes;
        assert(all.len() == self.metric_type_prefixes@.len());
        let mut i: usize = 0;
        while i < self.metric_type_prefixes.len()
            invariant
                i <= self.metric_type_prefixes.len(),
                all == self.deep_view().metric_type_prefixes,
                all.len() == self.metric_type_prefixes@.len(),
                forall|j: int|
                    0 <= j < i ==> !text::has_prefix(metric_type@, #[trigger] all[j]),
            decreases self.metric_type_prefixes.len() - i,
        {
            assert(all[i as int] == self.metric_type_prefixes@[i as int]@);
            if starts_with(metric_type, self.metric_type_prefixes[i]) {
                assert(text::has_prefix(metric_type@, all[i as int]));
                return true;
            }
            i += 1;
        }
        false
    }

    /// Whether an event is one of the provider's.
    pub fn supports_observation_type(&self, event_type: &str) -> (supported: bool)
        ensures
            supported == self.deep_view().observation_types.contains(event_type@),
    {
        lists(&self.observation_types, event_type)
    }

    /// Whether the provider speaks of subjects of a kind.
    pub fn supports_subject_kind(&self, kind: SubjectKind) -> (supported: bool)
        ensures
            supported == self.deep_view().subject_kinds.contains(kind),
    {
        let mut i: usize = 0;
        while i < self.subject_kinds.len()
            invariant
                i <= self.subject_kinds.len(),
                forall|j: int| 0 <= j < i ==> #[trigger] self.subject_kinds@[j] != kind,
            decreases self.subject_kinds.len() - i,
        {
            if self.subject_kinds[i] == kind {
                assert(self.deep_view().subject_kinds[i as int] == kind);
                return true;
            }
            i += 1;
        }
        false
    }
}

/// The support of a provider that follows layers exactly and addresses not at all.
pub open spec fn support_of(
    network_namespace: FilterSupport,
    interface_path: FilterSupport,
    direction: FilterSupport,
) -> ProviderFilterSupport {
    ProviderFilterSupport {
        layers: FilterSupport::UserspaceExact,
        network_namespace,
        interface_path,
        direction,
        protocol: FilterSupport::BroaderOnly,
        source_address: FilterSupport::BroaderOnly,
        destination_address: FilterSupport::BroaderOnly,
        source_port: FilterSupport::BroaderOnly,
        destination_port: FilterSupport::BroaderOnly,
    }
}

fn filter_support(
    network_namespace: FilterSupport,
    interface_path: FilterSupport,
    direction: FilterSupport,
) -> (support: ProviderFilterSupport)
    ensures
        support == support_of(network_namespace, interface_path, direction),
{
    ProviderFilterSupport {
        layers: FilterSupport::UserspaceExact,
        network_namespace,
        interface_path,
        direction,
        protocol: FilterSupport::BroaderOnly,
        source_address: FilterSupport::BroaderOnly,
        destination_address: FilterSupport::BroaderOnly,
        source_port: FilterSupport::BroaderOnly,
        destination_port: FilterSupport::BroaderOnly,
    }
}

pub open spec fn proc_protocol_model() -> ProviderModel {
    ProviderModel {
        name: PROVIDER_PROC_PROTOCOL@,
        owned_layers: seq![
            covered(Layer::Socket, EvidenceForm::CounterDelta, FilterSupport::BroaderOnly),
            covered(Layer::Transport, EvidenceForm::CounterDelta, FilterSupport::BroaderOnly),
            covered(Layer::Network, EvidenceForm::CounterDelta, FilterSupport::BroaderOnly),
            covered(Layer::Route, EvidenceForm::CounterDelta, FilterSupport::BroaderOnly),
        ],
        metric_sources: seq![
            "proc_net_snmp"@,
            "proc_net_netstat"@,
        ],
        metric_type_prefixes: seq![
            "linux.mib."@,
        ],
        capability_source_aliases: Seq::<Seq<char>>::empty(),
        observation_types: Seq::<Seq<char>>::empty(),
        observation_semantics: ObservationSemantics::Generic,
        metric_semantics: MetricSemantics::Generic,
        subject_kinds: Seq::<SubjectKind>::empty(),
        telemetry: parse_only_rules(),
        scope: Some(
            ScopeDescriptor {
                activation: ProviderActivation::Always,
                network_namespace: NetworkNamespaceScope::Current,
                interface: InterfaceScope::AllVisible,
                direction: DirectionScope::Unspecified,
                filter_support: support_of(
                    FilterSupport::KernelExact,
                    FilterSupport::BroaderOnly,
                    FilterSupport::BroaderOnly,
                ),
                complete_interface_path_support: None,
            },
        ),
        capability_coverage: CapabilityCoverage::BaselineCounters,
        capability_stages: seq![
            stage_of(
                Layer::Socket,
                EvidenceForm::CounterDelta,
                "socket.receive_queue"@,
                "linux.kernel"@,
                "protocol counters are current-network-namespace aggregates"@,
            ),
            stage_of(
                Layer::Socket,
                EvidenceForm::CounterDelta,
                "socket.listen_queue"@,
                "linux.kernel"@,
                "protocol counters are current-network-namespace aggregates"@,
            ),
            stage_of(
                Layer::Socket,
                EvidenceForm::CounterDelta,
                "socket.backlog"@,
                "linux.kernel"@,
                "protocol counters are current-network-namespace aggregates"@,
            ),
            stage_of(
                Layer::Transport,
                EvidenceForm::CounterDelta,
                "transport.retransmission"@,
                "linux.kernel"@,
                "protocol counters are current-network-namespace aggregates"@,
            ),
            stage_of(
                Layer::Network,
                EvidenceForm::CounterDelta,
                "network.unspecified"@,
                "linux.kernel"@,
                "protocol counters are current-network-namespace aggregates"@,
            ),
            stage_of(
                Layer::Network,
                EvidenceForm::CounterDelta,
                "network.receive_validation"@,
                "linux.kernel"@,
                "protocol counters are current-network-namespace aggregates"@,
            ),
            stage_of(
                Layer::Route,
                EvidenceForm::CounterDelta,
                "route.lookup"@,
                "linux.kernel"@,
                "protocol counters are current-network-namespace aggregates"@,
            ),
        ],
    }
}

fn proc_protocol_provider() -> (provider: ProviderDescriptor)
    ensures
        provider.deep_view() == proc_protocol_model(),
{
    let provider = ProviderDescriptor {
        name: PROVIDER_PROC_PROTOCOL,
        owned_layers: vec![
            CapabilityLayerDescriptor::baseline(Layer::Socket, FilterSupport::BroaderOnly),
            CapabilityLayerDescriptor::baseline(Layer::Transport, FilterSupport::BroaderOnly),
            CapabilityLayerDescriptor::baseline(Layer::Network, FilterSupport::BroaderOnly),
            CapabilityLayerDescriptor::baseline(Layer::Route, FilterSupport::BroaderOnly),
        ],
        metric_sources: vec![
            "proc_net_snmp",
            "proc_net_netstat",
        ],
        metric_type_prefixes: vec![
            "linux.mib.",
        ],
        capability_source_aliases: Vec::new(),
        observation_types: Vec::new(),
        observation_semantics: ObservationSemantics::Generic,
        metric_semantics: MetricSemantics::Generic,
        subject_kinds: Vec::new(),
        telemetry: parse_only_telemetry(),
        scope: Some(
            ScopeDescriptor {
                activation: ProviderActivation::Always,
                network_namespace: NetworkNamespaceScope::Current,
                interface: InterfaceScope::AllVisible,
                direction: DirectionScope::Unspecified,
                filter_support: filter_support(
                    FilterSupport::KernelExact,
                    FilterSupport::BroaderOnly,
                    FilterSupport::BroaderOnly,
                ),
                complete_interface_path_support: None,
            },
        ),
        capability_coverage: CapabilityCoverage::BaselineCounters,
        capability_stages: vec![
            CapabilityStageDescriptor::of_form(
                Layer::Socket,
                EvidenceForm::CounterDelta,
                "socket.receive_queue",
                "linux.kernel",
                "protocol counters are current-network-namespace aggregates",
            ),
            CapabilityStageDescriptor::of_form(
                Layer::Socket,
                EvidenceForm::CounterDelta,
                "socket.listen_queue",
                "linux.kernel",
                "protocol counters are current-network-namespace aggregates",
            ),
            CapabilityStageDescriptor::of_form(
                Layer::Socket,
                EvidenceForm::CounterDelta,
                "socket.backlog",
                "linux.kernel",
                "protocol counters are current-network-namespace aggregates",
            ),
            CapabilityStageDescriptor::of_form(
                Layer::Transport,
                EvidenceForm::CounterDelta,
                "transport.retransmission",
                "linux.kernel",
                "protocol counters are current-network-namespace aggregates",
            ),
            CapabilityStageDescriptor::of_form(
                Layer::Network,
                EvidenceForm::CounterDelta,
                "network.unspecified",
                "linux.kernel",
                "protocol counters are current-network-namespace aggregates",
            ),
            CapabilityStageDescriptor::of_form(
                Layer::Network,
                EvidenceForm::CounterDelta,
                "network.receive_validation",
                "linux.kernel",
                "protocol counters are current-network-namespace aggregates",
            ),
            CapabilityStageDescriptor::of_form(
                Layer::Route,
                EvidenceForm::CounterDelta,
                "route.lookup",
                "linux.kernel",
                "protocol counters are current-network-namespace aggregates",
            ),
        ],
    };
    assert(provider.deep_view() =~= proc_protocol_model());
    provider
}

pub open spec fn softnet_model() -> ProviderModel {
    ProviderModel {
        name: PROVIDER_SOFTNET@,
        owned_layers: seq![
            covered(Layer::Netdevice, EvidenceForm::CounterDelta, FilterSupport::BroaderOnly),
        ],
        metric_sources: seq![
            "proc_softnet"@,
        ],
        metric_type_prefixes: seq![
            "linux.softnet."@,
        ],
        capability_source_aliases: Seq::<Seq<char>>::empty(),
        observation_types: Seq::<Seq<char>>::empty(),
        observation_semantics: ObservationSemantics::Generic,
        metric_semantics: MetricSemantics::Generic,
        subject_kinds: Seq::<SubjectKind>::empty(),
        telemetry: parse_only_rules(),
        scope: Some(
            ScopeDescriptor {
                activation: ProviderActivation::Always,
                network_namespace: NetworkNamespaceScope::HostWide,
                interface: InterfaceScope::AllVisible,
                direction: DirectionScope::Unspecified,
                filter_support: support_of(
                    FilterSupport::BroaderOnly,
                    FilterSupport::BroaderOnly,
                    FilterSupport::BroaderOnly,
                ),
                complete_interface_path_support: None,
            },
        ),
        capability_coverage: CapabilityCoverage::BaselineCounters,
        capability_stages: seq![
            stage_of(
                Layer::Netdevice,
                EvidenceForm::CounterDelta,
                "netdevice.rx_backlog"@,
                "linux.kernel"@,
                "softnet counters are host-wide and not interface- or flow-scoped"@,
            ),
            stage_of(
                Layer::Netdevice,
                EvidenceForm::CounterDelta,
                "netdevice.softirq"@,
                "linux.kernel"@,
                "softnet counters are host-wide and not interface- or flow-scoped"@,
            ),
            stage_of(
                Layer::Netdevice,
                EvidenceForm::CounterDelta,
                "netdevice.rps_backlog"@,
                "linux.kernel"@,
                "softnet counters are host-wide and not interface- or flow-scoped"@,
            ),
        ],
    }
}

fn softnet_provider() -> (provider: ProviderDescriptor)
    ensures
        provider.deep_view() == softnet_model(),
{
    let provider = ProviderDescriptor {
        name: PROVIDER_SOFTNET,
        owned_layers: vec![
            CapabilityLayerDescriptor::baseline(Layer::Netdevice, FilterSupport::BroaderOnly),
        ],
        metric_sources: vec![
            "proc_softnet",
        ],
        metric_type_prefixes: vec![
            "linux.softnet.",
        ],
        capability_source_aliases: Vec::new(),
        observation_types: Vec::new(),
        observation_semantics: ObservationSemantics::Generic,
        metric_semantics: MetricSemantics::Generic,
        subject_kinds: Vec::new(),
        telemetry: parse_only_telemetry(),
        scope: Some(
            ScopeDescriptor {
                activation: ProviderActivation::Always,
                network_namespace: NetworkNamespaceScope::HostWide,
                interface: InterfaceScope::AllVisible,
                direction: DirectionScope::Unspecified,
                filter_support: filter_support(
                    FilterSupport::BroaderOnly,
                    FilterSupport::BroaderOnly,
                    FilterSupport::BroaderOnly,
                ),
                complete_interface_path_support: None,
            },
        ),
        capability_coverage: CapabilityCoverage::BaselineCounters,
        capability_stages: vec![
            CapabilityStageDescriptor::of_form(
                Layer::Netdevice,
                EvidenceForm::CounterDelta,
                "netdevice.rx_backlog",
                "linux.kernel",
                "softnet counters are host-wide and not interface- or flow-scoped",
            ),
            CapabilityStageDescriptor::of_form(
                Layer::Netdevice,
                EvidenceForm::CounterDelta,
                "netdevice.softirq",
                "linux.kernel",
                "softnet counters are host-wide and not interface- or flow-scoped",
            ),
            CapabilityStageDescriptor::of_form(
                Layer::Netdevice,
                EvidenceForm::CounterDelta,
                "netdevice.rps_backlog",
                "linux.kernel",
                "softnet counters are host-wide and not interface- or flow-scoped",
            ),
        ],
    };
    assert(provider.deep_view() =~= softnet_model());
    provider
}

pub open spec fn link_model() -> ProviderModel {
    ProviderModel {
        name: PROVIDER_LINK@,
        owned_layers: seq![
            covered(Layer::Netdevice, EvidenceForm::CounterDelta, FilterSupport::BroaderOnly),
            covered(Layer::Driver, EvidenceForm::CounterDelta, FilterSupport::UserspaceExact),
            covered(Layer::Nic, EvidenceForm::CounterDelta, FilterSupport::UserspaceExact),
        ],
        metric_sources: seq![
            "rtnetlink_link_stats"@,
            "sys_class_net"@,
            "proc_net_dev"@,
        ],
        metric_type_prefixes: seq![
            "linux.link."@,
        ],
        capability_source_aliases: Seq::<Seq<char>>::empty(),
        observation_types: Seq::<Seq<char>>::empty(),
        observation_semantics: ObservationSemantics::Generic,
        metric_semantics: MetricSemantics::Generic,
        subject_kinds: seq![
            SubjectKind::Queue,
            SubjectKind::Interface,
            SubjectKind::Hop,
        ],
        telemetry: netlink_rules(),
        scope: Some(
            ScopeDescriptor {
                activation: ProviderActivation::Always,
                network_namespace: NetworkNamespaceScope::Current,
                interface: InterfaceScope::RequestedPathWhenComplete,
                direction: DirectionScope::Requested,
                filter_support: support_of(
                    FilterSupport::KernelExact,
                    FilterSupport::BroaderOnly,
                    FilterSupport::UserspaceExact,
                ),
                complete_interface_path_support: Some(FilterSupport::UserspaceExact),
            },
        ),
        capability_coverage: CapabilityCoverage::BaselineCounters,
        capability_stages: seq![
            stage_of(
                Layer::Netdevice,
                EvidenceForm::CounterDelta,
                "netdevice.unspecified"@,
                "linux.kernel"@,
                "generic link counters do not identify an exact execution point"@,
            ),
            stage_of(
                Layer::Driver,
                EvidenceForm::CounterDelta,
                "driver.rx_queue"@,
                "linux.kernel"@,
                "generic link counters do not identify an exact execution point"@,
            ),
            stage_of(
                Layer::Driver,
                EvidenceForm::CounterDelta,
                "driver.unspecified"@,
                "linux.kernel"@,
                "generic link counters do not identify an exact execution point"@,
            ),
            stage_of(
                Layer::Nic,
                EvidenceForm::CounterDelta,
                "nic.phy"@,
                "linux.hardware"@,
                "generic link counters expose only a limited physical-device signal"@,
            ),
        ],
    }
}

fn link_provider() -> (provider: ProviderDescriptor)
    ensures
        provider.deep_view() == link_model(),
{
    let provider = ProviderDescriptor {
        name: PROVIDER_LINK,
        owned_layers: vec![
            CapabilityLayerDescriptor::baseline(Layer::Netdevice, FilterSupport::BroaderOnly),
            CapabilityLayerDescriptor::baseline(Layer::Driver, FilterSupport::UserspaceExact),
            CapabilityLayerDescriptor::baseline(Layer::Nic, FilterSupport::UserspaceExact),
        ],
        metric_sources: vec![
            "rtnetlink_link_stats",
            "sys_class_net",
            "proc_net_dev",
        ],
        metric_type_prefixes: vec![
            "linux.link.",
        ],
        capability_source_aliases: Vec::new(),
        observation_types: Vec::new(),
        observation_semantics: ObservationSemantics::Generic,
        metric_semantics: MetricSemantics::Generic,
        subject_kinds: vec![
            SubjectKind::Queue,
            SubjectKind::Interface,
            SubjectKind::Hop,
        ],
        telemetry: netlink_telemetry(),
        scope: Some(
            ScopeDescriptor {
                activation: ProviderActivation::Always,
                network_namespace: NetworkNamespaceScope::Current,
                interface: InterfaceScope::RequestedPathWhenComplete,
                direction: DirectionScope::Requested,
                filter_support: filter_support(
                    FilterSupport::KernelExact,
                    FilterSupport::BroaderOnly,
                    FilterSupport::UserspaceExact,
                ),
                complete_interface_path_support: Some(FilterSupport::UserspaceExact),
            },
        ),
        capability_coverage: CapabilityCoverage::BaselineCounters,
        capability_stages: vec![
            CapabilityStageDescriptor::of_form(
                Layer::Netdevice,
                EvidenceForm::CounterDelta,
                "netdevice.unspecified",
                "linux.kernel",
                "generic link counters do not identify an exact execution point",
            ),
            CapabilityStageDescriptor::of_form(
                Layer::Driver,
                EvidenceForm::CounterDelta,
                "driver.rx_queue",
                "linux.kernel",
                "generic link counters do not identify an exact execution point",
            ),
            CapabilityStageDescriptor::of_form(
                Layer::Driver,
                EvidenceForm::CounterDelta,
                "driver.unspecified",
                "linux.kernel",
                "generic link counters do not identify an exact execution point",
            ),
            CapabilityStageDescriptor::of_form(
                Layer::Nic,
                EvidenceForm::CounterDelta,
                "nic.phy",
                "linux.hardware",
                "generic link counters expose only a limited physical-device signal",
            ),
        ],
    };
    assert(provider.deep_view() =~= link_model());
    provider
}

pub open spec fn sock_diag_model() -> ProviderModel {
    ProviderModel {
        name: PROVIDER_SOCK_DIAG@,
        owned_layers: seq![
            covered(Layer::Socket, EvidenceForm::CounterDelta, FilterSupport::BroaderOnly),
        ],
        metric_sources: seq![
            "sock_diag_skmeminfo"@,
        ],
        metric_type_prefixes: seq![
            "linux.sock_diag."@,
        ],
        capability_source_aliases: Seq::<Seq<char>>::empty(),
        observation_types: Seq::<Seq<char>>::empty(),
        observation_semantics: ObservationSemantics::Generic,
        metric_semantics: MetricSemantics::SocketDrops,
        subject_kinds: seq![
            SubjectKind::Socket,
        ],
        telemetry: netlink_rules(),
        scope: Some(
            ScopeDescriptor {
                activation: ProviderActivation::Always,
                network_namespace: NetworkNamespaceScope::Current,
                interface: InterfaceScope::AllVisible,
                direction: DirectionScope::Unspecified,
                filter_support: support_of(
                    FilterSupport::KernelExact,
                    FilterSupport::BroaderOnly,
                    FilterSupport::BroaderOnly,
                ),
                complete_interface_path_support: None,
            },
        ),
        capability_coverage: CapabilityCoverage::ContextCounters,
        capability_stages: Seq::<CapabilityStageDescriptor<Seq<char>>>::empty(),
    }
}

fn sock_diag_provider() -> (provider: ProviderDescriptor)
    ensures
        provider.deep_view() == sock_diag_model(),
{
    let provider = ProviderDescriptor {
        name: PROVIDER_SOCK_DIAG,
        owned_layers: vec![
            CapabilityLayerDescriptor::baseline(Layer::Socket, FilterSupport::BroaderOnly),
        ],
        metric_sources: vec![
            "sock_diag_skmeminfo",
        ],
        metric_type_prefixes: vec![
            "linux.sock_diag.",
        ],
        capability_source_aliases: Vec::new(),
        observation_types: Vec::new(),
        observation_semantics: ObservationSemantics::Generic,
        metric_semantics: MetricSemantics::SocketDrops,
        subject_kinds: vec![
            SubjectKind::Socket,
        ],
        telemetry: netlink_telemetry(),
        scope: Some(
            ScopeDescriptor {
                activation: ProviderActivation::Always,
                network_namespace: NetworkNamespaceScope::Current,
                interface: InterfaceScope::AllVisible,
                direction: DirectionScope::Unspecified,
                filter_support: filter_support(
                    FilterSupport::KernelExact,
                    FilterSupport::BroaderOnly,
                    FilterSupport::BroaderOnly,
                ),
                complete_interface_path_support: None,
            },
        ),
        capability_coverage: CapabilityCoverage::ContextCounters,
        capability_stages: Vec::new(),
    };
    assert(provider.deep_view() =~= sock_diag_model());
    provider
}

pub open spec fn kfree_skb_model() -> ProviderModel {
    ProviderModel {
        name: PROVIDER_KFREE_SKB@,
        owned_layers: seq![
            dynamic_layer(Layer::Socket),
            dynamic_layer(Layer::Transport),
            dynamic_layer(Layer::Network),
            dynamic_layer(Layer::Netfilter),
            dynamic_layer(Layer::Route),
            dynamic_layer(Layer::Xfrm),
            dynamic_layer(Layer::VirtualDevice),
            dynamic_layer(Layer::Tc),
            dynamic_layer(Layer::Netdevice),
            dynamic_layer(Layer::Xdp),
        ],
        metric_sources: Seq::<Seq<char>>::empty(),
        metric_type_prefixes: Seq::<Seq<char>>::empty(),
        capability_source_aliases: seq![
            "kfree_skb_tracepoint"@,
        ],
        observation_types: seq![
            EVENT_SKB_FREE@,
        ],
        observation_semantics: ObservationSemantics::SkbFree,
        metric_semantics: MetricSemantics::Generic,
        subject_kinds: Seq::<SubjectKind>::empty(),
        telemetry: event_rules(),
        scope: Some(
            ScopeDescriptor {
                activation: ProviderActivation::RuntimeReady,
                network_namespace: NetworkNamespaceScope::HostWide,
                interface: InterfaceScope::AllVisible,
                direction: DirectionScope::Unspecified,
                filter_support: support_of(
                    FilterSupport::BroaderOnly,
                    FilterSupport::BroaderOnly,
                    FilterSupport::BroaderOnly,
                ),
                complete_interface_path_support: None,
            },
        ),
        capability_coverage: CapabilityCoverage::DynamicEvents,
        capability_stages: Seq::<CapabilityStageDescriptor<Seq<char>>>::empty(),
    }
}

fn kfree_skb_provider() -> (provider: ProviderDescriptor)
    ensures
        provider.deep_view() == kfree_skb_model(),
{
    let provider = ProviderDescriptor {
        name: PROVIDER_KFREE_SKB,
        owned_layers: vec![
            CapabilityLayerDescriptor::dynamic(Layer::Socket),
            CapabilityLayerDescriptor::dynamic(Layer::Transport),
            CapabilityLayerDescriptor::dynamic(Layer::Network),
            CapabilityLayerDescriptor::dynamic(Layer::Netfilter),
            CapabilityLayerDescriptor::dynamic(Layer::Route),
            CapabilityLayerDescriptor::dynamic(Layer::Xfrm),
            CapabilityLayerDescriptor::dynamic(Layer::VirtualDevice),
            CapabilityLayerDescriptor::dynamic(Layer::Tc),
            CapabilityLayerDescriptor::dynamic(Layer::Netdevice),
            CapabilityLayerDescriptor::dynamic(Layer::Xdp),
        ],
        metric_sources: Vec::new(),
        metric_type_prefixes: Vec::new(),
        capability_source_aliases: vec![
            "kfree_skb_tracepoint",
        ],
        observation_types: vec![
            EVENT_SKB_FREE,
        ],
        observation_semantics: ObservationSemantics::SkbFree,
        metric_semantics: MetricSemantics::Generic,
        subject_kinds: Vec::new(),
        telemetry: event_telemetry(),
        scope: Some(
            ScopeDescriptor {
                activation: ProviderActivation::RuntimeReady,
                network_namespace: NetworkNamespaceScope::HostWide,
                interface: InterfaceScope::AllVisible,
                direction: DirectionScope::Unspecified,
                filter_support: filter_support(
                    FilterSupport::BroaderOnly,
                    FilterSupport::BroaderOnly,
                    FilterSupport::BroaderOnly,
                ),
                complete_interface_path_support: None,
            },
        ),
        capability_coverage: CapabilityCoverage::DynamicEvents,
        capability_stages: Vec::new(),
    };
    assert(provider.deep_view() =~= kfree_skb_model());
    provider
}

pub open spec fn udp_receive_admission_model() -> ProviderModel {
    ProviderModel {
        name: PROVIDER_UDP_RECEIVE_ADMISSION@,
        owned_layers: seq![
            covered(Layer::Socket, EvidenceForm::Event, FilterSupport::BroaderOnly),
        ],
        metric_sources: Seq::<Seq<char>>::empty(),
        metric_type_prefixes: Seq::<Seq<char>>::empty(),
        capability_source_aliases: Seq::<Seq<char>>::empty(),
        observation_types: seq![
            EVENT_UDP_RECEIVE_ADMISSION_FAILURE@,
        ],
        observation_semantics: ObservationSemantics::UdpReceiveAdmission,
        metric_semantics: MetricSemantics::Generic,
        subject_kinds: Seq::<SubjectKind>::empty(),
        telemetry: event_rules(),
        scope: Some(
            ScopeDescriptor {
                activation: ProviderActivation::NotImplemented,
                network_namespace: NetworkNamespaceScope::HostWide,
                interface: InterfaceScope::AllVisible,
                direction: DirectionScope::Unspecified,
                filter_support: support_of(
                    FilterSupport::BroaderOnly,
                    FilterSupport::BroaderOnly,
                    FilterSupport::BroaderOnly,
                ),
                complete_interface_path_support: None,
            },
        ),
        capability_coverage: CapabilityCoverage::DeclaredEvents,
        capability_stages: seq![
            stage_of(
                Layer::Socket,
                EvidenceForm::Event,
                "socket.receive_queue"@,
                "linux.kernel"@,
                "provider adapter is not implemented; future events are host-wide and source-partial"@,
            ),
            stage_of(
                Layer::Socket,
                EvidenceForm::Event,
                "socket.protocol_memory"@,
                "linux.kernel"@,
                "provider adapter is not implemented; future events are host-wide and source-partial"@,
            ),
        ],
    }
}

fn udp_receive_admission_provider() -> (provider: ProviderDescriptor)
    ensures
        provider.deep_view() == udp_receive_admission_model(),
{
    let provider = ProviderDescriptor {
        name: PROVIDER_UDP_RECEIVE_ADMISSION,
        owned_layers: vec![
            CapabilityLayerDescriptor::baseline_event(Layer::Socket),
        ],
        metric_sources: Vec::new(),
        metric_type_prefixes: Vec::new(),
        capability_source_aliases: Vec::new(),
        observation_types: vec![
            EVENT_UDP_RECEIVE_ADMISSION_FAILURE,
        ],
        observation_semantics: ObservationSemantics::UdpReceiveAdmission,
        metric_semantics: MetricSemantics::Generic,
        subject_kinds: Vec::new(),
        telemetry: event_telemetry(),
        scope: Some(
            ScopeDescriptor {
                activation: ProviderActivation::NotImplemented,
                network_namespace: NetworkNamespaceScope::HostWide,
                interface: InterfaceScope::AllVisible,
                direction: DirectionScope::Unspecified,
                filter_support: filter_support(
                    FilterSupport::BroaderOnly,
                    FilterSupport::BroaderOnly,
                    FilterSupport::BroaderOnly,
                ),
                complete_interface_path_support: None,
            },
        ),
        capability_coverage: CapabilityCoverage::DeclaredEvents,
        capability_stages: vec![
            CapabilityStageDescriptor::of_form(
                Layer::Socket,
                EvidenceForm::Event,
                "socket.receive_queue",
                "linux.kernel",
                "provider adapter is not implemented; future events are host-wide and source-partial",
            ),
            CapabilityStageDescriptor::of_form(
                Layer::Socket,
                EvidenceForm::Event,
                "socket.protocol_memory",
                "linux.kernel",
                "provider adapter is not implemented; future events are host-wide and source-partial",
            ),
        ],
    };
    assert(provider.deep_view() =~= udp_receive_admission_model());
    provider
}

pub open spec fn socket_receive_queue_full_model() -> ProviderModel {
    ProviderModel {
        name: PROVIDER_SOCKET_RECEIVE_QUEUE_FULL@,
        owned_layers: seq![
            covered(Layer::Socket, EvidenceForm::Event, FilterSupport::BroaderOnly),
        ],
        metric_sources: Seq::<Seq<char>>::empty(),
        metric_type_prefixes: Seq::<Seq<char>>::empty(),
        capability_source_aliases: Seq::<Seq<char>>::empty(),
        observation_types: seq![
            EVENT_SOCKET_RECEIVE_QUEUE_FULL@,
        ],
        observation_semantics: ObservationSemantics::SocketReceiveQueueFull,
        metric_semantics: MetricSemantics::Generic,
        subject_kinds: Seq::<SubjectKind>::empty(),
        telemetry: event_rules(),
        scope: Some(
            ScopeDescriptor {
                activation: ProviderActivation::NotImplemented,
                network_namespace: NetworkNamespaceScope::HostWide,
                interface: InterfaceScope::AllVisible,
                direction: DirectionScope::Unspecified,
                filter_support: support_of(
                    FilterSupport::BroaderOnly,
                    FilterSupport::BroaderOnly,
                    FilterSupport::BroaderOnly,
                ),
                complete_interface_path_support: None,
            },
        ),
        capability_coverage: CapabilityCoverage::DeclaredEvents,
        capability_stages: seq![
            stage_of(
                Layer::Socket,
                EvidenceForm::Event,
                "socket.receive_queue"@,
                "linux.kernel"@,
                "provider adapter is not implemented; the tracepoint covers only the generic helper occupancy rejection"@,
            ),
        ],
    }
}

fn socket_receive_queue_full_provider() -> (provider: ProviderDescriptor)
    ensures
        provider.deep_view() == socket_receive_queue_full_model(),
{
    let provider = ProviderDescriptor {
        name: PROVIDER_SOCKET_RECEIVE_QUEUE_FULL,
        owned_layers: vec![
            CapabilityLayerDescriptor::baseline_event(Layer::Socket),
        ],
        metric_sources: Vec::new(),
        metric_type_prefixes: Vec::new(),
        capability_source_aliases: Vec::new(),
        observation_types: vec![
            EVENT_SOCKET_RECEIVE_QUEUE_FULL,
        ],
        observation_semantics: ObservationSemantics::SocketReceiveQueueFull,
        metric_semantics: MetricSemantics::Generic,
        subject_kinds: Vec::new(),
        telemetry: event_telemetry(),
        scope: Some(
            ScopeDescriptor {
                activation: ProviderActivation::NotImplemented,
                network_namespace: NetworkNamespaceScope::HostWide,
                interface: InterfaceScope::AllVisible,
                direction: DirectionScope::Unspecified,
                filter_support: filter_support(
                    FilterSupport::BroaderOnly,
                    FilterSupport::BroaderOnly,
                    FilterSupport::BroaderOnly,
                ),
                complete_interface_path_support: None,
            },
        ),
        capability_coverage: CapabilityCoverage::DeclaredEvents,
        capability_stages: vec![
            CapabilityStageDescriptor::of_form(
                Layer::Socket,
                EvidenceForm::Event,
                "socket.receive_queue",
                "linux.kernel",
                "provider adapter is not implemented; the tracepoint covers only the generic helper occupancy rejection",
            ),
        ],
    };
    assert(provider.deep_view() =~= socket_receive_queue_full_model());
    provider
}

pub open spec fn core_model() -> ProviderModel {
    ProviderModel {
        name: PROVIDER_NWDIAG_CORE@,
        owned_layers: Seq::<CapabilityLayerDescriptor>::empty(),
        metric_sources: Seq::<Seq<char>>::empty(),
        metric_type_prefixes: Seq::<Seq<char>>::empty(),
        capability_source_aliases: Seq::<Seq<char>>::empty(),
        observation_types: Seq::<Seq<char>>::empty(),
        observation_semantics: ObservationSemantics::Generic,
        metric_semantics: MetricSemantics::Generic,
        subject_kinds: seq![
            SubjectKind::Socket,
            SubjectKind::Rule,
            SubjectKind::Program,
            SubjectKind::Queue,
            SubjectKind::Interface,
            SubjectKind::Hop,
            SubjectKind::FlowDomain,
        ],
        telemetry: unconstrained_rules(),
        scope: None,
        capability_coverage: CapabilityCoverage::Nothing,
        capability_stages: Seq::<CapabilityStageDescriptor<Seq<char>>>::empty(),
    }
}

fn core_provider() -> (provider: ProviderDescriptor)
    ensures
        provider.deep_view() == core_model(),
{
    let provider = ProviderDescriptor {
        name: PROVIDER_NWDIAG_CORE,
        owned_layers: Vec::new(),
        metric_sources: Vec::new(),
        metric_type_prefixes: Vec::new(),
        capability_source_aliases: Vec::new(),
        observation_types: Vec::new(),
        observation_semantics: ObservationSemantics::Generic,
        metric_semantics: MetricSemantics::Generic,
        subject_kinds: vec![
            SubjectKind::Socket,
            SubjectKind::Rule,
            SubjectKind::Program,
            SubjectKind::Queue,
            SubjectKind::Interface,
            SubjectKind::Hop,
            SubjectKind::FlowDomain,
        ],
        telemetry: unconstrained_telemetry(),
        scope: None,
        capability_coverage: CapabilityCoverage::Nothing,
        capability_stages: Vec::new(),
    };
    assert(provider.deep_view() =~= core_model());
    provider
}

/// All providers.
pub open spec fn registry() -> Seq<ProviderModel> {
    seq![
        proc_protocol_model(),
        softnet_model(),
        link_model(),
        sock_diag_model(),
        kfree_skb_model(),
        udp_receive_admission_model(),
        socket_receive_queue_full_model(),
        core_model(),
    ]
}

/// All providers.
pub fn providers() -> (all: Vec<ProviderDescriptor>)
    ensures
        all.deep_view() == registry(),
{
    let mut all: Vec<ProviderDescriptor> = Vec::new();
    all.push(proc_protocol_provider());
    all.push(softnet_provider());
    all.push(link_provider());
    all.push(sock_diag_provider());
    all.push(kfree_skb_provider());
    all.push(udp_receive_admission_provider());
    all.push(socket_receive_queue_full_provider());
    all.push(core_provider());
    assert(all.deep_view() =~= registry());
    all
}

pub open spec fn is_called(name: Seq<char>) -> spec_fn(ProviderModel) -> bool {
    |provider: ProviderModel| provider.name == name
}

pub open spec fn has_metric_source(source: Seq<char>) -> spec_fn(ProviderModel) -> bool {
    |provider: ProviderModel| provider.metric_sources.contains(source)
}

pub open spec fn has_source(source: Seq<char>) -> spec_fn(ProviderModel) -> bool {
    |provider: ProviderModel|
        provider.metric_sources.contains(source) || provider.capability_source_aliases.contains(
            source,
        )
}

/// The first provider for which a condition holds.
pub open spec fn first_provider(p: spec_fn(ProviderModel) -> bool) -> Option<ProviderModel> {
    match seqs::first_where(registry(), p, registry().len() as int) {
        Some(i) => Some(registry()[i]),
        None => None,
    }
}

pub open spec fn model_of(provider: Option<ProviderDescriptor>) -> Option<ProviderModel> {
    match provider {
        Some(provider) => Some(provider.deep_view()),
        None => None,
    }
}

/// The provider of a name.
pub fn descriptor(name: &str) -> (provider: Option<ProviderDescriptor>)
    ensures
        model_of(provider) == first_provider(is_called(name@)),
{
    let mut all = providers();
    let ghost known = registry();
    let ghost wanted = is_called(name@);
    assert(known.len() == all@.len());
    let mut i: usize = 0;
    while i < all.len()
        invariant
            i <= all.len(),
            known == registry(),
            all.deep_view() == known,
            known.len() == all@.len(),
            wanted == is_called(name@),
            seqs::first_where(known, wanted, i as int) is None,
        decreases all.len() - i,
    {
        assert(known[i as int] == all@[i as int].deep_view());
        if same_text(all[i].name, name) {
            proof {
                seqs::lemma_first_where_stays(known, wanted, i as int + 1, known.len() as int);
            }
            return Some(all.remove(i));
        }
        i += 1;
    }
    None
}

/// The providers that take part in a capture.
pub open spec fn captured_upto(all: Seq<ProviderModel>, n: int) -> Seq<ProviderModel>
    decreases n,
{
    if n <= 0 {
        Seq::empty()
    } else if all[n - 1].scope is Some {
        captured_upto(all, n - 1).push(all[n - 1])
    } else {
        captured_upto(all, n - 1)
    }
}

/// The providers that take part in a capture: those that have a scope.
pub fn capture_descriptors() -> (captured: Vec<ProviderDescriptor>)
    ensures
        captured.deep_view() == captured_upto(registry(), registry().len() as int),
{
    let mut all = providers();
    let ghost known = registry();
    let mut captured: Vec<ProviderDescriptor> = Vec::new();
    assert(captured.deep_view() =~= Seq::<ProviderModel>::empty());
    let count: usize = all.len();
    assert(known.len() == count);
    let mut i: usize = 0;
    assert(known.skip(0) =~= known);
    while i < count
        invariant
            i <= count == known.len(),
            known == registry(),
            all.deep_view() == known.skip(i as int),
            captured.deep_view() == captured_upto(known, i as int),
        decreases count - i,
    {
        assert(all.deep_view().len() == all@.len());
        let ghost rest = all;
        let provider = all.remove(0);
        proof {
            assert(rest.deep_view()[0] == rest@[0].deep_view());
            assert(provider.deep_view() == known[i as int]);
            assert forall|k: int| 0 <= k < all@.len() implies all.deep_view()[k] == known.skip(
                i as int + 1,
            )[k] by {
                assert(all@[k] == rest@[k + 1]);
                assert(rest.deep_view()[k + 1] == rest@[k + 1].deep_view());
            }
            assert(all.deep_view() =~= known.skip(i as int + 1));
        }
        if provider.scope.is_some() {
            let ghost before = captured;
            captured.push(provider);
            proof {
                seqs::lemma_deep_push(before, captured);
            }
        }
        i += 1;
    }
    captured
}

/// The provider that reads a metric source.
pub fn descriptor_for_metric_source(source: &str) -> (provider: Option<ProviderDescriptor>)
    ensures
        model_of(provider) == first_provider(has_metric_source(source@)),
{
    let mut all = providers();
    let ghost known = registry();
    let ghost wanted = has_metric_source(source@);
    assert(known.len() == all@.len());
    let mut i: usize = 0;
    while i < all.len()
        invariant
            i <= all.len(),
            known == registry(),
            all.deep_view() == known,
            known.len() == all@.len(),
            wanted == has_metric_source(source@),
            seqs::first_where(known, wanted, i as int) is None,
        decreases all.len() - i,
    {
        assert(known[i as int] == all@[i as int].deep_view());
        if lists(&all[i].metric_sources, source) {
            proof {
                seqs::lemma_first_where_stays(known, wanted, i as int + 1, known.len() as int);
            }
            return Some(all.remove(i));
        }
        i += 1;
    }
    None
}

/// The provider that a capability source stands for: by its name, else by a source
/// that it reads or an older name of one.
pub fn descriptor_for_capability_source(source: &str) -> (provider: Option<ProviderDescriptor>)
    ensures
        model_of(provider) == match first_provider(is_called(source@)) {
            Some(provider) => Some(provider),
            None => first_provider(has_source(source@)),
        },
{
    if let Some(provider) = descriptor(source) {
        return Some(provider);
    }
    let mut all = providers();
    let ghost known = registry();
    let ghost wanted = has_source(source@);
    assert(known.len() == all@.len());
    let mut i: usize = 0;
    while i < all.len()
        invariant
            i <= all.len(),
            known == registry(),
            all.deep_view() == known,
            known.len() == all@.len(),
            wanted == has_source(source@),
            first_provider(is_called(source@)) is None,
            seqs::first_where(known, wanted, i as int) is None,
        decreases all.len() - i,
    {
        assert(known[i as int] == all@[i as int].deep_view());
        if lists(&all[i].metric_sources, source) || lists(
            &all[i].capability_source_aliases,
            source,
        ) {
            proof {
                seqs::lemma_first_where_stays(known, wanted, i as int + 1, known.len() as int);
            }
            return Some(all.remove(i));
        }
        i += 1;
    }
    None
}

/// The names under which capabilities of the first `n` providers are known.
pub open spec fn capability_sources(all: Seq<ProviderModel>, n: int) -> Seq<Seq<char>>
    decreases n,
{
    if n <= 0 {
        Seq::empty()
    } else {
        capability_sources(all, n - 1) + seq![all[n - 1].name] + all[n - 1].metric_sources + all[n
            - 1].capability_source_aliases
    }
}

/// The events of the first `n` providers.
pub open spec fn event_types(all: Seq<ProviderModel>, n: int) -> Seq<Seq<char>>
    decreases n,
{
    if n <= 0 {
        Seq::empty()
    } else {
        event_types(all, n - 1) + all[n - 1].observation_types
    }
}

/// Whether what a provider says of itself fits together.
pub open spec fn is_consistent(provider: ProviderModel) -> bool {
    let layers = provider.owned_layers;
    let stages = provider.capability_stages;
    let coverage = provider.capability_coverage;
    &&& provider.scope is Some ==> layers.len() > 0
    &&& (coverage is BaselineCounters || coverage is DeclaredEvents) ==> stages.len() > 0
    &&& coverage is ContextCounters ==> stages.len() == 0
    &&& forall|i: int, j: int|
        0 <= i < j < layers.len() ==> (#[trigger] layers[i]).layer != (#[trigger] layers[j]).layer
    &&& forall|i: int|
        0 <= i < layers.len() ==> ((#[trigger] layers[i]).baseline is Some <==> !(
        coverage is DynamicEvents || coverage is Nothing))
    &&& forall|i: int|
        0 <= i < stages.len() ==> layer_owned(provider, (#[trigger] stages[i]).layer)
            && text::has_prefix(stages[i].stage, stages[i].layer.word() + "."@)
    &&& forall|i: int, j: int|
        0 <= i < j < stages.len() ==> (#[trigger] stages[i]).stage != (#[trigger] stages[j]).stage
    &&& provider.subject_kinds.no_duplicates()
}

proof fn lemma_sources_are_distinct()
    ensures
        capability_sources(registry(), registry().len() as int).no_duplicates(),
{
    reveal_with_fuel(capability_sources, 9);
    reveal_strlit("linux.proc.protocol");
    reveal_strlit("proc_net_snmp");
    reveal_strlit("proc_net_netstat");
    reveal_strlit("linux.softnet");
    reveal_strlit("proc_softnet");
    reveal_strlit("linux.link");
    reveal_strlit("rtnetlink_link_stats");
    reveal_strlit("sys_class_net");
    reveal_strlit("proc_net_dev");
    reveal_strlit("linux.sock_diag");
    reveal_strlit("sock_diag_skmeminfo");
    reveal_strlit("linux.kfree_skb");
    reveal_strlit("kfree_skb_tracepoint");
    reveal_strlit("linux.udp.receive_admission");
    reveal_strlit("linux.socket.receive_queue_full");
    reveal_strlit("nwdiag.core");
    let known = seq![
        "linux.proc.protocol"@,
        "proc_net_snmp"@,
        "proc_net_netstat"@,
        "linux.softnet"@,
        "proc_softnet"@,
        "linux.link"@,
        "rtnetlink_link_stats"@,
        "sys_class_net"@,
        "proc_net_dev"@,
        "linux.sock_diag"@,
        "sock_diag_skmeminfo"@,
        "linux.kfree_skb"@,
        "kfree_skb_tracepoint"@,
        "linux.udp.receive_admission"@,
        "linux.socket.receive_queue_full"@,
        "nwdiag.core"@,
    ];
    assert(capability_sources(registry(), 8) =~= known);
    assert(known[0].len() == 19);
    assert(known[1].len() == 13);
    assert(known[2].len() == 16);
    assert(known[3].len() == 13);
    assert(known[4].len() == 12);
    assert(known[5].len() == 10);
    assert(known[6].len() == 20);
    assert(known[7].len() == 13);
    assert(known[8].len() == 12);
    assert(known[9].len() == 15);
    assert(known[10].len() == 19);
    assert(known[11].len() == 15);
    assert(known[12].len() == 20);
    assert(known[13].len() == 27);
    assert(known[14].len() == 31);
    assert(known[15].len() == 11);
    assert(known[0][0] != known[10][0]);
    assert(known[1][0] != known[3][0]);
    assert(known[1][0] != known[7][0]);
    assert(known[3][0] != known[7][0]);
    assert(known[4][5] != known[8][5]);
    assert(known[6][0] != known[12][0]);
    assert(known[9][6] != known[11][6]);
    assert(known.no_duplicates());
}

proof fn lemma_events_are_distinct()
    ensures
        event_types(registry(), registry().len() as int).no_duplicates(),
{
    reveal_with_fuel(event_types, 9);
    reveal_strlit("linux.skb.free");
    reveal_strlit("linux.udp.receive_admission_failure");
    reveal_strlit("linux.socket.queue_full");
    let known = seq!["linux.skb.free"@, "linux.udp.receive_admission_failure"@, "linux.socket.queue_full"@];
    assert(event_types(registry(), 8) =~= known);
    assert(known[0].len() == 14);
    assert(known[1].len() == 35);
    assert(known[2].len() == 23);
    assert(known.no_duplicates());
}

proof fn lemma_stage_names()
    ensures
        text::has_prefix("driver.rx_queue"@, Layer::Driver.word() + "."@),
        text::has_prefix("driver.unspecified"@, Layer::Driver.word() + "."@),
        text::has_prefix("netdevice.rps_backlog"@, Layer::Netdevice.word() + "."@),
        text::has_prefix("netdevice.rx_backlog"@, Layer::Netdevice.word() + "."@),
        text::has_prefix("netdevice.softirq"@, Layer::Netdevice.word() + "."@),
        text::has_prefix("netdevice.unspecified"@, Layer::Netdevice.word() + "."@),
        text::has_prefix("network.receive_validation"@, Layer::Network.word() + "."@),
        text::has_prefix("network.unspecified"@, Layer::Network.word() + "."@),
        text::has_prefix("nic.phy"@, Layer::Nic.word() + "."@),
        text::has_prefix("route.lookup"@, Layer::Route.word() + "."@),
        text::has_prefix("socket.backlog"@, Layer::Socket.word() + "."@),
        text::has_prefix("socket.listen_queue"@, Layer::Socket.word() + "."@),
        text::has_prefix("socket.protocol_memory"@, Layer::Socket.word() + "."@),
        text::has_prefix("socket.receive_queue"@, Layer::Socket.word() + "."@),
        text::has_prefix("transport.retransmission"@, Layer::Transport.word() + "."@),
{
    reveal_strlit(".");
    reveal_strlit("driver");
    reveal_strlit("netdevice");
    reveal_strlit("network");
    reveal_strlit("nic");
    reveal_strlit("route");
    reveal_strlit("socket");
    reveal_strlit("transport");
    reveal_strlit("driver.rx_queue");
    reveal_strlit("driver.unspecified");
    reveal_strlit("netdevice.rps_backlog");
    reveal_strlit("netdevice.rx_backlog");
    reveal_strlit("netdevice.softirq");
    reveal_strlit("netdevice.unspecified");
    reveal_strlit("network.receive_validation");
    reveal_strlit("network.unspecified");
    reveal_strlit("nic.phy");
    reveal_strlit("route.lookup");
    reveal_strlit("socket.backlog");
    reveal_strlit("socket.listen_queue");
    reveal_strlit("socket.protocol_memory");
    reveal_strlit("socket.receive_queue");
    reveal_strlit("transport.retransmission");
    assert("driver.rx_queue"@.take(7) =~= Layer::Driver.word() + "."@);
    assert("driver.unspecified"@.take(7) =~= Layer::Driver.word() + "."@);
    assert("netdevice.rps_backlog"@.take(10) =~= Layer::Netdevice.word() + "."@);
    assert("netdevice.rx_backlog"@.take(10) =~= Layer::Netdevice.word() + "."@);
    assert("netdevice.softirq"@.take(10) =~= Layer::Netdevice.word() + "."@);
    assert("netdevice.unspecified"@.take(10) =~= Layer::Netdevice.word() + "."@);
    assert("network.receive_validation"@.take(8) =~= Layer::Network.word() + "."@);
    assert("network.unspecified"@.take(8) =~= Layer::Network.word() + "."@);
    assert("nic.phy"@.take(4) =~= Layer::Nic.word() + "."@);
    assert("route.lookup"@.take(6) =~= Layer::Route.word() + "."@);
    assert("socket.backlog"@.take(7) =~= Layer::Socket.word() + "."@);
    assert("socket.listen_queue"@.take(7) =~= Layer::Socket.word() + "."@);
    assert("socket.protocol_memory"@.take(7) =~= Layer::Socket.word() + "."@);
    assert("socket.receive_queue"@.take(7) =~= Layer::Socket.word() + "."@);
    assert("transport.retransmission"@.take(10) =~= Layer::Transport.word() + "."@);
}

proof fn lemma_proc_protocol_is_consistent()
    ensures
        is_consistent(proc_protocol_model()),
{
    lemma_stage_names();
    reveal_strlit("socket.receive_queue");
    reveal_strlit("socket.listen_queue");
    reveal_strlit("socket.backlog");
    reveal_strlit("transport.retransmission");
    reveal_strlit("network.unspecified");
    reveal_strlit("network.receive_validation");
    reveal_strlit("route.lookup");
    let provider = proc_protocol_model();
    let stages = provider.capability_stages;
    assert forall|i: int| 0 <= i < stages.len() implies layer_owned(
        provider,
        (#[trigger] stages[i]).layer,
    ) by {
        if i == 0 {
            assert(provider.owned_layers[0].layer == stages[i].layer);
        }
        if i == 1 {
            assert(provider.owned_layers[0].layer == stages[i].layer);
        }
        if i == 2 {
            assert(provider.owned_layers[0].layer == stages[i].layer);
        }
        if i == 3 {
            assert(provider.owned_layers[1].layer == stages[i].layer);
        }
        if i == 4 {
            assert(provider.owned_layers[2].layer == stages[i].layer);
        }
        if i == 5 {
            assert(provider.owned_layers[2].layer == stages[i].layer);
        }
        if i == 6 {
            assert(provider.owned_layers[3].layer == stages[i].layer);
        }
    }
    assert(stages[0].stage.len() == 20);
    assert(stages[1].stage.len() == 19);
    assert(stages[2].stage.len() == 14);
    assert(stages[3].stage.len() == 24);
    assert(stages[4].stage.len() == 19);
    assert(stages[5].stage.len() == 26);
    assert(stages[6].stage.len() == 12);
    assert(stages[1].stage[0] != stages[4].stage[0]);
}

proof fn lemma_softnet_is_consistent()
    ensures
        is_consistent(softnet_model()),
{
    lemma_stage_names();
    reveal_strlit("netdevice.rx_backlog");
    reveal_strlit("netdevice.softirq");
    reveal_strlit("netdevice.rps_backlog");
    let provider = softnet_model();
    let stages = provider.capability_stages;
    assert forall|i: int| 0 <= i < stages.len() implies layer_owned(
        provider,
        (#[trigger] stages[i]).layer,
    ) by {
        if i == 0 {
            assert(provider.owned_layers[0].layer == stages[i].layer);
        }
        if i == 1 {
            assert(provider.owned_layers[0].layer == stages[i].layer);
        }
        if i == 2 {
            assert(provider.owned_layers[0].layer == stages[i].layer);
        }
    }
    assert(stages[0].stage.len() == 20);
    assert(stages[1].stage.len() == 17);
    assert(stages[2].stage.len() == 21);
}

proof fn lemma_link_is_consistent()
    ensures
        is_consistent(link_model()),
{
    lemma_stage_names();
    reveal_strlit("netdevice.unspecified");
    reveal_strlit("driver.rx_queue");
    reveal_strlit("driver.unspecified");
    reveal_strlit("nic.phy");
    let provider = link_model();
    let stages = provider.capability_stages;
    assert forall|i: int| 0 <= i < stages.len() implies layer_owned(
        provider,
        (#[trigger] stages[i]).layer,
    ) by {
        if i == 0 {
            assert(provider.owned_layers[0].layer == stages[i].layer);
        }
        if i == 1 {
            assert(provider.owned_layers[1].layer == stages[i].layer);
        }
        if i == 2 {
            assert(provider.owned_layers[1].layer == stages[i].layer);
        }
        if i == 3 {
            assert(provider.owned_layers[2].layer == stages[i].layer);
        }
    }
    assert(stages[0].stage.len() == 21);
    assert(stages[1].stage.len() == 15);
    assert(stages[2].stage.len() == 18);
    assert(stages[3].stage.len() == 7);
}

proof fn lemma_sock_diag_is_consistent()
    ensures
        is_consistent(sock_diag_model()),
{
}

proof fn lemma_kfree_skb_is_consistent()
    ensures
        is_consistent(kfree_skb_model()),
{
}

proof fn lemma_udp_receive_admission_is_consistent()
    ensures
        is_consistent(udp_receive_admission_model()),
{
    lemma_stage_names();
    reveal_strlit("socket.receive_queue");
    reveal_strlit("socket.protocol_memory");
    let provider = udp_receive_admission_model();
    let stages = provider.capability_stages;
    assert forall|i: int| 0 <= i < stages.len() implies layer_owned(
        provider,
        (#[trigger] stages[i]).layer,
    ) by {
        if i == 0 {
            assert(provider.owned_layers[0].layer == stages[i].layer);
        }
        if i == 1 {
            assert(provider.owned_layers[0].layer == stages[i].layer);
        }
    }
    assert(stages[0].stage.len() == 20);
    assert(stages[1].stage.len() == 22);
}

proof fn lemma_socket_receive_queue_full_is_consistent()
    ensures
        is_consistent(socket_receive_queue_full_model()),
{
    lemma_stage_names();
    reveal_strlit("socket.receive_queue");
    let provider = socket_receive_queue_full_model();
    let stages = provider.capability_stages;
    assert forall|i: int| 0 <= i < stages.len() implies layer_owned(
        provider,
        (#[trigger] stages[i]).layer,
    ) by {
        if i == 0 {
            assert(provider.owned_layers[0].layer == stages[i].layer);
        }
    }
}

proof fn lemma_core_is_consistent()
    ensures
        is_consistent(core_model()),
{
}

/// The registry is unique and consistent: no two providers have a name, a source or
/// an event in common, and what each says of its layers and stages fits together.
pub proof fn the_registry_is_consistent()
    ensures
        capability_sources(registry(), registry().len() as int).no_duplicates(),
        event_types(registry(), registry().len() as int).no_duplicates(),
        forall|i: int| 0 <= i < registry().len() ==> is_consistent(#[trigger] registry()[i]),
{
    lemma_sources_are_distinct();
    lemma_events_are_distinct();
    lemma_proc_protocol_is_consistent();
    lemma_softnet_is_consistent();
    lemma_link_is_consistent();
    lemma_sock_diag_is_consistent();
    lemma_kfree_skb_is_consistent();
    lemma_udp_receive_admission_is_consistent();
    lemma_socket_receive_queue_full_is_consistent();
    lemma_core_is_consistent();
}

} // verus!
