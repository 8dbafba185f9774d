//! Reports: what a capture was asked for, what its sources cover, and what was found.
use crate::evidence::{
    Attributes, Availability, BpfMode, Confidence, CoverageIntegrity, CoverageVisibility,
    Direction, EvidenceDescriptor, EvidenceForm, FilterSupport, Layer, MetricDelta, Observation,
    Severity, Subject, Telemetry, TopologyGap, TracepointLayout,
};
use crate::provider::ProviderFilterSupport;
use vstd::prelude::*;

verus! {

/// How an interface was named.
#[derive(Clone, Debug, PartialEq, Eq)]
pub enum InterfaceAnchor {
    Name { name: String },
    Ifindex { ifindex: u32 },
}

/// An interface with those it is connected to.
#[derive(Clone, Debug, PartialEq, Eq)]
pub struct InterfacePath {
    pub anchor: InterfaceAnchor,
    pub visible_ifindices: Vec<u32>,
    pub topology_gaps: Vec<TopologyGap>,
}

/// Which packets were asked for. Addresses are in their usual notation.
#[derive(Clone, Debug, PartialEq, Eq)]
pub struct FlowFilter {
    pub protocol: Option<u8>,
    pub source_address: Option<String>,
    pub source_port: Option<u16>,
    pub destination_address: Option<String>,
    pub destination_port: Option<u16>,
}

#[derive(Clone, Debug, PartialEq, Eq)]
pub struct RequestedScope {
    pub layers: Vec<Layer>,
    pub network_namespace: Option<String>,
    pub interface_path: Option<InterfacePath>,
    pub direction: Option<Direction>,
    pub flow: FlowFilter,
}

#[derive(Clone, Debug, PartialEq, Eq)]
pub enum EffectiveNetworkNamespace {
    Current { identity: Option<String> },
    HostWide,
    Unknown,
}

#[derive(Clone, Debug, PartialEq, Eq)]
pub enum EffectiveInterfaceScope {
    AllVisible,
    Path { path: InterfacePath },
    Unknown,
}

/// What a source really looked at.
#[derive(Clone, Debug, PartialEq, Eq)]
pub struct EffectiveScope {
    pub layers: Vec<Layer>,
    pub network_namespace: EffectiveNetworkNamespace,
    pub interface_scope: EffectiveInterfaceScope,
    pub direction: Option<Direction>,
    pub flow: FlowFilter,
}

#[derive(Clone, Debug, PartialEq, Eq)]
pub struct ProviderScope {
    pub provider: String,
    pub effective: Option<EffectiveScope>,
    pub filter_support: ProviderFilterSupport,
}

#[derive(Clone, Debug, PartialEq, Eq)]
pub struct ReportScope {
    pub requested: RequestedScope,
    pub providers: Vec<ProviderScope>,
}

/// What evidence points to.
#[derive(Clone, Debug, PartialEq, Eq)]
pub struct Finding {
    pub severity: Severity,
    pub layer: Option<Layer>,
    pub confidence: Confidence,
    pub count: u64,
    pub descriptor: EvidenceDescriptor<String>,
    pub title: String,
    pub summary: String,
}

#[derive(Clone, Debug, PartialEq, Eq)]
pub struct ProviderCapability {
    pub name: String,
    pub state: Availability,
    pub detail: String,
}

/// The tracepoint of freed packets.
#[derive(Clone, Copy, Debug, PartialEq, Eq, Structural)]
pub struct KfreeSkbCapability {
    pub available: bool,
    pub layout: Option<TracepointLayout>,
    pub has_drop_reason: bool,
}

/// How a layer is covered.
#[derive(Clone, Debug, PartialEq, Eq)]
pub struct LayerCoverage {
    pub layer: Layer,
    pub availability: Availability,
    pub visibility: CoverageVisibility,
    pub filter_support: FilterSupport,
    pub integrity: CoverageIntegrity,
    pub forms: Vec<EvidenceForm>,
    pub sources: Vec<String>,
    pub limitations: Vec<String>,
}

/// How a source covers a stage.
#[derive(Clone, Debug, PartialEq, Eq)]
pub struct StageCoverage {
    pub provider: String,
    pub stage: String,
    pub layer: Layer,
    pub execution_domain: Option<String>,
    pub availability: Availability,
    pub visibility: CoverageVisibility,
    pub forms: Vec<EvidenceForm>,
    pub filter_support: FilterSupport,
    pub integrity: CoverageIntegrity,
    pub limitations: Vec<String>,
}

/// What can be observed on this system.
#[derive(Clone, Debug, PartialEq, Eq)]
pub struct CapabilityReport {
    pub kernel_release: Option<String>,
    pub has_kernel_btf: bool,
    pub kfree_skb: KfreeSkbCapability,
    pub selected_bpf_mode: BpfMode,
    pub providers: Vec<ProviderCapability>,
    pub coverage: Vec<LayerCoverage>,
    pub stage_coverage: Vec<StageCoverage>,
}

/// What a capture found.
#[derive(Clone, Debug, PartialEq, Eq)]
pub struct Report {
    pub duration_ms: u64,
    pub scope: ReportScope,
    pub subjects: Vec<Subject>,
    pub metrics: Vec<MetricDelta>,
    pub observations: Vec<Observation>,
    pub findings: Vec<Finding>,
    pub capabilities: CapabilityReport,
    pub telemetry: Telemetry,
}

/// One event of a trace.
#[derive(Clone, Debug, PartialEq, Eq)]
pub struct TraceRecord {
    pub sequence: u64,
    pub layer: Option<Layer>,
    pub event_type: String,
    pub descriptor: EvidenceDescriptor<String>,
    pub attributes: Attributes,
}

} // verus!
