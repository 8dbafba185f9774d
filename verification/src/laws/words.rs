//! The words that evidence is told in: no two things of one kind go by the same one.
use crate::evidence::{
    Availability, BpfMode, Confidence, CoverageIntegrity, CoverageVisibility, Direction,
    Disposition, EvidenceForm, EvidenceRole, FilterSupport, Layer, MeasurementBound,
    MeasurementScope, MeasurementUnit, PathRole, SamplingMethod, SamplingScope, Severity, Signal,
    SubjectKind, SubjectRole, TopologyGap, TracepointLayout,
};
use vstd::prelude::*;

verus! {

/// Layers go each by a word of their own.
pub proof fn layers_have_their_words(it: Layer)
    ensures
        it is Socket <==> it.word() == "socket"@,
        it is Transport <==> it.word() == "transport"@,
        it is Network <==> it.word() == "network"@,
        it is Netfilter <==> it.word() == "netfilter"@,
        it is Route <==> it.word() == "route"@,
        it is Xfrm <==> it.word() == "xfrm"@,
        it is VirtualDevice <==> it.word() == "virtual_device"@,
        it is Tc <==> it.word() == "tc"@,
        it is Netdevice <==> it.word() == "netdevice"@,
        it is Xdp <==> it.word() == "xdp"@,
        it is Driver <==> it.word() == "driver"@,
        it is Nic <==> it.word() == "nic"@,
{
    reveal_strlit("socket");
    reveal_strlit("transport");
    reveal_strlit("network");
    reveal_strlit("netfilter");
    reveal_strlit("route");
    reveal_strlit("xfrm");
    reveal_strlit("virtual_device");
    reveal_strlit("tc");
    reveal_strlit("netdevice");
    reveal_strlit("xdp");
    reveal_strlit("driver");
    reveal_strlit("nic");
    assert("socket"@.len() == 6 && "socket"@[0] == 's');
    assert("driver"@.len() == 6 && "driver"@[0] == 'd');
    assert("transport"@.len() == 9 && "transport"@[0] == 't');
    assert("netfilter"@.len() == 9 && "netfilter"@[0] == 'n' && "netfilter"@[3] == 'f');
    assert("netdevice"@.len() == 9 && "netdevice"@[0] == 'n' && "netdevice"@[3] == 'd');
    assert("network"@.len() == 7);
    assert("route"@.len() == 5);
    assert("xfrm"@.len() == 4);
    assert("virtual_device"@.len() == 14);
    assert("tc"@.len() == 2);
    assert("xdp"@.len() == 3 && "xdp"@[0] == 'x');
    assert("nic"@.len() == 3 && "nic"@[0] == 'n');
}

/// Directions go each by a word of their own.
pub proof fn directions_have_their_words(it: Direction)
    ensures
        it is Ingress <==> it.word() == "ingress"@,
        it is Egress <==> it.word() == "egress"@,
{
    reveal_strlit("ingress");
    reveal_strlit("egress");
    assert("ingress"@.len() == 7);
    assert("egress"@.len() == 6);
}

/// Kinds of subjects go each by a word of their own.
pub proof fn subject_kinds_have_their_words(it: SubjectKind)
    ensures
        it is Socket <==> it.word() == "socket"@,
        it is Rule <==> it.word() == "rule"@,
        it is Program <==> it.word() == "program"@,
        it is Queue <==> it.word() == "queue"@,
        it is Interface <==> it.word() == "interface"@,
        it is Hop <==> it.word() == "hop"@,
        it is FlowDomain <==> it.word() == "flow_domain"@,
{
    reveal_strlit("socket");
    reveal_strlit("rule");
    reveal_strlit("program");
    reveal_strlit("queue");
    reveal_strlit("interface");
    reveal_strlit("hop");
    reveal_strlit("flow_domain");
    assert("socket"@.len() == 6);
    assert("rule"@.len() == 4);
    assert("program"@.len() == 7);
    assert("queue"@.len() == 5);
    assert("interface"@.len() == 9);
    assert("hop"@.len() == 3);
    assert("flow_domain"@.len() == 11);
}

/// Roles of subjects go each by a word of their own.
pub proof fn subject_roles_have_their_words(it: SubjectRole)
    ensures
        it is Primary <==> it.word() == "primary"@,
        it is Ingress <==> it.word() == "ingress"@,
        it is Egress <==> it.word() == "egress"@,
        it is Owner <==> it.word() == "owner"@,
        it is Peer <==> it.word() == "peer"@,
        it is Before <==> it.word() == "before"@,
        it is After <==> it.word() == "after"@,
{
    reveal_strlit("primary");
    reveal_strlit("ingress");
    reveal_strlit("egress");
    reveal_strlit("owner");
    reveal_strlit("peer");
    reveal_strlit("before");
    reveal_strlit("after");
    assert("primary"@.len() == 7 && "primary"@[0] == 'p');
    assert("ingress"@.len() == 7 && "ingress"@[0] == 'i');
    assert("egress"@.len() == 6 && "egress"@[0] == 'e');
    assert("before"@.len() == 6 && "before"@[0] == 'b');
    assert("owner"@.len() == 5 && "owner"@[0] == 'o');
    assert("after"@.len() == 5 && "after"@[0] == 'a');
    assert("peer"@.len() == 4);
}

/// Kinds of filtering go each by a word of their own.
pub proof fn filter_supports_have_their_words(it: FilterSupport)
    ensures
        it is KernelExact <==> it.word() == "kernel_exact"@,
        it is UserspaceExact <==> it.word() == "userspace_exact"@,
        it is BroaderOnly <==> it.word() == "broader_only"@,
{
    reveal_strlit("kernel_exact");
    reveal_strlit("userspace_exact");
    reveal_strlit("broader_only");
    assert("kernel_exact"@.len() == 12 && "kernel_exact"@[0] == 'k');
    assert("broader_only"@.len() == 12 && "broader_only"@[0] == 'b');
    assert("userspace_exact"@.len() == 15);
}

/// Forms of evidence go each by a word of their own.
pub proof fn evidence_forms_have_their_words(it: EvidenceForm)
    ensures
        it is CounterDelta <==> it.word() == "counter_delta"@,
        it is Event <==> it.word() == "event"@,
{
    reveal_strlit("counter_delta");
    reveal_strlit("event");
    assert("counter_delta"@.len() == 13);
    assert("event"@.len() == 5);
}

/// Roles of evidence go each by a word of their own.
pub proof fn evidence_roles_have_their_words(it: EvidenceRole)
    ensures
        it is Causal <==> it.word() == "causal"@,
        it is Symptom <==> it.word() == "symptom"@,
        it is Context <==> it.word() == "context"@,
        it is Telemetry <==> it.word() == "telemetry"@,
{
    reveal_strlit("causal");
    reveal_strlit("symptom");
    reveal_strlit("context");
    reveal_strlit("telemetry");
    assert("causal"@.len() == 6);
    assert("symptom"@.len() == 7 && "symptom"@[0] == 's');
    assert("context"@.len() == 7 && "context"@[0] == 'c');
    assert("telemetry"@.len() == 9);
}

/// Degrees of visibility go each by a word of their own.
pub proof fn visibilities_have_their_words(it: CoverageVisibility)
    ensures
        it is Full <==> it.word() == "full"@,
        it is Partial <==> it.word() == "partial"@,
        it is Opaque <==> it.word() == "opaque"@,
{
    reveal_strlit("full");
    reveal_strlit("partial");
    reveal_strlit("opaque");
    assert("full"@.len() == 4);
    assert("partial"@.len() == 7);
    assert("opaque"@.len() == 6);
}

/// Degrees of integrity go each by a word of their own.
pub proof fn integrities_have_their_words(it: CoverageIntegrity)
    ensures
        it is Intact <==> it.word() == "intact"@,
        it is Lossy <==> it.word() == "lossy"@,
        it is Unknown <==> it.word() == "unknown"@,
{
    reveal_strlit("intact");
    reveal_strlit("lossy");
    reveal_strlit("unknown");
    assert("intact"@.len() == 6);
    assert("lossy"@.len() == 5);
    assert("unknown"@.len() == 7);
}

/// Degrees of availability go each by a word of their own.
pub proof fn availabilities_have_their_words(it: Availability)
    ensures
        it is Available <==> it.word() == "available"@,
        it is Degraded <==> it.word() == "degraded"@,
        it is Unavailable <==> it.word() == "unavailable"@,
{
    reveal_strlit("available");
    reveal_strlit("degraded");
    reveal_strlit("unavailable");
    assert("available"@.len() == 9);
    assert("degraded"@.len() == 8);
    assert("unavailable"@.len() == 11);
}

/// Fates of packets go each by a word of their own.
pub proof fn dispositions_have_their_words(it: Disposition)
    ensures
        it is Dropped <==> it.word() == "dropped"@,
        it is Rejected <==> it.word() == "rejected"@,
        it is Consumed <==> it.word() == "consumed"@,
        it is Passed <==> it.word() == "passed"@,
        it is Redirected <==> it.word() == "redirected"@,
        it is Queued <==> it.word() == "queued"@,
{
    reveal_strlit("dropped");
    reveal_strlit("rejected");
    reveal_strlit("consumed");
    reveal_strlit("passed");
    reveal_strlit("redirected");
    reveal_strlit("queued");
    assert("dropped"@.len() == 7);
    assert("rejected"@.len() == 8 && "rejected"@[0] == 'r');
    assert("consumed"@.len() == 8 && "consumed"@[0] == 'c');
    assert("passed"@.len() == 6 && "passed"@[0] == 'p');
    assert("queued"@.len() == 6 && "queued"@[0] == 'q');
    assert("redirected"@.len() == 10);
}

/// Signals go each by a word of their own.
pub proof fn signals_have_their_words(it: Signal)
    ensures
        it is Aborted <==> it.word() == "aborted"@,
        it is RedirectFailed <==> it.word() == "redirect_failed"@,
        it is Backpressure <==> it.word() == "backpressure"@,
        it is Congestion <==> it.word() == "congestion"@,
        it is Pressure <==> it.word() == "pressure"@,
        it is Timeout <==> it.word() == "timeout"@,
        it is Retransmission <==> it.word() == "retransmission"@,
        it is Reset <==> it.word() == "reset"@,
        it is Error <==> it.word() == "error"@,
{
    reveal_strlit("aborted");
    reveal_strlit("redirect_failed");
    reveal_strlit("backpressure");
    reveal_strlit("congestion");
    reveal_strlit("pressure");
    reveal_strlit("timeout");
    reveal_strlit("retransmission");
    reveal_strlit("reset");
    reveal_strlit("error");
    assert("aborted"@.len() == 7 && "aborted"@[0] == 'a');
    assert("timeout"@.len() == 7 && "timeout"@[0] == 't');
    assert("redirect_failed"@.len() == 15);
    assert("backpressure"@.len() == 12);
    assert("congestion"@.len() == 10);
    assert("pressure"@.len() == 8);
    assert("retransmission"@.len() == 14);
    assert("reset"@.len() == 5 && "reset"@[0] == 'r');
    assert("error"@.len() == 5 && "error"@[0] == 'e');
}

/// Roles on a path go each by a word of their own.
pub proof fn path_roles_have_their_words(it: PathRole)
    ensures
        it is Local <==> it.word() == "local"@,
        it is Forwarded <==> it.word() == "forwarded"@,
        it is Tunnel <==> it.word() == "tunnel"@,
        it is Bridge <==> it.word() == "bridge"@,
{
    reveal_strlit("local");
    reveal_strlit("forwarded");
    reveal_strlit("tunnel");
    reveal_strlit("bridge");
    assert("local"@.len() == 5);
    assert("forwarded"@.len() == 9);
    assert("tunnel"@.len() == 6 && "tunnel"@[0] == 't');
    assert("bridge"@.len() == 6 && "bridge"@[0] == 'b');
}

/// Units go each by a word of their own.
pub proof fn measurement_units_have_their_words(it: MeasurementUnit)
    ensures
        it is Packets <==> it.word() == "packets"@,
        it is Bytes <==> it.word() == "bytes"@,
        it is Events <==> it.word() == "events"@,
        it is SourceUnits <==> it.word() == "source_units"@,
{
    reveal_strlit("packets");
    reveal_strlit("bytes");
    reveal_strlit("events");
    reveal_strlit("source_units");
    assert("packets"@.len() == 7);
    assert("bytes"@.len() == 5);
    assert("events"@.len() == 6);
    assert("source_units"@.len() == 12);
}

/// Scopes of a measurement go each by a word of their own.
pub proof fn measurement_scopes_have_their_words(it: MeasurementScope)
    ensures
        it is Host <==> it.word() == "host"@,
        it is NetworkNamespace <==> it.word() == "network_namespace"@,
        it is Interface <==> it.word() == "interface"@,
        it is Queue <==> it.word() == "queue"@,
        it is Socket <==> it.word() == "socket"@,
{
    reveal_strlit("host");
    reveal_strlit("network_namespace");
    reveal_strlit("interface");
    reveal_strlit("queue");
    reveal_strlit("socket");
    assert("host"@.len() == 4);
    assert("network_namespace"@.len() == 17);
    assert("interface"@.len() == 9);
    assert("queue"@.len() == 5);
    assert("socket"@.len() == 6);
}

/// Bounds of a measurement go each by a word of their own.
pub proof fn measurement_bounds_have_their_words(it: MeasurementBound)
    ensures
        it is Exact <==> it.word() == "exact"@,
        it is LowerBound <==> it.word() == "lower_bound"@,
        it is Estimate <==> it.word() == "estimate"@,
{
    reveal_strlit("exact");
    reveal_strlit("lower_bound");
    reveal_strlit("estimate");
    assert("exact"@.len() == 5);
    assert("lower_bound"@.len() == 11);
    assert("estimate"@.len() == 8);
}

/// Ways of tracing go each by a word of their own.
pub proof fn bpf_modes_have_their_words(it: BpfMode)
    ensures
        it is ModernRing <==> it.word() == "modern_ring"@,
        it is LegacyPerf <==> it.word() == "legacy_perf"@,
        it is Unavailable <==> it.word() == "unavailable"@,
{
    reveal_strlit("modern_ring");
    reveal_strlit("legacy_perf");
    reveal_strlit("unavailable");
    assert("modern_ring"@.len() == 11 && "modern_ring"@[0] == 'm');
    assert("legacy_perf"@.len() == 11 && "legacy_perf"@[0] == 'l');
    assert("unavailable"@.len() == 11 && "unavailable"@[0] == 'u');
}

/// Layouts go each by a word of their own.
pub proof fn tracepoint_layouts_have_their_words(it: TracepointLayout)
    ensures
        it is Legacy <==> it.word() == "legacy"@,
        it is WithReason <==> it.word() == "with_reason"@,
{
    reveal_strlit("legacy");
    reveal_strlit("with_reason");
    assert("legacy"@.len() == 6);
    assert("with_reason"@.len() == 11);
}

/// Degrees of severity go each by a word of their own.
pub proof fn severities_have_their_words(it: Severity)
    ensures
        it is Info <==> it.word() == "info"@,
        it is Warning <==> it.word() == "warning"@,
        it is Error <==> it.word() == "error"@,
{
    reveal_strlit("info");
    reveal_strlit("warning");
    reveal_strlit("error");
    assert("info"@.len() == 4);
    assert("warning"@.len() == 7);
    assert("error"@.len() == 5);
}

/// Degrees of confidence go each by a word of their own.
pub proof fn confidences_have_their_words(it: Confidence)
    ensures
        it is Low <==> it.word() == "low"@,
        it is Medium <==> it.word() == "medium"@,
        it is High <==> it.word() == "high"@,
{
    reveal_strlit("low");
    reveal_strlit("medium");
    reveal_strlit("high");
    assert("low"@.len() == 3);
    assert("medium"@.len() == 6);
    assert("high"@.len() == 4);
}

/// Gaps go each by a word of their own.
pub proof fn topology_gaps_have_their_words(it: TopologyGap)
    ensures
        it is NamespaceBoundary <==> it.word() == "namespace_boundary"@,
        it is HiddenPeer <==> it.word() == "hidden_peer"@,
        it is DepthLimit <==> it.word() == "depth_limit"@,
{
    reveal_strlit("namespace_boundary");
    reveal_strlit("hidden_peer");
    reveal_strlit("depth_limit");
    assert("namespace_boundary"@.len() == 18);
    assert("hidden_peer"@.len() == 11 && "hidden_peer"@[0] == 'h');
    assert("depth_limit"@.len() == 11 && "depth_limit"@[0] == 'd');
}

/// Ways of sampling go each by a word of their own.
pub proof fn sampling_methods_have_their_words(it: SamplingMethod)
    ensures
        it is EveryNth <==> it.word() == "every_nth"@,
        it is Random <==> it.word() == "random"@,
{
    reveal_strlit("every_nth");
    reveal_strlit("random");
    assert("every_nth"@.len() == 9);
    assert("random"@.len() == 6);
}

/// Scopes of sampling go each by a word of their own.
pub proof fn sampling_scopes_have_their_words(it: SamplingScope)
    ensures
        it is Kernel <==> it.word() == "kernel"@,
        it is Transport <==> it.word() == "transport"@,
        it is Userspace <==> it.word() == "userspace"@,
{
    reveal_strlit("kernel");
    reveal_strlit("transport");
    reveal_strlit("userspace");
    assert("kernel"@.len() == 6);
    assert("transport"@.len() == 9 && "transport"@[0] == 't');
    assert("userspace"@.len() == 9 && "userspace"@[0] == 'u');
}

} // verus!
