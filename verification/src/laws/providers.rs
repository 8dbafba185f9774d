//! What providers are: what each reads, covers, counts and can filter by.
use crate::evidence::{Layer, SubjectKind};
use crate::provider;
use crate::provider::{ProviderModel, TelemetryApplicability, TelemetryCounterRule};
use crate::seqs;
use vstd::prelude::*;

verus! {

/// The providers go by these names, in this order.
pub proof fn providers_go_by_their_names()
    ensures
        ({
            let all = provider::registry();
            &&& all.len() == 8
            &&& all[0].name == "linux.proc.protocol"@
            &&& all[1].name == "linux.softnet"@
            &&& all[2].name == "linux.link"@
            &&& all[3].name == "linux.sock_diag"@
            &&& all[4].name == "linux.kfree_skb"@
            &&& all[5].name == "linux.udp.receive_admission"@
            &&& all[6].name == "linux.socket.receive_queue_full"@
            &&& all[7].name == "nwdiag.core"@
        }),
{
}

/// Counters of protocols cover sockets, transport, the network and routes; those of the
/// receive path cover devices; those of links cover devices, drivers and cards; sockets and
/// their events cover sockets; freed packets cover every layer above the driver; and the
/// core covers none.
pub proof fn providers_cover_their_layers(layer: Layer)
    ensures
        ({
            let all = provider::registry();
            &&& provider::layer_owned(all[0], layer) <==> layer is Socket || layer is Transport
                || layer is Network || layer is Route
            &&& provider::layer_owned(all[1], layer) <==> layer is Netdevice
            &&& provider::layer_owned(all[2], layer) <==> layer is Netdevice || layer is Driver
                || layer is Nic
            &&& provider::layer_owned(all[3], layer) <==> layer is Socket
            &&& provider::layer_owned(all[4], layer) <==> !(layer is Driver) && !(layer is Nic)
            &&& provider::layer_owned(all[5], layer) <==> layer is Socket
            &&& provider::layer_owned(all[6], layer) <==> layer is Socket
            &&& !provider::layer_owned(all[7], layer)
        }),
{
    let all = provider::registry();
    let a = all[0].owned_layers;
    assert(a[0].layer is Socket && a[1].layer is Transport && a[2].layer is Network && a[3].layer
        is Route);
    assert(all[1].owned_layers[0].layer is Netdevice);
    let c = all[2].owned_layers;
    assert(c[0].layer is Netdevice && c[1].layer is Driver && c[2].layer is Nic);
    assert(all[3].owned_layers[0].layer is Socket);
    let e = all[4].owned_layers;
    assert(e[0].layer is Socket && e[1].layer is Transport && e[2].layer is Network && e[3].layer
        is Netfilter && e[4].layer is Route && e[5].layer is Xfrm && e[6].layer is VirtualDevice
        && e[7].layer is Tc && e[8].layer is Netdevice && e[9].layer is Xdp);
    assert(all[5].owned_layers[0].layer is Socket);
    assert(all[6].owned_layers[0].layer is Socket);
}

/// Every counter is read by the provider that it is named for.
pub proof fn providers_read_their_sources()
    ensures
        ({
            let all = provider::registry();
            &&& all[0].metric_sources == seq!["proc_net_snmp"@, "proc_net_netstat"@]
            &&& all[1].metric_sources == seq!["proc_softnet"@]
            &&& all[2].metric_sources == seq![
                "rtnetlink_link_stats"@,
                "sys_class_net"@,
                "proc_net_dev"@,
            ]
            &&& all[3].metric_sources == seq!["sock_diag_skmeminfo"@]
            &&& forall|i: int|
                4 <= i < 8 ==> (#[trigger] all[i]).metric_sources.len() == 0
                    && all[i].metric_type_prefixes.len() == 0
            &&& all[0].metric_type_prefixes == seq!["linux.mib."@]
            &&& all[1].metric_type_prefixes == seq!["linux.softnet."@]
            &&& all[2].metric_type_prefixes == seq!["linux.link."@]
            &&& all[3].metric_type_prefixes == seq!["linux.sock_diag."@]
            &&& all[4].capability_source_aliases == seq!["kfree_skb_tracepoint"@]
            &&& forall|i: int|
                0 <= i < 8 && i != 4 ==> (#[trigger] all[i]).capability_source_aliases.len() == 0
        }),
{
    let all = provider::registry();
    assert(all[0].metric_sources =~= seq!["proc_net_snmp"@, "proc_net_netstat"@]);
    assert(all[2].metric_sources =~= seq![
        "rtnetlink_link_stats"@,
        "sys_class_net"@,
        "proc_net_dev"@,
    ]);
}

/// Every event is seen by one provider, which knows what it means.
pub proof fn providers_see_their_events()
    ensures
        ({
            let all = provider::registry();
            &&& all[4].observation_types == seq!["linux.skb.free"@]
            &&& all[5].observation_types == seq!["linux.udp.receive_admission_failure"@]
            &&& all[6].observation_types == seq!["linux.socket.queue_full"@]
            &&& all[4].observation_semantics is SkbFree
            &&& all[5].observation_semantics is UdpReceiveAdmission
            &&& all[6].observation_semantics is SocketReceiveQueueFull
            &&& forall|i: int|
                0 <= i < 8 && !(4 <= i <= 6) ==> (#[trigger] all[i]).observation_types.len() == 0
                    && all[i].observation_semantics is Generic
            &&& forall|i: int|
                0 <= i < 8 ==> ((#[trigger] all[i]).metric_semantics is SocketDrops <==> i == 3)
        }),
{
}

/// Links are about queues, interfaces and hops, sockets about sockets, the core about
/// everything, and no other provider about any subject.
pub proof fn providers_are_about_their_subjects(kind: SubjectKind)
    ensures
        ({
            let all = provider::registry();
            &&& all[2].subject_kinds.contains(kind) <==> kind is Queue || kind is Interface
                || kind is Hop
            &&& all[3].subject_kinds.contains(kind) <==> kind is Socket
            &&& all[7].subject_kinds.contains(kind)
            &&& forall|i: int|
                0 <= i < 8 && i != 2 && i != 3 && i != 7 ==> !(
                #[trigger] all[i]).subject_kinds.contains(kind)
        }),
{
    let all = provider::registry();
    let c = all[2].subject_kinds;
    assert(c[0] is Queue && c[1] is Interface && c[2] is Hop);
    assert(all[3].subject_kinds[0] is Socket);
    let h = all[7].subject_kinds;
    assert(h[0] is Socket && h[1] is Rule && h[2] is Program && h[3] is Queue && h[4] is Interface
        && h[5] is Hop && h[6] is FlowDomain);
}

/// Counters are there always; freed packets when the system can trace them; the other events
/// are not implemented. Softnet and events are of the whole host, all else of one namespace.
/// Only links can be asked for by interface and by direction.
pub proof fn providers_cover_what_they_can(i: int)
    requires
        0 <= i < 8,
    ensures
        ({
            let all = provider::registry();
            &&& all[i].scope is None <==> i == 7
            &&& all[i].scope matches Some(scope) ==> {
                &&& scope.activation is Always <==> i < 4
                &&& scope.activation is RuntimeReady <==> i == 4
                &&& scope.activation is NotImplemented <==> i == 5 || i == 6
                &&& scope.network_namespace is HostWide <==> i == 1 || i >= 4
                &&& scope.interface is RequestedPathWhenComplete <==> i == 2
                &&& scope.direction is Requested <==> i == 2
                &&& scope.filter_support.layers is UserspaceExact
                &&& scope.filter_support.network_namespace is KernelExact
                    <==> scope.network_namespace is Current
                &&& scope.filter_support.network_namespace is BroaderOnly
                    <==> scope.network_namespace is HostWide
                &&& scope.filter_support.interface_path is BroaderOnly
                &&& scope.filter_support.direction is UserspaceExact <==> i == 2
                &&& scope.filter_support.direction is BroaderOnly <==> i != 2
                &&& scope.filter_support.protocol is BroaderOnly
                &&& scope.filter_support.source_address is BroaderOnly
                &&& scope.filter_support.destination_address is BroaderOnly
                &&& scope.filter_support.source_port is BroaderOnly
                &&& scope.filter_support.destination_port is BroaderOnly
                &&& scope.complete_interface_path_support is Some <==> i == 2
                &&& scope.complete_interface_path_support matches Some(support) ==> support
                    is UserspaceExact
            }
        }),
{
}

/// What a provider says of its own collection: whether it traced anything, whether it asked
/// the kernel for tables, and whether it read texts.
pub open spec fn reports(
    rules: TelemetryApplicability,
    traces: TelemetryCounterRule,
    asks: TelemetryCounterRule,
    reads: TelemetryCounterRule,
) -> bool {
    &&& rules.bpf_events_seen == traces
    &&& rules.bpf_output_lost == traces
    &&& rules.transport_events_received == traces
    &&& rules.transport_events_lost == traces
    &&& rules.user_events_dropped == traces
    &&& rules.netlink_loss_events == asks
    &&& rules.netlink_dump_interruptions == asks
    &&& rules.parse_errors == reads
}

/// Every provider counts what can go wrong for it: what reads texts counts what it could not
/// read, what asks the kernel also counts what was lost of the answers, and what traces
/// events counts what was lost of them, all of it or none. The core counts what it likes.
pub proof fn providers_count_what_can_go_wrong(i: int)
    requires
        0 <= i < 8,
    ensures
        ({
            let rules = provider::registry()[i].telemetry;
            let never = TelemetryCounterRule::NotApplicable;
            let always = TelemetryCounterRule::Required;
            let any = TelemetryCounterRule::Optional;
            let together = TelemetryCounterRule::AllOrNone("event path");
            &&& i == 0 || i == 1 ==> reports(rules, never, never, always)
            &&& i == 2 || i == 3 ==> reports(rules, never, always, always)
            &&& 4 <= i <= 6 ==> reports(rules, together, never, together)
            &&& i == 7 ==> reports(rules, any, any, any)
        }),
{
}

/// What a provider covers is covered in part, and nothing is known of what was lost; counters
/// come as counters and events as events, and only links can be told apart by device.
pub proof fn layers_are_covered_in_part(i: int, k: int)
    requires
        0 <= i < 8,
        0 <= k < provider::registry()[i].owned_layers.len(),
    ensures
        ({
            let layer = provider::registry()[i].owned_layers[k];
            &&& layer.baseline is None <==> i == 4
            &&& layer.baseline matches Some(cover) ==> {
                &&& cover.visibility is Partial
                &&& cover.integrity is Unknown
                &&& cover.form is CounterDelta <==> i < 4
                &&& cover.form is Event <==> i == 5 || i == 6
                &&& cover.filter_support is UserspaceExact <==> layer.layer is Driver
                    || layer.layer is Nic
                &&& cover.filter_support is BroaderOnly <==> !(layer.layer is Driver)
                    && !(layer.layer is Nic)
            }
        }),
{
}

/// How a provider covers its layers follows from what it delivers.
pub proof fn coverage_follows_from_what_is_delivered(i: int)
    requires
        0 <= i < 8,
    ensures
        ({
            let coverage = provider::registry()[i].capability_coverage;
            &&& coverage is BaselineCounters <==> i < 3
            &&& coverage is ContextCounters <==> i == 3
            &&& coverage is DynamicEvents <==> i == 4
            &&& coverage is DeclaredEvents <==> i == 5 || i == 6
            &&& coverage is Nothing <==> i == 7
        }),
{
}

/// The stages that a provider covers are these.
pub proof fn providers_cover_their_stages()
    ensures
        ({
            let all = provider::registry();
            let stage = |i: int, k: int| all[i].capability_stages[k].stage;
            &&& all[0].capability_stages.len() == 7
            &&& stage(0, 0) == "socket.receive_queue"@ && stage(0, 1) == "socket.listen_queue"@
                && stage(0, 2) == "socket.backlog"@ && stage(0, 3) == "transport.retransmission"@
                && stage(0, 4) == "network.unspecified"@ && stage(0, 5)
                == "network.receive_validation"@ && stage(0, 6) == "route.lookup"@
            &&& all[1].capability_stages.len() == 3
            &&& stage(1, 0) == "netdevice.rx_backlog"@ && stage(1, 1) == "netdevice.softirq"@
                && stage(1, 2) == "netdevice.rps_backlog"@
            &&& all[2].capability_stages.len() == 4
            &&& stage(2, 0) == "netdevice.unspecified"@ && stage(2, 1) == "driver.rx_queue"@
                && stage(2, 2) == "driver.unspecified"@ && stage(2, 3) == "nic.phy"@
            &&& all[5].capability_stages.len() == 2
            &&& stage(5, 0) == "socket.receive_queue"@ && stage(5, 1) == "socket.protocol_memory"@
            &&& all[6].capability_stages.len() == 1
            &&& stage(6, 0) == "socket.receive_queue"@
            &&& all[3].capability_stages.len() == 0 && all[4].capability_stages.len() == 0
                && all[7].capability_stages.len() == 0
        }),
{
}

/// A stage is covered in part and only by more than was asked for; it runs in the kernel, or
/// in hardware if it is of the card.
pub proof fn stages_are_covered_in_part(i: int, k: int)
    requires
        0 <= i < 8,
        0 <= k < provider::registry()[i].capability_stages.len(),
    ensures
        ({
            let stage = provider::registry()[i].capability_stages[k];
            &&& stage.visibility is Partial
            &&& stage.filter_support is BroaderOnly
            &&& stage.integrity is Unknown
            &&& stage.form is CounterDelta <==> i < 4
            &&& stage.form is Event <==> i == 5 || i == 6
            &&& stage.layer is Nic ==> stage.execution_domain == "linux.hardware"@
            &&& !(stage.layer is Nic) ==> stage.execution_domain == "linux.kernel"@
        }),
{
}

/// A provider is found by its name, by a counter that it reads, and by what its capability
/// goes by.
pub proof fn providers_are_found(i: int, wanted: spec_fn(ProviderModel) -> bool)
    requires
        0 <= i < 8,
        wanted(provider::registry()[i]),
        forall|j: int| 0 <= j < i ==> !wanted(#[trigger] provider::registry()[j]),
    ensures
        provider::first_provider(wanted) == Some(provider::registry()[i]),
        forall|name: Seq<char>, model: ProviderModel| #[trigger]
            provider::is_called(name)(model) <==> model.name == name,
        forall|source: Seq<char>, model: ProviderModel| #[trigger]
            provider::has_metric_source(source)(model) <==> model.metric_sources.contains(source),
        forall|source: Seq<char>, model: ProviderModel| #[trigger]
            provider::has_source(source)(model) <==> (model.metric_sources.contains(source)
                || model.capability_source_aliases.contains(source)),
{
    let all = provider::registry();
    seqs::lemma_first_where(all, wanted, all.len() as int);
    let found = seqs::first_where(all, wanted, all.len() as int);
    assert(found is Some);
    if found->0 < i {
        assert(!wanted(all[found->0]));
    }
}

/// What is captured is every provider with a scope, in order.
pub proof fn providers_with_a_scope_are_captured(all: Seq<ProviderModel>, n: int, i: int)
    requires
        0 <= i < n <= all.len(),
    ensures
        all[i].scope is Some ==> provider::captured_upto(all, n).contains(all[i]),
        forall|k: int|
            0 <= k < provider::captured_upto(all, n).len() ==> (#[trigger] provider::captured_upto(
                all,
                n,
            )[k]).scope is Some,
        provider::captured_upto(all, n).len() <= n,
    decreases n,
{
    let before = provider::captured_upto(all, n - 1);
    let now = provider::captured_upto(all, n);
    if n > 1 {
        providers_with_a_scope_are_captured(
            all,
            n - 1,
            if i < n - 1 {
                i
            } else {
                0
            },
        );
    }
    if all[i].scope is Some {
        if i < n - 1 {
            let k = choose|k: int| 0 <= k < before.len() && before[k] == all[i];
            assert(now[k] == before[k]);
        } else {
            assert(now[before.len() as int] == all[i]);
        }
    }
}

} // verus!
