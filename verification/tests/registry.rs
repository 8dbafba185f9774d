use netlens::evidence::{FilterSupport, Layer, SubjectKind};
use netlens::provider::{
    capture_descriptors, descriptor, descriptor_for_capability_source,
    descriptor_for_metric_source, event_telemetry, providers, CapabilityCoverage,
    NetworkNamespaceScope, ObservationSemantics, ProviderActivation, ProviderDescriptor,
    TelemetryCounterRule, EVENT_SOCKET_RECEIVE_QUEUE_FULL, EVENT_UDP_RECEIVE_ADMISSION_FAILURE,
    PROVIDER_KFREE_SKB, PROVIDER_LINK, PROVIDER_NWDIAG_CORE, PROVIDER_PROC_PROTOCOL,
    PROVIDER_SOCKET_RECEIVE_QUEUE_FULL, PROVIDER_SOCK_DIAG, PROVIDER_SOFTNET,
    PROVIDER_UDP_RECEIVE_ADMISSION,
};
use std::collections::BTreeSet;

const REQUIRED_PROVIDERS: [&str; 8] = [
    PROVIDER_PROC_PROTOCOL,
    PROVIDER_SOFTNET,
    PROVIDER_LINK,
    PROVIDER_SOCK_DIAG,
    PROVIDER_KFREE_SKB,
    PROVIDER_UDP_RECEIVE_ADMISSION,
    PROVIDER_SOCKET_RECEIVE_QUEUE_FULL,
    PROVIDER_NWDIAG_CORE,
];

fn validate_registry(registry: &[ProviderDescriptor], required: &[&str]) -> Result<(), String> {
    let mut names = BTreeSet::new();
    let mut metric_sources = BTreeSet::new();
    let mut capability_sources = BTreeSet::new();
    let mut observation_types = BTreeSet::new();
    for provider in registry {
        if !names.insert(provider.name) {
            return Err(format!("duplicate provider descriptor {}", provider.name));
        }
        for source in std::iter::once(provider.name)
            .chain(provider.metric_sources.iter().copied())
            .chain(provider.capability_source_aliases.iter().copied())
        {
            if !capability_sources.insert(source) {
                return Err(format!("duplicate capability source {source}"));
            }
        }
        if provider.scope.is_some() && provider.owned_layers.is_empty() {
            return Err(format!("capture provider {} has no owned layers", provider.name));
        }
        match provider.capability_coverage {
            CapabilityCoverage::BaselineCounters | CapabilityCoverage::DeclaredEvents
                if provider.capability_stages.is_empty() =>
            {
                return Err(format!(
                    "stage-owning provider {} has no capability stages",
                    provider.name
                ));
            }
            CapabilityCoverage::ContextCounters if !provider.capability_stages.is_empty() => {
                return Err(format!(
                    "context provider {} declares causal capability stages",
                    provider.name
                ));
            }
            _ => {}
        }
        let mut layers = BTreeSet::new();
        for owned in &provider.owned_layers {
            if !layers.insert(owned.layer.as_str()) {
                return Err(format!("provider {} repeats an owned layer", provider.name));
            }
            match provider.capability_coverage {
                CapabilityCoverage::BaselineCounters
                | CapabilityCoverage::ContextCounters
                | CapabilityCoverage::DeclaredEvents
                    if owned.baseline.is_none() =>
                {
                    return Err(format!(
                        "static provider {} has a layer without baseline coverage",
                        provider.name
                    ));
                }
                CapabilityCoverage::DynamicEvents | CapabilityCoverage::Nothing
                    if owned.baseline.is_some() =>
                {
                    return Err(format!(
                        "non-static provider {} has static layer coverage",
                        provider.name
                    ));
                }
                _ => {}
            }
        }
        let mut stages = BTreeSet::new();
        for stage in &provider.capability_stages {
            if !provider.owns_layer(stage.layer) {
                return Err(format!(
                    "provider {} stage {} is outside its owned layers",
                    provider.name, stage.stage
                ));
            }
            if stage.stage.split('.').next() != Some(stage.layer.as_str()) {
                return Err(format!(
                    "provider {} stage {} conflicts with its layer",
                    provider.name, stage.stage
                ));
            }
            if !stages.insert((stage.stage, stage.execution_domain)) {
                return Err(format!(
                    "provider {} repeats capability stage {}",
                    provider.name, stage.stage
                ));
            }
        }
        for source in &provider.metric_sources {
            if !metric_sources.insert(*source) {
                return Err(format!("duplicate metric source {source}"));
            }
        }
        for event_type in &provider.observation_types {
            if !observation_types.insert(*event_type) {
                return Err(format!("duplicate observation type {event_type}"));
            }
        }
        let subject_kinds: BTreeSet<_> =
            provider.subject_kinds.iter().map(|kind| kind.as_str()).collect();
        if subject_kinds.len() != provider.subject_kinds.len() {
            return Err(format!("provider {} repeats a subject kind", provider.name));
        }
    }
    for name in required {
        if !names.contains(name) {
            return Err(format!("missing provider descriptor {name}"));
        }
    }
    Ok(())
}

fn named(provider: Option<ProviderDescriptor>) -> Option<&'static str> {
    provider.map(|provider| provider.name)
}

fn layers_of(name: &str) -> Vec<Layer> {
    descriptor(name).unwrap().owned_layer_ids()
}

#[test]
fn registry_is_unique_complete_and_internally_consistent() {
    let all = providers();
    validate_registry(&all, &REQUIRED_PROVIDERS).unwrap();
    assert_eq!(
        all.iter().map(|provider| provider.name).collect::<Vec<_>>(),
        REQUIRED_PROVIDERS
    );
}

#[test]
fn duplicate_and_missing_descriptors_fail_registry_validation() {
    let all = providers();
    let mut duplicate = all.to_vec();
    duplicate.push(all[0].clone());
    assert!(validate_registry(&duplicate, &REQUIRED_PROVIDERS)
        .unwrap_err()
        .contains("duplicate provider descriptor"));

    assert!(validate_registry(&all[1..], &REQUIRED_PROVIDERS)
        .unwrap_err()
        .contains("missing provider descriptor"));
}

#[test]
fn capture_provider_and_metric_source_registry_matches_v5() {
    assert_eq!(
        capture_descriptors().iter().map(|provider| provider.name).collect::<Vec<_>>(),
        [
            PROVIDER_PROC_PROTOCOL,
            PROVIDER_SOFTNET,
            PROVIDER_LINK,
            PROVIDER_SOCK_DIAG,
            PROVIDER_KFREE_SKB,
            PROVIDER_UDP_RECEIVE_ADMISSION,
            PROVIDER_SOCKET_RECEIVE_QUEUE_FULL,
        ]
    );
    for (source, provider) in [
        ("proc_net_snmp", PROVIDER_PROC_PROTOCOL),
        ("proc_net_netstat", PROVIDER_PROC_PROTOCOL),
        ("proc_softnet", PROVIDER_SOFTNET),
        ("rtnetlink_link_stats", PROVIDER_LINK),
        ("sys_class_net", PROVIDER_LINK),
        ("proc_net_dev", PROVIDER_LINK),
        ("sock_diag_skmeminfo", PROVIDER_SOCK_DIAG),
    ] {
        assert_eq!(named(descriptor_for_metric_source(source)), Some(provider));
    }
    assert!(descriptor_for_metric_source("linux.unknown").is_none());
    assert_eq!(
        named(descriptor_for_capability_source("kfree_skb_tracepoint")),
        Some(PROVIDER_KFREE_SKB)
    );
    assert_eq!(
        named(descriptor_for_capability_source("rtnetlink_link_stats")),
        Some(PROVIDER_LINK)
    );
    assert!(descriptor_for_capability_source("linux.unknown").is_none());
    assert!(descriptor("linux.unknown").is_none());
}

#[test]
fn owned_layers_match_existing_capture_contract() {
    assert_eq!(
        layers_of(PROVIDER_PROC_PROTOCOL),
        [Layer::Socket, Layer::Transport, Layer::Network, Layer::Route]
    );
    assert_eq!(layers_of(PROVIDER_SOFTNET), [Layer::Netdevice]);
    assert_eq!(layers_of(PROVIDER_LINK), [Layer::Netdevice, Layer::Driver, Layer::Nic]);
    assert_eq!(
        layers_of(PROVIDER_KFREE_SKB),
        [
            Layer::Socket,
            Layer::Transport,
            Layer::Network,
            Layer::Netfilter,
            Layer::Route,
            Layer::Xfrm,
            Layer::VirtualDevice,
            Layer::Tc,
            Layer::Netdevice,
            Layer::Xdp,
        ]
    );
    assert_eq!(layers_of(PROVIDER_SOCK_DIAG), [Layer::Socket]);
    assert_eq!(layers_of(PROVIDER_UDP_RECEIVE_ADMISSION), [Layer::Socket]);
    assert_eq!(layers_of(PROVIDER_SOCKET_RECEIVE_QUEUE_FULL), [Layer::Socket]);
    assert!(descriptor(PROVIDER_NWDIAG_CORE).unwrap().owned_layers.is_empty());
}

#[test]
fn socket_context_and_causal_event_profiles_remain_separate() {
    let sock_diag = descriptor(PROVIDER_SOCK_DIAG).unwrap();
    assert_eq!(sock_diag.capability_coverage, CapabilityCoverage::ContextCounters);
    assert!(sock_diag.capability_stages.is_empty());

    for (name, event_type, semantics, stages) in [
        (
            PROVIDER_UDP_RECEIVE_ADMISSION,
            EVENT_UDP_RECEIVE_ADMISSION_FAILURE,
            ObservationSemantics::UdpReceiveAdmission,
            &["socket.receive_queue", "socket.protocol_memory"][..],
        ),
        (
            PROVIDER_SOCKET_RECEIVE_QUEUE_FULL,
            EVENT_SOCKET_RECEIVE_QUEUE_FULL,
            ObservationSemantics::SocketReceiveQueueFull,
            &["socket.receive_queue"][..],
        ),
    ] {
        let provider = descriptor(name).unwrap();
        let scope = provider.scope.unwrap();
        assert_eq!(provider.capability_coverage, CapabilityCoverage::DeclaredEvents);
        assert_eq!(provider.observation_types, [event_type]);
        assert_eq!(provider.observation_semantics, semantics);
        assert_eq!(provider.telemetry, event_telemetry());
        assert_eq!(scope.activation, ProviderActivation::NotImplemented);
        assert_eq!(scope.network_namespace, NetworkNamespaceScope::HostWide);
        assert_eq!(
            scope.filter_support(false).network_namespace,
            FilterSupport::BroaderOnly
        );
        assert_eq!(
            provider.capability_stages.iter().map(|stage| stage.stage).collect::<Vec<_>>(),
            stages
        );
    }
}

#[test]
fn descriptors_answer_what_they_support() {
    let link = descriptor(PROVIDER_LINK).unwrap();
    assert!(link.owns_layer(Layer::Nic) && !link.owns_layer(Layer::Socket));
    assert!(link.supports_subject_kind(SubjectKind::Interface));
    let skb = descriptor(PROVIDER_KFREE_SKB).unwrap();
    assert!(skb.supports_observation_type("linux.skb.free"));
    assert!(!skb.supports_observation_type("linux.skb"));
    let scope = link.scope.unwrap();
    let complete = scope.filter_support(true);
    assert_eq!(Some(complete.interface_path), scope.complete_interface_path_support);
    assert_eq!(scope.filter_support(false).interface_path, scope.filter_support.interface_path);
    let prefix = link.metric_type_prefixes[0];
    assert!(link.supports_metric_type(&format!("{prefix}anything")));
    assert!(!link.supports_metric_type("none.of.these"));
    let rules = event_telemetry().as_array();
    assert_eq!(rules.len(), 8);
    assert_eq!(rules[0], event_telemetry().bpf_events_seen);
    assert_eq!(rules[7], event_telemetry().parse_errors);
    assert!(rules.contains(&TelemetryCounterRule::NotApplicable));
}
