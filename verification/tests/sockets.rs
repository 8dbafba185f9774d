use netlens::addresses::{read_address, IpAddress};
use netlens::model::{MonitorErrorCode, Nanos, ProviderHealth};
use netlens::owners::{
    OwnerCache, OwnerService, OwnerSnapshot, ProcessScan, Reply, ScanRequest, MAX_CACHE_AGE,
    NEW_SOCKET_INTERVAL,
};
use netlens::series::CounterSpan;
use netlens::socket_table::{
    collect_error_code, collection_health, collection_warning_code, project_socket,
    BoundedCollection, CollectError, CollectErrorKind, InetSocketSnapshot, RawSocket,
    SocketDetailState, SocketFilter, SocketProjector, SocketQuery, SocketTableSnapshot,
    MAX_DISPLAYED_SOCKETS, QUERY_COUNT,
};
use netlens::sockets::{
    process_map_summary, project_counter, project_process_coverage, project_tcp_diagnostics,
    ProcessMap,
    socket_state, LimitReason, PreviousCounters, ProcessScanStatus, SocketEndpoint, SocketFamily,
    SocketIdentity, SocketLimitInterval, SocketMemoryDiagnostics, SocketOwner, SocketProcess,
    SocketProcessCoverage, SocketProtocol, SocketRowKey, SocketTcpInfo, SocketTraffic,
};

const SECOND: Nanos = 1_000_000_000;
const MILLI: Nanos = 1_000_000;

fn address(text: &str) -> IpAddress {
    let chars: Vec<char> = text.chars().collect();
    match read_address(&chars) {
        Some(address) => address,
        None => panic!("not an address: {text}"),
    }
}

fn identity(family: SocketFamily, protocol: SocketProtocol, seed: u32) -> SocketIdentity {
    SocketIdentity { family, protocol, cookie: Some(u64::from(seed)), inode: seed }
}

fn tcp_identity(seed: u32) -> SocketIdentity {
    identity(SocketFamily::Ipv4, SocketProtocol::Tcp, seed)
}

fn rate(span: Option<CounterSpan>) -> Option<f64> {
    span.map(|span| span.delta as f64 / (span.elapsed as f64 / 1e9))
}

fn span(delta: u64) -> Option<CounterSpan> {
    Some(CounterSpan { delta, elapsed: SECOND })
}

fn traffic(segments: u64, bytes: u64, segment_delta: u64, byte_delta: u64) -> SocketTraffic {
    SocketTraffic {
        segments: Some(segments),
        bytes: Some(bytes),
        segment_interval: span(segment_delta),
        byte_interval: span(byte_delta),
    }
}

fn no_traffic() -> SocketTraffic {
    SocketTraffic { segments: None, bytes: None, segment_interval: None, byte_interval: None }
}

fn snapshot_at(sequence: u64) -> SocketTableSnapshot {
    SocketTableSnapshot {
        sequence,
        attempted_at: Nanos::from(sequence) * SECOND,
        collection_duration: 3 * MILLI,
        health: ProviderHealth::Fresh,
        completed_queries: QUERY_COUNT,
        failed_queries: 0,
        observed_sockets: 2,
        truncated: false,
        process_coverage: SocketProcessCoverage::Complete,
        process_map_age: Some(0),
        process_map_refreshing: false,
        scanned_processes: 2,
        scanned_fds: 8,
        sockets: vec![
            InetSocketSnapshot {
                row_key: SocketRowKey::new(&tcp_identity(7), sequence, 0),
                family: SocketFamily::Ipv4,
                protocol: SocketProtocol::Tcp,
                state: "ESTABLISHED".to_owned(),
                local: SocketEndpoint { address: address("192.0.2.10"), port: 42_000 },
                remote: SocketEndpoint { address: address("198.51.100.20"), port: 443 },
                bound_ifindex: 2,
                expires_millis: 0,
                receive_queue: 128,
                send_queue: 256,
                uid: 1_000,
                owners: vec![SocketOwner { pid: 1234, command: Some("client-worker".to_owned()) }],
                congestion_algorithm: Some("cubic".to_owned()),
                memory: Some(SocketMemoryDiagnostics {
                    receive_allocated: 4_096,
                    receive_limit: 131_072,
                    send_allocated: 8_192,
                    send_limit: 262_144,
                    forward_allocated: 0,
                    send_queued: 256,
                    option_memory: 2_048,
                    backlog: 0,
                    drops: 1,
                }),
                tcp: Some(project_tcp_diagnostics(
                    SocketTcpInfo {
                        state: 1,
                        send_window_scale: Some(7),
                        receive_window_scale: Some(7),
                        retransmission_timeout_micros: 204_000,
                        ack_timeout_micros: 40_000,
                        send_mss_bytes: 1_448,
                        receive_mss_bytes: 1_448,
                        unacked_segments: 2,
                        send_ssthresh_segments: 32,
                        send_cwnd_segments: 20,
                        advertised_mss_bytes: 1_448,
                        path_mtu_bytes: 1_500,
                        rtt_micros: 12_500,
                        rtt_variance_micros: 1_200,
                        receive_rtt_micros: 13_000,
                        receive_space_bytes: 65_535,
                        receive_ssthresh_bytes: 524_288,
                        total_retransmitted_segments: 3,
                        options: 0x07,
                        reordering_segments: 3,
                        pacing_rate_bytes_per_second: Some(2_000_000),
                        max_pacing_rate_bytes_per_second: Some(4_000_000),
                        min_rtt_micros: Some(10_500),
                        data_segments_in: Some(80),
                        data_segments_out: Some(160),
                        delivery_rate_bytes_per_second: Some(1_500_000),
                        busy_time_micros: Some(900_000),
                        receive_window_limited_micros: Some(100_000),
                        send_buffer_limited_micros: Some(50_000),
                        send_window_bytes: Some(262_140),
                        receive_window_bytes: Some(131_070),
                        ..SocketTcpInfo::default()
                    },
                    span(1),
                )),
                receive: traffic(100, 10_000, 10, 1_000),
                send: traffic(200, 20_000, 20, 2_000),
                drops: Some(1),
                drop_interval: span(1),
                retransmits: 0,
                sort_inode: 7,
            },
            InetSocketSnapshot {
                row_key: SocketRowKey::new(
                    &identity(SocketFamily::Ipv6, SocketProtocol::Udp, 8),
                    sequence,
                    1,
                ),
                family: SocketFamily::Ipv6,
                protocol: SocketProtocol::Udp,
                state: "UNCONN".to_owned(),
                local: SocketEndpoint { address: address("2001:db8::1"), port: 53 },
                remote: SocketEndpoint { address: address("::"), port: 0 },
                bound_ifindex: 0,
                expires_millis: 0,
                receive_queue: 64,
                send_queue: 0,
                uid: 53,
                owners: Vec::new(),
                congestion_algorithm: None,
                memory: Some(SocketMemoryDiagnostics {
                    receive_allocated: 64,
                    receive_limit: 212_992,
                    send_allocated: 0,
                    send_limit: 212_992,
                    forward_allocated: 0,
                    send_queued: 0,
                    option_memory: 0,
                    backlog: 0,
                    drops: 0,
                }),
                tcp: None,
                receive: no_traffic(),
                send: no_traffic(),
                drops: Some(0),
                drop_interval: span(0),
                retransmits: 0,
                sort_inode: 8,
            },
        ],
    }
}

fn reordered_at(sequence: u64) -> SocketTableSnapshot {
    let mut snapshot = snapshot_at(sequence);
    snapshot.sockets.reverse();
    snapshot
}

fn with_rtt_at(sequence: u64, rtt_micros: u32) -> SocketTableSnapshot {
    let mut snapshot = snapshot_at(sequence);
    if let Some(tcp) = &mut snapshot.sockets[0].tcp {
        tcp.rtt_micros = rtt_micros;
    }
    snapshot
}

fn without_tcp_at(sequence: u64) -> SocketTableSnapshot {
    let mut snapshot = snapshot_at(sequence);
    snapshot.sockets.retain(|socket| socket.protocol != SocketProtocol::Tcp);
    snapshot.observed_sockets = snapshot.sockets.len();
    snapshot
}

fn raw_socket(
    seed: u32,
    protocol: SocketProtocol,
    state: u8,
    receive_segments: u32,
    receive_bytes: u64,
    send_segments: u32,
    send_bytes: u64,
) -> RawSocket {
    let family = SocketFamily::Ipv4;
    RawSocket {
        identity: identity(family, protocol, seed),
        family,
        protocol,
        state,
        retransmits: 0,
        local: SocketEndpoint { address: address("192.0.2.10"), port: 42_000 },
        remote: SocketEndpoint { address: address("198.51.100.20"), port: 443 },
        bound_ifindex: 2,
        expires_millis: 0,
        receive_queue: 11,
        send_queue: 12,
        uid: 1_000,
        memory: Some(SocketMemoryDiagnostics {
            receive_allocated: 0,
            receive_limit: 0,
            send_allocated: 0,
            send_limit: 0,
            forward_allocated: 0,
            send_queued: 0,
            option_memory: 0,
            backlog: 0,
            drops: receive_segments,
        }),
        tcp_info: Some(SocketTcpInfo {
            bytes_acked: Some(send_bytes),
            bytes_received: Some(receive_bytes),
            segments_out: Some(send_segments),
            segments_in: Some(receive_segments),
            total_retransmitted_segments: receive_segments,
            ..SocketTcpInfo::default()
        }),
        congestion_algorithm: None,
    }
}

fn bounded_at(completed_at: Nanos, sockets: Vec<RawSocket>) -> BoundedCollection {
    let observed_sockets = sockets.len();
    BoundedCollection::new(vec![SocketQuery {
        completed_at,
        observed_sockets,
        truncated: false,
        outcome: Ok(sockets),
    }])
}

fn error(kind: CollectErrorKind, message: &str) -> CollectError {
    CollectError { kind, message: message.to_owned() }
}

#[test]
fn socket_filter_accepts_conntrack_style_terms() {
    let filter = SocketFilter::parse("host=192.0.2.1 port=443 proto=tcp").unwrap();
    assert_eq!(
        filter.as_ref().map(|filter| filter.query.as_str()),
        Some("host=192.0.2.1 port=443 proto=tcp")
    );
    assert!(SocketFilter::parse("").unwrap().is_none());
    assert!(SocketFilter::parse("proto=icmp").is_err());
    assert!(SocketFilter::parse("port=70000").is_err());
}

#[test]
fn filters_match_either_end_with_both_terms() {
    let snapshot = snapshot_at(2);
    let matches = |query: &str| {
        let filter = SocketFilter::parse(query).ok().flatten().unwrap();
        snapshot.sockets.iter().map(|socket| filter.matches(socket)).collect::<Vec<bool>>()
    };
    assert_eq!(matches("host=198.51.100.20"), vec![true, false]);
    assert_eq!(matches("host=198.51.100.20 port=443"), vec![true, false]);
    assert_eq!(matches("host=198.51.100.20 port=42000"), vec![false, false]);
    assert_eq!(matches("port=53"), vec![false, true]);
    assert_eq!(matches("proto=udp"), vec![false, true]);
    assert_eq!(matches("\thost=2001:db8::1   proto=udp "), vec![false, true]);
    for (query, message) in [
        ("port=1 port=1", "filter term was specified more than once"),
        ("host=1 ", "host must be an IPv4 or IPv6 address"),
        ("port=+1", "port must be between 0 and 65535"),
        ("proto=TCP", "proto must be tcp or udp"),
        ("uid=1", "unknown filter term"),
    ] {
        assert!(matches!(SocketFilter::parse(query), Err(told) if told == message), "{query}");
    }
}

#[test]
fn bounded_collection_preserves_collector_observation_and_truncation_metadata() {
    let bounded = BoundedCollection::new(vec![SocketQuery {
        completed_at: 0,
        observed_sockets: 8_000,
        truncated: true,
        outcome: Ok(Vec::new()),
    }]);

    assert_eq!(bounded.observed_sockets, 8_000);
    assert!(bounded.truncated);
}

#[test]
fn a_crowded_query_is_cut_and_the_targets_are_each_named_once() {
    let mut rows: Vec<RawSocket> = Vec::new();
    for seed in 0..4_097 {
        rows.push(raw_socket(seed, SocketProtocol::Tcp, 1, 1, 1, 1, 1));
    }
    rows[5].identity.cookie = None;
    rows[6].identity = rows[7].identity;
    let bounded = BoundedCollection::new(vec![
        SocketQuery {
            completed_at: 1,
            observed_sockets: usize::MAX,
            truncated: false,
            outcome: Ok(rows),
        },
        SocketQuery {
            completed_at: 2,
            observed_sockets: 1,
            truncated: false,
            outcome: Err(error(CollectErrorKind::Io, "closed")),
        },
    ]);
    assert_eq!(bounded.observed_sockets, usize::MAX);
    assert!(bounded.truncated);
    assert!(matches!(&bounded.queries[0].outcome, Ok(rows) if rows.len() == 4_096));
    assert_eq!(bounded.owner_targets().len(), 4_094);
}

#[test]
fn health_codes_preserve_capacity_and_process_mapping_causes() {
    let ProviderHealth::Partial { warning } =
        collection_health(QUERY_COUNT, &Vec::new(), true, SocketProcessCoverage::Complete)
    else {
        panic!("truncated collection should be partial");
    };
    assert_eq!(warning.code, MonitorErrorCode::CardinalityLimit);

    assert_eq!(
        collection_warning_code(
            Some(CollectErrorKind::Interrupted),
            true,
            SocketProcessCoverage::Complete,
        ),
        MonitorErrorCode::Timeout,
        "a real query failure must not be hidden by simultaneous truncation"
    );

    let ProviderHealth::Partial { warning } =
        collection_health(QUERY_COUNT, &Vec::new(), false, SocketProcessCoverage::PermissionDenied)
    else {
        panic!("incomplete process mapping should be partial");
    };
    assert_eq!(warning.code, MonitorErrorCode::PermissionDenied);

    assert_eq!(
        SocketProcessCoverage::Partial {
            permission_denied_processes: 2,
            io_errors: 3,
            truncated: true,
        }
        .summary(),
        "partial denied=2 io=3 truncated=yes"
    );
}

#[test]
fn failed_collections_name_the_failure_that_matters_most() {
    let errors = vec![
        error(CollectErrorKind::Io, "first"),
        error(CollectErrorKind::Loss, "lost\u{e9} rows"),
        error(CollectErrorKind::Loss, "more lost\n rows"),
    ];
    let ProviderHealth::Partial { warning } =
        collection_health(1, &errors, false, SocketProcessCoverage::Unavailable)
    else {
        panic!("one completed query should be partial");
    };
    assert_eq!(warning.code, MonitorErrorCode::OutputLimit);
    assert_eq!(
        warning.diagnostic,
        "socket queries 1/4; failed 3; truncated no; process map unavailable; primary failure: \
         more lost rows"
    );
    let ProviderHealth::Error { error: failure } =
        collection_health(0, &errors, false, SocketProcessCoverage::Complete)
    else {
        panic!("no completed query should be an error");
    };
    assert_eq!(
        failure.diagnostic,
        "all socket diagnostic queries failed (3); primary failure: more lost rows"
    );
    let denied = vec![error(CollectErrorKind::PermissionDenied, "no")];
    assert!(matches!(
        collection_health(0, &denied, false, SocketProcessCoverage::Complete),
        ProviderHealth::PermissionDenied { .. }
    ));
    let unsupported = vec![error(CollectErrorKind::Unsupported, "no")];
    assert!(matches!(
        collection_health(0, &unsupported, false, SocketProcessCoverage::Complete),
        ProviderHealth::Unsupported { .. }
    ));
    let long = vec![error(CollectErrorKind::Malformed, &"x".repeat(400))];
    let ProviderHealth::Error { error: failure } =
        collection_health(0, &long, false, SocketProcessCoverage::Complete)
    else {
        panic!("a malformed reply should be an error");
    };
    assert_eq!(failure.code, MonitorErrorCode::SchemaMismatch);
    assert_eq!(failure.diagnostic.len(), 256);
}

#[test]
fn sock_diag_error_kinds_keep_distinct_monitor_codes() {
    for (kind, code) in [
        (CollectErrorKind::PermissionDenied, MonitorErrorCode::PermissionDenied),
        (CollectErrorKind::Unsupported, MonitorErrorCode::Unsupported),
        (CollectErrorKind::Io, MonitorErrorCode::Io),
        (CollectErrorKind::Loss, MonitorErrorCode::OutputLimit),
        (CollectErrorKind::Interrupted, MonitorErrorCode::Timeout),
        (CollectErrorKind::Malformed, MonitorErrorCode::SchemaMismatch),
    ] {
        assert_eq!(collect_error_code(kind), code);
    }
}

#[test]
fn counter_projection_requires_monotonic_adjacent_values() {
    let elapsed = Some(2 * SECOND);
    assert_eq!(rate(project_counter(Some(30), Some(10), elapsed)).unwrap(), 10.0);
    assert!(project_counter(Some(9), Some(10), elapsed).is_none());
    assert!(project_counter(Some(30), None, elapsed).is_none());
    assert!(project_counter(Some(30), Some(10), None).is_none());
}

#[test]
fn tcp_info_rate_and_rtt_sentinels_remain_unavailable_after_projection() {
    let diagnostics = project_tcp_diagnostics(
        SocketTcpInfo {
            pacing_rate_bytes_per_second: Some(u64::MAX),
            max_pacing_rate_bytes_per_second: Some(u64::MAX),
            min_rtt_micros: Some(u32::MAX),
            delivery_rate_bytes_per_second: Some(0),
            ..SocketTcpInfo::default()
        },
        None,
    );

    assert_eq!(diagnostics.pacing_rate_bytes_per_second, None);
    assert_eq!(diagnostics.max_pacing_rate_bytes_per_second, None);
    assert_eq!(diagnostics.min_rtt_micros, None);
    assert_eq!(diagnostics.delivery_rate_bytes_per_second, None);
}

#[test]
fn projector_uses_identity_and_query_completion_time_for_tcp_rates() {
    let first_at = 50 * SECOND;
    let mut projector = SocketProjector::new();
    let owners = OwnerSnapshot::empty();
    let first = projector.project(
        1,
        SECOND,
        MILLI,
        bounded_at(
            first_at,
            vec![raw_socket(1, SocketProtocol::Tcp, 1, 100, 10_000, 200, 20_000)],
        ),
        &owners,
    );
    assert_eq!(first.sockets[0].receive.segments, Some(100));
    assert_eq!(first.sockets[0].receive.bytes, Some(10_000));
    assert!(rate(first.sockets[0].receive.segment_interval).is_none());

    let second = projector.project(
        2,
        3 * SECOND,
        MILLI,
        bounded_at(
            first_at + 2 * SECOND,
            vec![raw_socket(1, SocketProtocol::Tcp, 1, 120, 12_000, 240, 24_000)],
        ),
        &owners,
    );
    let socket = &second.sockets[0];
    let bits = |span: Option<CounterSpan>| rate(span).map(|rate| rate * 8.0);
    assert_eq!(rate(socket.receive.segment_interval), Some(10.0));
    assert_eq!(bits(socket.receive.byte_interval), Some(8_000.0));
    assert_eq!(rate(socket.send.segment_interval), Some(20.0));
    assert_eq!(bits(socket.send.byte_interval), Some(16_000.0));

    let replacement = projector.project(
        3,
        4 * SECOND,
        MILLI,
        bounded_at(
            first_at + 3 * SECOND,
            vec![raw_socket(2, SocketProtocol::Tcp, 1, 140, 14_000, 280, 28_000)],
        ),
        &owners,
    );
    assert!(rate(replacement.sockets[0].receive.segment_interval).is_none());
    assert!(bits(replacement.sockets[0].send.byte_interval).is_none());
}

#[test]
fn a_collection_without_any_query_forgets_what_was_seen() {
    let mut projector = SocketProjector::new();
    let owners = OwnerSnapshot::empty();
    let socket = || vec![raw_socket(1, SocketProtocol::Tcp, 1, 100, 10_000, 200, 20_000)];
    projector.project(1, 0, 0, bounded_at(SECOND, socket()), &owners);
    let failed = BoundedCollection::new(vec![SocketQuery {
        completed_at: 2 * SECOND,
        observed_sockets: 0,
        truncated: false,
        outcome: Err(error(CollectErrorKind::Interrupted, "again")),
    }]);
    let snapshot = projector.project(2, 0, 0, failed, &owners);
    assert_eq!((snapshot.completed_queries, snapshot.failed_queries), (0, 1));
    assert!(projector.previous.entries.is_empty());
    let after = projector.project(3, 0, 0, bounded_at(3 * SECOND, socket()), &owners);
    assert!(after.sockets[0].receive.byte_interval.is_none());
}

#[test]
fn the_most_active_sockets_are_kept_in_order() {
    let mut projector = SocketProjector::new();
    let owners = OwnerSnapshot::empty();
    let collection = |at: Nanos, bytes: u64| {
        let rows = |from: u32| {
            (from..from + 3_000)
                .map(|seed| {
                    raw_socket(seed, SocketProtocol::Tcp, 1, 1, bytes * u64::from(seed), 1, 1)
                })
                .collect::<Vec<RawSocket>>()
        };
        let query = |from: u32| SocketQuery {
            completed_at: at,
            observed_sockets: 3_000,
            truncated: false,
            outcome: Ok(rows(from)),
        };
        BoundedCollection::new(vec![query(1), query(3_001)])
    };
    projector.project(1, 0, 0, collection(SECOND, 0), &owners);
    let snapshot = projector.project(2, 0, 0, collection(2 * SECOND, 1), &owners);
    assert_eq!(snapshot.sockets.len(), MAX_DISPLAYED_SOCKETS);
    assert!(snapshot.truncated);
    let inodes: Vec<u32> = snapshot.sockets.iter().map(|socket| socket.sort_inode).collect();
    let expected: Vec<u32> = (1..=6_000).rev().take(MAX_DISPLAYED_SOCKETS).collect();
    assert_eq!(inodes, expected);
    assert!(snapshot.sockets[0].row_key.is_stable());
}

fn seconds(age: Nanos) -> String {
    format!("{:.1}", std::time::Duration::from_nanos(age as u64).as_secs_f64())
}

#[test]
fn pending_owner_lookup_does_not_mark_successful_socket_counters_unavailable() {
    assert!(matches!(
        collection_health(QUERY_COUNT, &Vec::new(), false, SocketProcessCoverage::Pending),
        ProviderHealth::Fresh
    ));
    assert_eq!(
        process_map_summary(SocketProcessCoverage::Pending, None, true),
        "pending refreshing"
    );
    assert_eq!(
        process_map_summary(
            SocketProcessCoverage::Complete,
            Some(&seconds(9 * SECOND)),
            false
        ),
        "complete age 9.0s"
    );
}

#[test]
fn ages_are_shown_with_one_decimal() {
    for (age, shown) in [
        (0, "complete age 0.0s"),
        (49 * MILLI, "complete age 0.0s"),
        (51 * MILLI, "complete age 0.1s"),
        (350 * MILLI, "complete age 0.3s"),
        (450 * MILLI, "complete age 0.5s"),
        (12 * SECOND + 960 * MILLI, "complete age 13.0s"),
    ] {
        let map = ProcessMap {
            coverage: SocketProcessCoverage::Complete,
            age: Some(age),
            refreshing: false,
        };
        assert_eq!(map.summary(&seconds(age)), shown);
    }
    let map = ProcessMap {
        coverage: SocketProcessCoverage::Complete,
        age: None,
        refreshing: true,
    };
    assert_eq!(map.summary("1.0"), "complete refreshing");
}

#[test]
fn limit_baseline_uses_query_time_and_breaks_on_gap_reset_or_replacement() {
    let mut projector = SocketProjector::new();
    let owners = OwnerSnapshot::empty();
    let mut sample = |sequence: u64, seed: Option<u32>, busy: u64, rwnd: u64| {
        let sockets = seed
            .map(|seed| {
                let mut raw = raw_socket(seed, SocketProtocol::Tcp, 1, 1, 1, 1, 1);
                let tcp = raw.tcp_info.as_mut().unwrap();
                tcp.busy_time_micros = Some(busy);
                tcp.receive_window_limited_micros = Some(rwnd);
                tcp.send_buffer_limited_micros = Some(0);
                raw
            })
            .into_iter()
            .collect();
        projector.project(
            sequence,
            Nanos::from(sequence) * 10 * SECOND,
            3 * SECOND,
            bounded_at((100 + Nanos::from(sequence)) * SECOND, sockets),
            &owners,
        )
    };
    let first = sample(1, Some(1), 10_000_000, 9_000_000);
    assert!(first.sockets[0].tcp.unwrap().limit_interval.is_none());
    let second = sample(2, Some(1), 10_100_000, 9_072_000);
    let tcp = second.sockets[0].tcp.unwrap();
    assert_eq!(tcp.limit_interval.unwrap().elapsed, SECOND);
    assert_eq!(tcp.limit_reason().explain().0, "RWND");
    sample(3, None, 0, 0);
    let after_gap = sample(4, Some(1), 10_200_000, 9_073_000);
    assert!(after_gap.sockets[0].tcp.unwrap().limit_interval.is_none());
    let reset = sample(5, Some(1), 10, 2);
    assert!(reset.sockets[0].tcp.unwrap().limit_interval.is_none());
    let replacement = sample(6, Some(2), 20_000_000, 10_000_000);
    assert!(replacement.sockets[0].tcp.unwrap().limit_interval.is_none());
}

#[test]
fn udp_time_wait_and_listen_never_expose_tcp_traffic_accounting() {
    for (protocol, state) in
        [(SocketProtocol::Udp, 7), (SocketProtocol::Tcp, 6), (SocketProtocol::Tcp, 10)]
    {
        let mut socket = raw_socket(1, protocol, state, 100, 10_000, 200, 20_000);
        socket.congestion_algorithm = Some("cubic".to_owned());
        let projected = project_socket(&socket, None, Some(SECOND), &Vec::new(), 1, 0);

        assert_eq!(projected.receive.segments, None);
        assert_eq!(projected.receive.bytes, None);
        assert_eq!(projected.send.segments, None);
        assert_eq!(projected.send.bytes, None);
        assert_eq!(projected.receive_queue, 11);
        assert_eq!(projected.send_queue, 12);
        assert_eq!(projected.tcp, None);
        assert_eq!(projected.congestion_algorithm, None);
    }
}

#[test]
fn protocol_specific_state_names_do_not_call_udp_unconnected_closed() {
    assert_eq!(socket_state(SocketProtocol::Tcp, 1), "ESTABLISHED");
    assert_eq!(socket_state(SocketProtocol::Tcp, 10), "LISTEN");
    assert_eq!(socket_state(SocketProtocol::Udp, 7), "UNCONN");
    assert_eq!(socket_state(SocketProtocol::Udp, 99), "STATE#99");
}

#[test]
fn rows_say_whether_they_listen_and_can_have_an_owner() {
    let mut listener = snapshot_at(1).sockets[0].copy();
    assert!(!listener.is_tcp_listener());
    listener.state = socket_state(SocketProtocol::Tcp, 10);
    assert!(listener.is_tcp_listener());
    assert!(listener.owner_lookup_applicable());
    listener.sort_inode = 0;
    assert!(!listener.owner_lookup_applicable());
    assert_eq!(SocketProtocol::Udp.label(), "udp");
    assert_eq!(SocketFamily::Ipv6.label(), "6");
}

#[test]
fn socket_detail_tracks_current_identity_through_reordering_missing_and_recovery() {
    let first = snapshot_at(2);
    let key = first.sockets[0].row_key;
    let mut detail = SocketDetailState::start(&first, key).unwrap();
    assert!(detail.last_observed == *first.socket(&key).unwrap());
    assert_eq!(detail.opened_at, 2 * SECOND);

    let reordered = reordered_at(3);
    detail.record(&reordered);
    assert!(detail.observed_latest);
    assert!(detail.key == key);
    assert!(detail.last_observed == *reordered.socket(&key).unwrap());

    let missing = without_tcp_at(4);
    detail.record(&missing);
    assert!(!detail.observed_latest);
    assert!(detail.last_observed == *reordered.socket(&key).unwrap());
    assert_eq!(detail.last_at, 4 * SECOND);

    let recovered = with_rtt_at(5, 20_000);
    detail.record(&recovered);
    assert!(detail.observed_latest);
    assert!(detail.key == key);
    assert!(detail.last_observed == *recovered.socket(&key).unwrap());
    assert_eq!(detail.last_sequence, 5);
    assert_eq!(detail.last_at, 5 * SECOND);
    assert_eq!(detail.opened_at, 2 * SECOND);
}

#[test]
fn socket_detail_does_not_follow_replacement_at_the_same_position_or_endpoint() {
    let first = snapshot_at(2);
    let key = first.sockets[0].row_key;
    let mut detail = SocketDetailState::start(&first, key).unwrap();
    let mut replacement = snapshot_at(3);
    replacement.sockets[0].row_key = SocketRowKey::new(&tcp_identity(99), 3, 0);

    detail.record(&replacement);

    assert!(!detail.observed_latest);
    assert!(detail.key == key);
    assert!(detail.last_observed == *first.socket(&key).unwrap());
    assert_eq!(detail.last_sequence, 3);
}

#[test]
fn socket_detail_clone_remains_immutable_while_latest_updates_and_disappears() {
    let first = snapshot_at(2);
    let key = first.sockets[0].row_key;
    let mut latest = SocketDetailState::start(&first, key).unwrap();
    let frozen = latest.copy();

    latest.record(&with_rtt_at(3, 20_000));
    assert!(latest.last_observed != frozen.last_observed);
    latest.record(&without_tcp_at(4));

    assert!(!latest.observed_latest);
    assert!(frozen.observed_latest);
    assert!(frozen.last_observed == *first.socket(&key).unwrap());
    assert!(frozen.key == key);
    assert_eq!(frozen.last_sequence, 2);
    assert_eq!(frozen.opened_at, 2 * SECOND);
    assert_eq!(frozen.last_at, 2 * SECOND);
    assert_eq!(latest.last_observed.tcp.unwrap().rtt_micros, 20_000);
}

#[test]
fn socket_detail_filters_old_sequences_and_keeps_time_monotonic() {
    let first = snapshot_at(5);
    let key = first.sockets[0].row_key;
    let mut detail = SocketDetailState::start(&first, key).unwrap();
    for sequence in [5, 4] {
        let mut stale = without_tcp_at(sequence);
        stale.attempted_at = 100 * SECOND;
        detail.record(&stale);
        assert!(detail.observed_latest);
        assert!(detail.last_observed == *first.socket(&key).unwrap());
        assert_eq!(detail.last_sequence, 5);
        assert_eq!(detail.last_at, 5 * SECOND);
    }

    let mut newer = with_rtt_at(6, 20_000);
    newer.attempted_at = 3 * SECOND;
    detail.record(&newer);
    assert!(detail.last_observed == *newer.socket(&key).unwrap());
    assert_eq!(detail.last_sequence, 6);
    assert_eq!(detail.last_at, 5 * SECOND);

    detail.record(&without_tcp_at(7));
    assert!(!detail.observed_latest);
    assert_eq!(detail.last_sequence, 7);
    assert_eq!(detail.last_at, 7 * SECOND);
}

#[test]
fn socket_detail_open_boundary_preserves_selected_identity_and_initial_visibility() {
    let selected = snapshot_at(2);
    let key = selected.sockets[0].row_key;
    let current = with_rtt_at(9, 20_000);
    let missing = without_tcp_at(9);

    for initial in [&current, &missing] {
        let detail = SocketDetailState::start_at(&selected, initial, key, 8 * SECOND).unwrap();
        assert!(detail.key == key);
        assert_eq!(detail.opened_at, 9 * SECOND);
        assert_eq!(detail.last_at, 9 * SECOND);
        assert_eq!(detail.last_sequence, 9);
        assert_eq!(detail.observed_latest, initial.socket(&key).is_some());
        assert!(
            detail.last_observed
                == *initial.socket(&key).unwrap_or(selected.socket(&key).unwrap())
        );
    }

    let paused = SocketDetailState::start_at(&selected, &selected, key, 10 * SECOND).unwrap();
    assert_eq!(paused.opened_at, 10 * SECOND);
    assert_eq!(paused.last_at, 10 * SECOND);
    assert_eq!(paused.last_sequence, 2);
    assert!(paused.observed_latest);
    assert!(SocketDetailState::start(&missing, key).is_none());
    assert!(SocketDetailState::start_at(&missing, &current, key, 0).is_none());
}

#[test]
fn the_process_map_of_a_detail_belongs_to_the_snapshot_that_was_seen() {
    let first = snapshot_at(2);
    let key = first.sockets[0].row_key;
    let mut detail = SocketDetailState::start(&first, key).unwrap();
    assert_eq!(detail.process_map_summary("0.0"), "complete age 0.0s");
    let mut later = snapshot_at(3);
    later.process_map_age = Some(SECOND);
    later.process_map_refreshing = true;
    assert_eq!(later.process_map_summary("1.0"), "complete age 1.0s refreshing");
    detail.record(&later);
    assert_eq!(detail.process_map_summary("1.0"), "complete age 1.0s refreshing");
    detail.record(&without_tcp_at(4));
    assert_eq!(detail.process_map_summary("1.0"), "complete age 1.0s refreshing");
}

fn counters(busy: u64, rwnd: u64, sndbuf: u64) -> PreviousCounters {
    PreviousCounters {
        receive_segments: None,
        receive_bytes: None,
        send_segments: None,
        send_bytes: None,
        total_retransmitted_segments: None,
        drops: None,
        busy_micros: Some(busy),
        rwnd_micros: Some(rwnd),
        sndbuf_micros: Some(sndbuf),
    }
}

fn share(interval: SocketLimitInterval, micros: Option<u64>) -> Option<f64> {
    match micros {
        Some(value) if interval.busy_micros > 0 => {
            Some(value as f64 / interval.busy_micros as f64)
        }
        _ => None,
    }
}

#[test]
fn timing_requires_adjacent_monotonic_counters_and_preserves_zero() {
    let old = counters(10_000, 8_000, 500);
    let current = counters(11_000, 8_720, 620);
    let elapsed = Some(2 * SECOND);
    assert_eq!(SocketLimitInterval::between(&current, None, elapsed), None);
    assert_eq!(SocketLimitInterval::between(&current, Some(old), Some(0)), None);
    let delta = SocketLimitInterval::between(&current, Some(old), elapsed).unwrap();
    assert_eq!(delta.busy_micros, 1_000);
    assert_eq!(delta.elapsed, 2 * SECOND);
    assert_eq!(share(delta, delta.rwnd_micros), Some(0.72));
    assert_eq!(share(delta, delta.sndbuf_micros), Some(0.12));
    assert_eq!(SocketLimitInterval::between(&old, Some(current), elapsed), None);
    let idle = SocketLimitInterval::between(&old, Some(old), elapsed).unwrap();
    assert_eq!(idle.rwnd_micros, Some(0));
    assert_eq!(share(idle, idle.rwnd_micros), None);
    let invalid = counters(11_000, 10_000, 400);
    let delta = SocketLimitInterval::between(&invalid, Some(old), elapsed).unwrap();
    assert_eq!(delta.rwnd_micros, None);
    assert_eq!(delta.sndbuf_micros, None);
}

#[test]
fn diagnosis_distinguishes_interval_evidence_from_snapshot_estimates() {
    let snapshot = snapshot_at(2);
    let mut tcp = snapshot.sockets[0].tcp.unwrap();
    let mut interval = SocketLimitInterval {
        elapsed: SECOND,
        busy_micros: 1_000_000,
        rwnd_micros: Some(720_000),
        sndbuf_micros: Some(120_000),
    };
    assert_eq!(tcp.limit_reason().explain().0, "UNKNOWN");
    tcp.limit_interval = Some(interval);
    tcp.notsent_bytes = Some(0);
    assert_eq!(
        tcp.limit_reason().explain().0,
        "RWND",
        "Interval evidence survives an empty current queue"
    );
    interval.rwnd_micros = Some(0);
    interval.sndbuf_micros = Some(600_000);
    tcp.limit_interval = Some(interval);
    assert_eq!(tcp.limit_reason().explain().0, "SNDBUF");
    interval.sndbuf_micros = Some(0);
    tcp.limit_interval = Some(interval);
    tcp.notsent_bytes = Some(8192);
    tcp.unacked_segments = 20;
    assert_eq!(tcp.limit_reason().explain().0, "CWND?");
    tcp.sacked_segments = 5;
    assert_eq!(tcp.estimated_flight_segments(), Some(15));
    assert_eq!(tcp.limit_reason().explain().0, "ACTIVE");
    tcp.sacked_segments = 0;
    tcp.send_window_bytes = None;
    assert_eq!(
        tcp.limit_reason().explain().0,
        "ACTIVE",
        "Missing peer window cannot confirm cwnd constraint"
    );
    tcp.notsent_bytes = Some(0);
    tcp.delivery_rate_app_limited = true;
    assert_eq!(tcp.limit_reason().explain().0, "APP?");
    interval.busy_micros = 0;
    tcp.limit_interval = Some(interval);
    tcp.unacked_segments = 0;
    assert_eq!(tcp.limit_reason().explain().0, "IDLE");
}

#[test]
fn both_limits_and_missing_counters_have_reasons_of_their_own() {
    let mut tcp = snapshot_at(2).sockets[0].tcp.unwrap();
    assert_eq!(tcp.congestion_window_bytes(), 28_960);
    let mut interval = SocketLimitInterval {
        elapsed: SECOND,
        busy_micros: 100,
        rwnd_micros: Some(50),
        sndbuf_micros: Some(50),
    };
    tcp.limit_interval = Some(interval);
    assert_eq!(tcp.limit_reason(), LimitReason::BothWindows);
    interval.rwnd_micros = Some(49);
    interval.sndbuf_micros = None;
    tcp.limit_interval = Some(interval);
    assert_eq!(tcp.limit_reason(), LimitReason::CounterMissing);
    interval.busy_micros = 0;
    interval.sndbuf_micros = Some(0);
    tcp.limit_interval = Some(interval);
    assert_eq!(tcp.limit_reason(), LimitReason::NotBusy);
    tcp.lost_segments = 3;
    assert_eq!(tcp.estimated_flight_segments(), None);
}

fn scan(status: ProcessScanStatus, found: Vec<(u32, Vec<SocketProcess>)>) -> ProcessScan {
    ProcessScan { status, found, scanned_processes: 1, scanned_fds: 1 }
}

fn worker(inode: u32) -> Vec<(u32, Vec<SocketProcess>)> {
    vec![(
        inode,
        vec![SocketProcess { pid: 12, start_ticks: 234, command: Some("worker".to_owned()) }],
    )]
}

fn request(targets: &[SocketIdentity], started: Nanos) -> ScanRequest {
    ScanRequest { targets: targets.to_vec(), started }
}

#[test]
fn stable_and_negative_results_refresh_at_ten_seconds_new_entries_are_batched() {
    let now = 100 * SECOND;
    let targets = vec![tcp_identity(1)];
    let mut cache = OwnerCache::new();
    assert!(cache.due(&targets, now));
    cache.last_request = Some(now);
    cache.accept(
        &request(&targets, now),
        &scan(ProcessScanStatus::Complete, Vec::new()),
        &targets,
    );
    assert!(cache.entries.get(&tcp_identity(1)).unwrap().is_empty());
    assert!(!cache.due(&targets, now + 9 * SECOND));
    assert!(cache.due(&targets, now + 10 * SECOND));
    let expanded = vec![tcp_identity(1), tcp_identity(2)];
    assert!(!cache.due(&expanded, now + SECOND));
    assert!(cache.due(&expanded, now + 2 * SECOND));
    assert_eq!(cache.snapshot(&expanded, now, false).coverage, SocketProcessCoverage::Pending);
    assert!(!cache.due(&Vec::new(), now + 100 * SECOND));
}

#[test]
fn inode_reuse_and_delayed_results_never_transfer_cached_owners() {
    let now = 100 * SECOND;
    let old = tcp_identity(1);
    let old_targets = vec![old];
    let found = scan(ProcessScanStatus::Complete, worker(old.inode));
    let mut cache = OwnerCache::new();
    cache.accept(&request(&old_targets, now), &found, &old_targets);
    assert_eq!(cache.snapshot(&old_targets, now, false).owners(&old)[0].pid, 12);
    let replacement = SocketIdentity { cookie: Some(42), ..old };
    let new_targets = vec![replacement];
    cache.reconcile(&new_targets, now, &Vec::new());
    assert!(cache.entries.entries.is_empty());
    cache.accept(&request(&old_targets, now), &found, &new_targets);
    let snapshot = cache.snapshot(&new_targets, now, false);
    assert!(snapshot.owners(&replacement).is_empty());
    assert_eq!(snapshot.coverage, SocketProcessCoverage::Pending);
}

#[test]
fn validation_and_expiry_remove_attribution_and_request_refresh() {
    let now = 100 * SECOND;
    let id = tcp_identity(1);
    let targets = vec![id];
    let found = scan(ProcessScanStatus::Complete, worker(id.inode));
    let mut cache = OwnerCache::new();
    cache.last_request = Some(now);
    cache.accept(&request(&targets, now), &found, &targets);
    cache.reconcile(&targets, now, &Vec::new());
    assert_eq!(cache.entries.entries.len(), 1);
    cache.reconcile(&targets, now, &targets);
    assert!(cache.entries.entries.is_empty());
    assert!(cache.due(&targets, now + NEW_SOCKET_INTERVAL));
    cache.accept(&request(&targets, now), &found, &targets);
    assert!(cache.entries.get(&id).is_some());
    cache.reconcile(&targets, now + MAX_CACHE_AGE, &Vec::new());
    assert!(cache.entries.entries.is_empty());
    assert_eq!(
        cache.snapshot(&targets, now + MAX_CACHE_AGE, true).coverage,
        SocketProcessCoverage::Pending
    );
}

#[test]
fn failed_scan_replaces_old_owners_and_retains_failure_coverage() {
    let now = 100 * SECOND;
    let id = tcp_identity(1);
    let targets = vec![id];
    let mut cache = OwnerCache::new();
    cache.accept(
        &request(&targets, now),
        &scan(ProcessScanStatus::Complete, worker(id.inode)),
        &targets,
    );
    cache.accept(
        &request(&targets, now),
        &scan(ProcessScanStatus::Io, Vec::new()),
        &targets,
    );
    let snapshot = cache.snapshot(&targets, now, false);
    assert!(snapshot.owners(&id).is_empty());
    assert_eq!(snapshot.coverage, SocketProcessCoverage::Unavailable);
}

#[test]
fn one_scan_at_a_time_is_asked_for_and_a_stopped_worker_is_not_asked_again() {
    let now = 100 * SECOND;
    let targets = vec![tcp_identity(1)];
    let mut service = OwnerService::new();
    service.receive(Reply::Nothing, &targets);
    let asked = service.next_request(&targets, now).unwrap();
    assert!(asked.targets == targets && asked.started == now);
    service.requested(now);
    let snapshot = service.snapshot(&targets, now);
    assert_eq!(snapshot.coverage, SocketProcessCoverage::Pending);
    assert!(snapshot.refreshing);
    assert!(service.next_request(&targets, now + 30 * SECOND).is_none());
    service.receive(
        Reply::Scanned {
            request: request(&targets, now),
            scan: scan(ProcessScanStatus::Complete, worker(1)),
        },
        &targets,
    );
    let snapshot = service.snapshot(&targets, now + SECOND);
    assert_eq!(snapshot.owners(&targets[0]).len(), 1);
    assert_eq!(snapshot.age, Some(SECOND));
    assert!(!snapshot.refreshing);
    service.receive(Reply::Stopped, &targets);
    assert_eq!(
        service.snapshot(&targets, now).coverage,
        SocketProcessCoverage::Unavailable
    );
    assert!(service.next_request(&targets, now + 60 * SECOND).is_none());
}

#[test]
fn scan_results_keep_their_coverage() {
    let partial = ProcessScanStatus::Partial {
        permission_denied_processes: 1,
        io_errors: 2,
        truncated: false,
    };
    assert_eq!(project_process_coverage(partial).label(), "partial");
    assert_eq!(
        project_process_coverage(ProcessScanStatus::PermissionDenied).summary(),
        "permission-denied"
    );
    assert!(project_process_coverage(ProcessScanStatus::Complete).is_complete());
}

#[test]
fn addresses_are_read_as_they_are_written() {
    for (text, expected) in [
        ("0.0.0.0", Some(IpAddress::V4(0))),
        ("192.0.2.10", Some(IpAddress::V4(0xc000_020a))),
        ("255.255.255.255", Some(IpAddress::V4(u32::MAX))),
        ("::", Some(IpAddress::V6(0))),
        ("::1", Some(IpAddress::V6(1))),
        ("1::", Some(IpAddress::V6(1 << 112))),
        ("2001:DB8::ff00:42:8329", Some(IpAddress::V6(
            0x2001_0db8_0000_0000_0000_ff00_0042_8329,
        ))),
        ("1:2:3:4:5:6:7:8", Some(IpAddress::V6(0x0001_0002_0003_0004_0005_0006_0007_0008))),
        ("1:2:3:4:5:6:7::", Some(IpAddress::V6(0x0001_0002_0003_0004_0005_0006_0007_0000))),
        ("::ffff:192.0.2.1", Some(IpAddress::V6(0xffff_c000_0201))),
        ("1:2:3:4:5:6:1.2.3.4", Some(IpAddress::V6(
            0x0001_0002_0003_0004_0005_0006_0102_0304,
        ))),
        ("", None),
        ("1.2.3", None),
        ("1.2.3.4.5", None),
        ("01.2.3.4", None),
        ("256.0.0.1", None),
        ("1..2.3", None),
        ("+1.2.3.4", None),
        (":", None),
        (":::", None),
        ("1:2:3:4:5:6:7", None),
        ("1:2:3:4:5:6:7:8:9", None),
        ("1::2::3", None),
        ("1:2:3:4:5:6:7:8::", None),
        (":1::2", None),
        ("12345::", None),
        ("1.2.3.4::", None),
        ("1:2:3:4:5:6:7:1.2.3.4", None),
        ("fe80::1%eth0", None),
    ] {
        let chars: Vec<char> = text.chars().collect();
        assert!(read_address(&chars) == expected, "{text}");
    }
}
