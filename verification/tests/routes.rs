use netlens::addresses::{read_address, IpAddress};
use netlens::model::{MonitorErrorCode, Nanos, ProviderHealth};
use netlens::network_route::{
    monitor_error_code, CollectError, CollectErrorKind, Dump, Families, FamilyAttempt,
    InventoryProjector, InventorySnapshot, IpFamily, IpPrefix, NeighbourCacheInfo, NeighbourRow,
    RouteCacheInfo, RouteMetrics, RouteNexthop, RouteRow, RuleRow, RuleSelector,
};
use netlens::route_changes::{ChangeProjector, NetworkRouteProjector, RouteIdentity};
use netlens::route_lookup::{valid_interface_name, RouteLookupQuery};
use netlens::rows::RowIdentity;
use netlens::schedule::{advance_deadline, cycle_time, refresh_interval, Latest, Waited};

const SECOND: Nanos = 1_000_000_000;
const MILLI: Nanos = 1_000_000;

fn address(text: &str) -> IpAddress {
    let chars: Vec<char> = text.chars().collect();
    match read_address(&chars) {
        Some(address) => address,
        None => panic!("not an address: {text}"),
    }
}

fn any(family: IpFamily) -> IpPrefix {
    IpPrefix {
        address: match family {
            IpFamily::Ipv4 => address("0.0.0.0"),
            IpFamily::Ipv6 => address("::"),
        },
        prefix_len: 0,
    }
}

fn test_route(family: IpFamily) -> RouteRow {
    RouteRow {
        family,
        destination: any(family),
        source: any(family),
        tos: 0,
        table: 254,
        priority: None,
        protocol: 2,
        scope: 0,
        route_type: 1,
        flags: 0,
        preferred_source: None,
        nexthops: Vec::new(),
        nexthops_truncated: false,
        metrics: RouteMetrics::default(),
        cache: None,
        expires: None,
        unsupported_encapsulation: false,
    }
}

fn test_rule(family: IpFamily, priority: u32) -> RuleRow<String> {
    RuleRow {
        selector: RuleSelector {
            family,
            destination: any(family),
            source: any(family),
            tos: 0,
            table: 254,
            action: 1,
            flags: 0,
            priority: Some(priority),
            fwmark: None,
            fwmask: None,
            goto_priority: None,
            suppress_prefix_len: None,
            suppress_interface_group: None,
            l3mdev: None,
            uid_range: None,
            tunnel_id: None,
            flow: None,
            protocol: None,
        },
        input_interface: None,
        output_interface: None,
    }
}

fn test_neighbour() -> NeighbourRow<String> {
    NeighbourRow {
        family: IpFamily::Ipv4,
        address: address("192.0.2.1"),
        ifindex: 2,
        interface: Some("eth0".to_owned()),
        link_address: None,
        state: 0x02,
        flags: 0,
        neighbour_type: 1,
        probes: Some(1),
        cache: None,
    }
}

fn fresh<T>(rows: Vec<T>) -> InventorySnapshot<T> {
    InventorySnapshot {
        health: ProviderHealth::Fresh,
        family_health: Families { ipv4: ProviderHealth::Fresh, ipv6: ProviderHealth::Fresh },
        attempted_at: SECOND,
        collection_duration: MILLI,
        completed_queries: 2,
        failed_queries: 0,
        observed_rows: 1,
        truncated: false,
        rows,
    }
}

fn dump<T>(rows: Vec<T>) -> Result<Dump<T>, CollectError> {
    Ok(Dump { observed_rows: rows.len(), rows, truncated: false })
}

fn failure<T>(kind: CollectErrorKind, message: &str) -> Result<Dump<T>, CollectError> {
    Err(CollectError { kind, message: message.to_owned() })
}

fn attempt<T>(
    at: Nanos,
    ipv4: Result<Dump<T>, CollectError>,
    ipv6: Result<Dump<T>, CollectError>,
) -> FamilyAttempt<T> {
    FamilyAttempt { attempted_at: at, collection_duration: 2 * MILLI, ipv4, ipv6 }
}

#[test]
fn parses_route_lookup_selectors_and_rejects_family_mismatch() {
    let query = RouteLookupQuery::parse(
        "198.51.100.7 from 192.0.2.1 mark 0x20 uid 1000 tos 16 iif lo oif lo",
    )
    .ok()
    .unwrap();
    assert!(query.destination == address("198.51.100.7"));
    assert!(query.source == Some(address("192.0.2.1")));
    assert_eq!(query.mark, Some(0x20));
    assert_eq!(query.uid, Some(1000));
    assert_eq!(query.tos, Some(16));
    assert_eq!(query.input_interface.as_deref(), Some("lo"));
    assert_eq!(query.output_interface.as_deref(), Some("lo"));
    assert!(RouteLookupQuery::parse("198.51.100.7 from 2001:db8::1").is_err());
    assert!(RouteLookupQuery::parse("198.51.100.7 mark 1 mark 2").is_err());
    assert!(RouteLookupQuery::parse("198.51.100.7 sport 443").is_err());
}

#[test]
fn every_fault_of_a_lookup_is_named() {
    for (input, message) in [
        (" \t\u{3000} ", "enter a destination IP address"),
        ("198.51.100.7 \u{e9}", "route lookup input is too long or contains non-ASCII text"),
        ("example.org", "destination must be an IPv4 or IPv6 address"),
        ("::1 from", "route lookup option is missing a value"),
        ("::1 from x", "source must be an IPv4 or IPv6 address"),
        ("::1 iif a/b", "iif is not a valid Linux interface name"),
        ("::1 oif 0123456789abcdef", "oif is not a valid Linux interface name"),
        ("::1 mark 0x", "route lookup numeric option is invalid"),
        ("::1 uid 4294967296", "route lookup numeric option is invalid"),
        ("::1 tos 256", "tos must be between 0 and 255"),
        ("::1 uid 1 uid 1", "route lookup option was specified more than once"),
        ("::1 via ::2", "unknown route lookup option"),
        ("::1 from 1.2.3.4", "source and destination address families must match"),
    ] {
        assert!(
            matches!(RouteLookupQuery::parse(input), Err(told) if told == message),
            "{input}"
        );
    }
    let long = format!("::1 mark {}", "0".repeat(300));
    assert!(matches!(
        RouteLookupQuery::parse(&long),
        Err("route lookup input is too long or contains non-ASCII text")
    ));
    let plus = RouteLookupQuery::parse("  ::1 mark +7 uid 0x+fF ").ok().unwrap();
    assert_eq!((plus.mark, plus.uid), (Some(7), Some(255)));
    assert_eq!(plus.input, "::1 mark +7 uid 0x+fF");
    for (name, valid) in [("lo", true), (".", false), ("..", false), ("", false), ("a:b", false)] {
        let chars: Vec<char> = name.chars().collect();
        assert_eq!(valid_interface_name(&chars), valid, "{name}");
    }
}

#[test]
fn requests_need_the_interfaces_that_are_named() {
    let query = RouteLookupQuery::parse("198.51.100.7 iif lo tos 4").ok().unwrap();
    let request = query.request(1, 0).ok().unwrap();
    assert_eq!((request.input_ifindex, request.output_ifindex), (Some(1), None));
    assert_eq!(request.tos, Some(4));
    assert_eq!(
        query.request(0, 3).err(),
        Some("interface lo does not exist in this network namespace".to_owned())
    );
}

#[test]
fn inventory_projector_keeps_failed_family_stale_and_publishes_fresh_family() {
    let mut projector = InventoryProjector::new();
    let first = projector.project(attempt(
        SECOND,
        dump(vec![test_route(IpFamily::Ipv4)]),
        dump(vec![test_route(IpFamily::Ipv6)]),
    ));
    assert!(first.health.is_fresh());
    assert_eq!(first.rows.len(), 2);

    let mut updated_ipv6 = test_route(IpFamily::Ipv6);
    updated_ipv6.priority = Some(200);
    let mixed = projector.project(attempt(
        2 * SECOND,
        failure(CollectErrorKind::Io, "IPv4 failed"),
        dump(vec![updated_ipv6.clone()]),
    ));
    assert_eq!(mixed.rows.len(), 2);
    assert!(mixed.rows.contains(&test_route(IpFamily::Ipv4)));
    assert!(mixed.rows.contains(&updated_ipv6));
    assert!(matches!(mixed.family_health.get(IpFamily::Ipv4), ProviderHealth::Stale { .. }));
    assert!(mixed.family_health.get(IpFamily::Ipv6).is_fresh());
    assert!(matches!(mixed.health, ProviderHealth::Partial { .. }));

    let mut changes = ChangeProjector::new();
    changes.update_routes(&first);
    changes.update_routes(&mixed);
    assert_eq!(changes.totals.route_additions, 1);
    assert_eq!(changes.totals.route_removals, 1);
}

#[test]
fn route_changes_skip_truncated_and_failed_family_snapshots() {
    let mut inventory = InventoryProjector::new();
    let mut changes = ChangeProjector::new();
    let ipv4_baseline = test_route(IpFamily::Ipv4);
    let ipv6_baseline = test_route(IpFamily::Ipv6);
    let baseline = inventory.project(attempt(
        SECOND,
        dump(vec![ipv4_baseline.clone()]),
        dump(vec![ipv6_baseline.clone()]),
    ));
    changes.update_routes(&baseline);

    let mut truncated_route = ipv4_baseline.clone();
    truncated_route.priority = Some(100);
    let partial = inventory.project(attempt(
        2 * SECOND,
        Ok(Dump { rows: vec![truncated_route.clone()], observed_rows: 2, truncated: true }),
        dump(vec![ipv6_baseline.clone()]),
    ));
    assert!(partial.rows.contains(&truncated_route));
    changes.update_routes(&partial);

    let stale = inventory.project(attempt(
        3 * SECOND,
        failure(CollectErrorKind::Io, "IPv4 failed"),
        dump(vec![ipv6_baseline.clone()]),
    ));
    assert!(stale.rows.contains(&ipv4_baseline));
    assert!(!stale.rows.contains(&truncated_route));
    changes.update_routes(&stale);
    assert_eq!(changes.totals.route_additions, 0);
    assert_eq!(changes.totals.route_removals, 0);

    let mut recovered_route = ipv4_baseline.clone();
    recovered_route.priority = Some(200);
    let recovered = inventory.project(attempt(
        4 * SECOND,
        dump(vec![recovered_route]),
        dump(vec![ipv6_baseline]),
    ));
    changes.update_routes(&recovered);
    assert_eq!(changes.totals.route_additions, 1);
    assert_eq!(changes.totals.route_removals, 1);
}

#[test]
fn neighbour_cache_age_progress_does_not_count_as_an_update() {
    let mut projector = ChangeProjector::new();
    let mut neighbour = test_neighbour();
    neighbour.cache = Some(NeighbourCacheInfo {
        confirmed_age: SECOND,
        used_age: 2 * SECOND,
        updated_age: 3 * SECOND,
        references: 1,
    });
    projector.update_neighbours(&fresh(vec![neighbour.clone()]));

    let cache = neighbour.cache.as_mut().unwrap();
    cache.confirmed_age += SECOND;
    cache.used_age += SECOND;
    cache.updated_age += SECOND;
    projector.update_neighbours(&fresh(vec![neighbour.clone()]));

    assert_eq!(projector.totals.neighbour_updates, 0);

    neighbour.probes = Some(2);
    projector.update_neighbours(&fresh(vec![neighbour.clone()]));
    assert_eq!(projector.totals.neighbour_updates, 1);

    neighbour.interface = Some("wan0".to_owned());
    neighbour.cache.as_mut().unwrap().references = 2;
    projector.update_neighbours(&fresh(vec![neighbour]));
    assert_eq!(projector.totals.neighbour_updates, 1);
}

#[test]
fn route_cache_age_progress_does_not_count_as_remove_and_add() {
    let mut projector = ChangeProjector::new();
    let mut route = test_route(IpFamily::Ipv4);
    route.cache = Some(RouteCacheInfo {
        client_references: 1,
        last_use: SECOND,
        expires: Some(30 * SECOND),
        error: 0,
        used: 2,
        id: 3,
        timestamp_ticks: 4,
        timestamp_age: 5 * SECOND,
    });
    route.expires = Some(30 * SECOND);
    projector.update_routes(&fresh(vec![route.clone()]));

    let cache = route.cache.as_mut().unwrap();
    cache.last_use += SECOND;
    cache.expires = Some(29 * SECOND);
    cache.timestamp_age += SECOND;
    route.expires = Some(29 * SECOND);
    projector.update_routes(&fresh(vec![route.clone()]));

    assert_eq!(projector.totals.route_additions, 0);
    assert_eq!(projector.totals.route_removals, 0);

    route.priority = Some(100);
    projector.update_routes(&fresh(vec![route]));
    assert_eq!(projector.totals.route_additions, 1);
    assert_eq!(projector.totals.route_removals, 1);
}

#[test]
fn resolved_interface_name_does_not_change_route_identity() {
    let mut projector = ChangeProjector::new();
    let mut route = test_route(IpFamily::Ipv4);
    route.nexthops.push(RouteNexthop {
        ifindex: Some(2),
        interface: Some("eth0".to_owned()),
        gateway: Some(address("192.0.2.1")),
        via: None,
        weight: 1,
        flags: 0,
    });
    projector.update_routes(&fresh(vec![route.clone()]));

    route.nexthops[0].interface = Some("wan0".to_owned());
    projector.update_routes(&fresh(vec![route.clone()]));
    assert_eq!(projector.totals.route_additions, 0);
    assert_eq!(projector.totals.route_removals, 0);

    route.nexthops[0].interface = None;
    route.nexthops[0].flags = 0x01 | 0x08 | 0x10 | 0x20 | 0x40;
    projector.update_routes(&fresh(vec![route.clone()]));
    assert_eq!(projector.totals.route_additions, 0);
    assert_eq!(projector.totals.route_removals, 0);

    route.nexthops[0].flags |= 0x04;
    projector.update_routes(&fresh(vec![route.clone()]));
    assert_eq!(projector.totals.route_additions, 1);
    assert_eq!(projector.totals.route_removals, 1);

    route.nexthops[0].ifindex = Some(3);
    projector.update_routes(&fresh(vec![route]));
    assert_eq!(projector.totals.route_additions, 2);
    assert_eq!(projector.totals.route_removals, 2);
}

#[test]
fn tos_specific_routes_have_distinct_identities() {
    let first = test_route(IpFamily::Ipv4);
    let mut second = first.clone();
    second.tos = 0x10;

    assert!(!RouteIdentity::of(&first).same(&RouteIdentity::of(&second)));
    let mut projector = ChangeProjector::new();
    projector.update_routes(&fresh(vec![first, second]));
    assert_eq!(projector.routes.ipv4.unwrap().members.len(), 2);
}

#[test]
fn neighbours_that_come_go_and_fail_are_counted() {
    let mut projector = ChangeProjector::new();
    let first = test_neighbour();
    let mut second = test_neighbour();
    second.address = address("192.0.2.2");
    projector.update_neighbours(&fresh(vec![first.clone()]));
    projector.update_neighbours(&fresh(vec![first.clone(), second.clone()]));
    assert_eq!(projector.totals.neighbour_additions, 1);
    second.state = 0x20;
    projector.update_neighbours(&fresh(vec![first, second.clone()]));
    assert_eq!(projector.totals.neighbour_state_changes, 1);
    assert_eq!(projector.totals.neighbour_failed_transitions, 1);
    assert_eq!(projector.totals.neighbour_updates, 1);
    second.state = 0x22;
    projector.update_neighbours(&fresh(vec![second]));
    assert_eq!(projector.totals.neighbour_removals, 1);
    assert_eq!(projector.totals.neighbour_state_changes, 2);
    assert_eq!(projector.totals.neighbour_failed_transitions, 1);
}

#[test]
fn rules_and_equal_tables_are_counted_as_sets() {
    let mut projector = ChangeProjector::new();
    let rule = test_rule(IpFamily::Ipv4, 1);
    projector.update_rules(&fresh(vec![rule.clone(), rule.clone()]));
    projector.update_rules(&fresh(vec![rule.clone()]));
    assert_eq!(projector.totals.rule_additions, 0);
    let mut named = rule.clone();
    named.input_interface = Some("lo".to_owned());
    projector.update_rules(&fresh(vec![named, test_rule(IpFamily::Ipv6, 1)]));
    assert_eq!((projector.totals.rule_additions, projector.totals.rule_removals), (2, 1));
}

#[test]
fn both_families_together_are_in_order_and_say_what_failed() {
    let mut projector = NetworkRouteProjector::new();
    let mut second = test_route(IpFamily::Ipv4);
    second.table = 1;
    let snapshot = projector.project(
        7,
        attempt(
            SECOND,
            dump(vec![test_route(IpFamily::Ipv4), second]),
            dump(vec![test_route(IpFamily::Ipv6)]),
        ),
        attempt(
            2 * SECOND,
            failure(CollectErrorKind::PermissionDenied, "no"),
            failure(CollectErrorKind::Parse, "\u{7f}"),
        ),
        attempt(3 * SECOND, dump(vec![test_neighbour()]), dump(Vec::new())),
    );
    assert_eq!((snapshot.sequence, snapshot.elapsed), (7, 3 * SECOND));
    assert_eq!(snapshot.collection_duration, 6 * MILLI);
    let tables: Vec<u32> = snapshot.routes.rows.iter().map(|row| row.table).collect();
    assert_eq!(tables, vec![1, 254, 254]);
    assert_eq!(snapshot.routes.observed_rows, 3);
    let ProviderHealth::Error { error } = &snapshot.rules.health else {
        panic!("both families failed");
    };
    assert_eq!(error.code, MonitorErrorCode::PermissionDenied);
    assert_eq!(
        error.diagnostic,
        "IPv4 error (no); IPv6 error (network route inventory failed)"
    );
    assert_eq!((snapshot.rules.completed_queries, snapshot.rules.failed_queries), (0, 2));

    let stale = projector.project(
        8,
        attempt(
            5 * SECOND,
            failure(CollectErrorKind::Timeout, "slow"),
            failure(CollectErrorKind::Loss, "lost"),
        ),
        attempt(5 * SECOND, dump(Vec::new()), dump(Vec::new())),
        attempt(
            4 * SECOND,
            Ok(Dump { rows: vec![test_neighbour()], observed_rows: 9, truncated: true }),
            dump(Vec::new()),
        ),
    );
    assert!(matches!(
        stale.routes.health,
        ProviderHealth::Stale { last_success_at, age, .. }
            if last_success_at == SECOND && age == 4 * SECOND
    ));
    assert_eq!(stale.routes.rows.len(), 3);
    let ProviderHealth::Partial { warning } = &stale.neighbours.health else {
        panic!("rows were left out");
    };
    assert_eq!(
        warning.diagnostic,
        "IPv4 partial (retention limit reached; family table is incomplete); IPv6 fresh"
    );
    assert!(stale.neighbours.truncated);
    for (kind, code) in [
        (CollectErrorKind::InvalidRequest, MonitorErrorCode::Parse),
        (CollectErrorKind::Unsupported, MonitorErrorCode::Unsupported),
        (CollectErrorKind::NotFound, MonitorErrorCode::NotFound),
        (CollectErrorKind::OutputLimit, MonitorErrorCode::OutputLimit),
        (CollectErrorKind::Interrupted, MonitorErrorCode::Io),
    ] {
        assert_eq!(monitor_error_code(kind), code);
    }
}

#[test]
fn deadlines_keep_their_steps_and_count_what_was_missed() {
    let next = advance_deadline(10, 5, 11);
    assert_eq!((next.deadline, next.missed), (15, 0));
    let late = advance_deadline(10, 5, 27);
    assert_eq!((late.deadline, late.missed), (30, 3));
    let exact = advance_deadline(10, 5, 15);
    assert_eq!((exact.deadline, exact.missed), (20, 1));
    assert_eq!(advance_deadline(10, 5, 3).deadline, 15);
    assert_eq!(refresh_interval(SECOND, true), SECOND);
    assert_eq!(refresh_interval(SECOND, false), 5 * SECOND);
    assert_eq!(refresh_interval(9 * SECOND, false), 9 * SECOND);
    assert_eq!(cycle_time(&Vec::new(), 12), 12);
}

#[test]
fn those_who_wait_get_a_newer_snapshot_before_a_failure() {
    let mut latest = Latest::new();
    assert!(latest.keeps_waiting(0));
    assert_eq!(latest.take(0), Waited::Nothing);
    assert!(!latest.publish(1));
    assert!(latest.publish(2));
    assert!(!latest.keeps_waiting(1) && latest.keeps_waiting(2));
    latest.close(true);
    assert_eq!(latest.take(1), Waited::Newer);
    assert_eq!(latest.last_observed, 2);
    assert_eq!(latest.take(2), Waited::Failed);
    latest.close(false);
    assert_eq!(latest.take(2), Waited::Nothing);
    assert!(!latest.keeps_waiting(2));
}
