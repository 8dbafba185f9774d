//! What counts as a change of the routing tables, what is shown of tables that could not be
//! read, and what a route lookup asks for.
use crate::addresses;
use crate::addresses::IpAddress;
use crate::diagnostics;
use crate::model::{MonitorErrorCode, Nanos, ProviderHealth};
use crate::network_route;
use crate::network_route::{
    CollectError, CollectErrorKind, Dump, FamilyAttempt, FamilyModel, InventorySnapshot, IpFamily,
    LastComplete, NeighbourRow, RouteModel, RouteNexthop, RouteRow, RuleRow,
};
use crate::ordering;
use crate::ordering::Ordered;
use crate::route_changes;
use crate::route_changes::{
    ChangeModel, InventoryChangeTotals, NeighbourIdentity, NetworkRouteSnapshot, RouteIdentityModel,
};
use crate::route_lookup;
use crate::route_lookup::QueryModel;
use crate::seqs;
use crate::text;
use vstd::prelude::*;

verus! {

/// Whether two next hops lead the same way: over the same interface, to the same gateway, with
/// the same weight and the same flags as far as those are configured.
pub open spec fn same_hop(a: RouteNexthop<Seq<char>>, b: RouteNexthop<Seq<char>>) -> bool {
    &&& a.ifindex == b.ifindex
    &&& a.gateway == b.gateway
    &&& a.via == b.via
    &&& a.weight == b.weight
    &&& a.flags & 0x86u8 == b.flags & 0x86u8
}

/// Whether two routes are the same route.
pub open spec fn same_route(a: RouteModel, b: RouteModel) -> bool {
    &&& a.family == b.family
    &&& a.destination == b.destination
    &&& a.source == b.source
    &&& a.tos == b.tos
    &&& a.table == b.table
    &&& a.priority == b.priority
    &&& a.protocol == b.protocol
    &&& a.scope == b.scope
    &&& a.route_type == b.route_type
    &&& a.preferred_source == b.preferred_source
    &&& a.nexthops.len() == b.nexthops.len()
    &&& forall|i: int|
        0 <= i < a.nexthops.len() ==> same_hop(#[trigger] a.nexthops[i], b.nexthops[i])
}

/// Routes have one identity exactly if they agree in family, destination, source, service,
/// table, priority, protocol, scope, type and preferred source, and in the interface, gateway,
/// weight and configured flags of each next hop.
pub proof fn identities_tell_routes_apart(a: RouteModel, b: RouteModel)
    ensures
        route_changes::route_identity(a) == route_changes::route_identity(b) <==> same_route(a, b),
{
    let x = route_changes::route_identity(a);
    let y = route_changes::route_identity(b);
    assert(network_route::CONFIGURED_FLAGS == 0x86u8);
    if x == y {
        assert(x.selector == y.selector);
        assert(x.nexthops.len() == a.nexthops.len() && y.nexthops.len() == b.nexthops.len());
        assert forall|i: int| 0 <= i < a.nexthops.len() implies same_hop(
            #[trigger] a.nexthops[i],
            b.nexthops[i],
        ) by {
            assert(x.nexthops[i] == y.nexthops[i]);
        }
    }
    if same_route(a, b) {
        assert forall|i: int| 0 <= i < a.nexthops.len() implies #[trigger] x.nexthops[i]
            == y.nexthops[i] by {
            assert(same_hop(a.nexthops[i], b.nexthops[i]));
        }
        assert(x.nexthops =~= y.nexthops);
    }
}

proof fn lemma_route_known(rows: Seq<RouteModel>, family: IpFamily, n: int, route: RouteModel)
    requires
        0 <= n <= rows.len(),
    ensures
        route_changes::routes_upto(rows, family, n).contains(route_changes::route_identity(route))
            <==> exists|i: int|
            0 <= i < n && (#[trigger] rows[i]).family == family && same_route(rows[i], route),
        route_changes::routes_upto(rows, family, n).finite(),
    decreases n,
{
    if n > 0 {
        lemma_route_known(rows, family, n - 1, route);
        identities_tell_routes_apart(rows[n - 1], route);
        if exists|i: int|
            0 <= i < n - 1 && (#[trigger] rows[i]).family == family && same_route(rows[i], route) {
            let i = choose|i: int|
                0 <= i < n - 1 && (#[trigger] rows[i]).family == family && same_route(
                    rows[i],
                    route,
                );
            assert(rows[i].family == family);
        }
        if rows[n - 1].family == family && same_route(rows[n - 1], route) {
            assert(rows[n - 1].family == family);
        }
    }
}

proof fn lemma_routes_prefix(a: Seq<RouteModel>, route: RouteModel, family: IpFamily, n: int)
    requires
        0 <= n <= a.len(),
    ensures
        route_changes::routes_upto(a.push(route), family, n) == route_changes::routes_upto(
            a,
            family,
            n,
        ),
    decreases n,
{
    if n > 0 {
        lemma_routes_prefix(a, route, family, n - 1);
    }
}

proof fn lemma_one_more<M>(set: Set<M>, member: M)
    requires
        set.finite(),
        !set.contains(member),
    ensures
        route_changes::missing_from(set.insert(member), set) == 1,
        route_changes::missing_from(set, set.insert(member)) == 0,
        route_changes::missing_from(set, set) == 0,
{
    let more = set.insert(member);
    assert(more.filter(|m: M| !set.contains(m)) =~= Set::<M>::empty().insert(member));
    assert(set.filter(|m: M| !more.contains(m)) =~= Set::<M>::empty());
    assert(set.filter(|m: M| !set.contains(m)) =~= Set::<M>::empty());
}

/// After a complete table, one that holds one route more counts one addition and nothing
/// else, and the other way round one removal. A route that is already there, however it ages,
/// counts nothing.
pub proof fn added_and_removed_routes_are_counted(
    model: ChangeModel,
    family: IpFamily,
    rows: Seq<RouteModel>,
    route: RouteModel,
)
    requires
        route.family == family,
        model.totals.route_additions < u64::MAX,
        model.totals.route_removals < u64::MAX,
    ensures
        ({
            let new = forall|i: int|
                0 <= i < rows.len() && (#[trigger] rows[i]).family == family ==> !same_route(
                    rows[i],
                    route,
                );
            let small = route_changes::route_step(model, family, true, rows);
            let grown = route_changes::route_step(small, family, true, rows.push(route));
            let large = route_changes::route_step(model, family, true, rows.push(route));
            let shrunk = route_changes::route_step(large, family, true, rows);
            &&& grown.totals == (InventoryChangeTotals {
                route_additions: if new {
                    route_changes::counted(small.totals.route_additions, 1)
                } else {
                    small.totals.route_additions
                },
                ..small.totals
            })
            &&& shrunk.totals == (InventoryChangeTotals {
                route_removals: if new {
                    route_changes::counted(large.totals.route_removals, 1)
                } else {
                    large.totals.route_removals
                },
                ..large.totals
            })
        }),
{
    let n = rows.len() as int;
    let all = rows.push(route);
    let before = route_changes::routes_upto(rows, family, n);
    let after = route_changes::routes_upto(all, family, n + 1);
    let identity = route_changes::route_identity(route);
    lemma_routes_prefix(rows, route, family, n);
    lemma_route_known(rows, family, n, route);
    assert(after == before.insert(identity));
    if before.contains(identity) {
        assert(after =~= before);
        assert(before.filter(|m: RouteIdentityModel| !before.contains(m)) =~= Set::<
            RouteIdentityModel,
        >::empty());
    } else {
        lemma_one_more(before, identity);
    }
}

/// Sums are exact where they fit.
pub proof fn totals_add_up(total: u64, more: nat)
    ensures
        total + more <= u64::MAX ==> route_changes::counted(total, more) == total + more,
        total + more > u64::MAX ==> route_changes::counted(total, more) == u64::MAX,
{
}

/// The first complete table of a family counts nothing, and from then on tables of that family
/// are compared with the last complete one. The other family is left alone.
pub proof fn the_first_table_counts_nothing(
    model: ChangeModel,
    family: IpFamily,
    other: IpFamily,
    routes: Seq<RouteModel>,
    rules: Seq<RuleRow<Seq<char>>>,
    neighbours: Seq<NeighbourRow<Seq<char>>>,
)
    requires
        other != family,
    ensures
        ({
            let a = route_changes::route_step(model, family, true, routes);
            let b = route_changes::rule_step(model, family, true, rules);
            let c = route_changes::neighbour_step(model, family, true, neighbours);
            &&& model.routes.of(family) is None ==> a.totals == model.totals
            &&& model.rules.of(family) is None ==> b.totals == model.totals
            &&& model.neighbours.of(family) is None ==> c.totals == model.totals
            &&& a.routes.of(family) is Some && a.routes.of(other) == model.routes.of(other)
            &&& b.rules.of(family) is Some && b.rules.of(other) == model.rules.of(other)
            &&& c.neighbours.of(family) is Some && c.neighbours.of(other)
                == model.neighbours.of(other)
            &&& a.rules == model.rules && a.neighbours == model.neighbours
            &&& b.routes == model.routes && b.neighbours == model.neighbours
            &&& c.routes == model.routes && c.rules == model.rules
        }),
{
}

proof fn lemma_rule_known(
    rows: Seq<RuleRow<Seq<char>>>,
    family: IpFamily,
    n: int,
    rule: RuleRow<Seq<char>>,
)
    requires
        0 <= n <= rows.len(),
    ensures
        route_changes::rules_upto(rows, family, n).contains(rule) <==> exists|i: int|
            0 <= i < n && (#[trigger] rows[i]) == rule && rule.selector.family == family,
        route_changes::rules_upto(rows, family, n).finite(),
    decreases n,
{
    if n > 0 {
        lemma_rule_known(rows, family, n - 1, rule);
        if exists|i: int|
            0 <= i < n - 1 && (#[trigger] rows[i]) == rule && rule.selector.family == family {
            let i = choose|i: int|
                0 <= i < n - 1 && (#[trigger] rows[i]) == rule && rule.selector.family == family;
            assert(rows[i] == rule);
        }
        if rows[n - 1] == rule {
            assert(rows[n - 1] == rule);
        }
    }
}

proof fn lemma_rules_prefix(
    a: Seq<RuleRow<Seq<char>>>,
    rule: RuleRow<Seq<char>>,
    family: IpFamily,
    n: int,
)
    requires
        0 <= n <= a.len(),
    ensures
        route_changes::rules_upto(a.push(rule), family, n) == route_changes::rules_upto(
            a,
            family,
            n,
        ),
    decreases n,
{
    if n > 0 {
        lemma_rules_prefix(a, rule, family, n - 1);
    }
}

/// A rule that comes counts one addition, and one that goes one removal; a rule that says
/// anything else than those that were there is another rule.
pub proof fn added_and_removed_rules_are_counted(
    model: ChangeModel,
    family: IpFamily,
    rows: Seq<RuleRow<Seq<char>>>,
    rule: RuleRow<Seq<char>>,
)
    requires
        rule.selector.family == family,
        !rows.contains(rule),
    ensures
        ({
            let small = route_changes::rule_step(model, family, true, rows);
            let grown = route_changes::rule_step(small, family, true, rows.push(rule));
            let large = route_changes::rule_step(model, family, true, rows.push(rule));
            let shrunk = route_changes::rule_step(large, family, true, rows);
            &&& grown.totals == (InventoryChangeTotals {
                rule_additions: route_changes::counted(small.totals.rule_additions, 1),
                ..small.totals
            })
            &&& shrunk.totals == (InventoryChangeTotals {
                rule_removals: route_changes::counted(large.totals.rule_removals, 1),
                ..large.totals
            })
        }),
{
    let n = rows.len() as int;
    let before = route_changes::rules_upto(rows, family, n);
    lemma_rules_prefix(rows, rule, family, n);
    lemma_rule_known(rows, family, n, rule);
    assert(!before.contains(rule)) by {
        if before.contains(rule) {
            let i = choose|i: int|
                0 <= i < n && (#[trigger] rows[i]) == rule && rule.selector.family == family;
            assert(rows.contains(rows[i]));
        }
    }
    assert(route_changes::rules_upto(rows.push(rule), family, n + 1) == before.insert(rule));
    lemma_one_more(before, rule);
}

proof fn lemma_neighbour_known(
    rows: Seq<NeighbourRow<Seq<char>>>,
    family: IpFamily,
    n: int,
    row: NeighbourRow<Seq<char>>,
)
    requires
        0 <= n <= rows.len(),
    ensures
        route_changes::neighbours_upto(rows, family, n).contains_key(
            route_changes::neighbour_identity(row),
        ) <==> exists|i: int|
            0 <= i < n && (#[trigger] rows[i]).family == family && rows[i].family == row.family
                && rows[i].address == row.address && rows[i].ifindex == row.ifindex,
        route_changes::neighbours_upto(rows, family, n).dom().finite(),
    decreases n,
{
    if n > 0 {
        lemma_neighbour_known(rows, family, n - 1, row);
        if exists|i: int|
            0 <= i < n - 1 && (#[trigger] rows[i]).family == family && rows[i].family == row.family
                && rows[i].address == row.address && rows[i].ifindex == row.ifindex {
            let i = choose|i: int|
                0 <= i < n - 1 && (#[trigger] rows[i]).family == family && rows[i].family
                    == row.family && rows[i].address == row.address && rows[i].ifindex
                    == row.ifindex;
            assert(rows[i].family == family);
        }
        if rows[n - 1].family == family {
            assert(rows[n - 1].family == family);
        }
    }
}

proof fn lemma_neighbours_prefix(
    a: Seq<NeighbourRow<Seq<char>>>,
    row: NeighbourRow<Seq<char>>,
    family: IpFamily,
    n: int,
)
    requires
        0 <= n <= a.len(),
    ensures
        route_changes::neighbours_upto(a.push(row), family, n) == route_changes::neighbours_upto(
            a,
            family,
            n,
        ),
    decreases n,
{
    if n > 0 {
        lemma_neighbours_prefix(a, row, family, n - 1);
    }
}

/// A neighbour that comes, one with an address or an interface that no other has, counts one
/// addition and nothing else, and one that goes one removal.
pub proof fn added_and_removed_neighbours_are_counted(
    model: ChangeModel,
    family: IpFamily,
    rows: Seq<NeighbourRow<Seq<char>>>,
    row: NeighbourRow<Seq<char>>,
)
    requires
        row.family == family,
        forall|i: int|
            0 <= i < rows.len() ==> (#[trigger] rows[i]).address != row.address || rows[i].ifindex
                != row.ifindex,
    ensures
        ({
            let small = route_changes::neighbour_step(model, family, true, rows);
            let grown = route_changes::neighbour_step(small, family, true, rows.push(row));
            let large = route_changes::neighbour_step(model, family, true, rows.push(row));
            let shrunk = route_changes::neighbour_step(large, family, true, rows);
            &&& grown.totals == (InventoryChangeTotals {
                neighbour_additions: route_changes::counted(small.totals.neighbour_additions, 1),
                ..small.totals
            })
            &&& shrunk.totals == (InventoryChangeTotals {
                neighbour_removals: route_changes::counted(large.totals.neighbour_removals, 1),
                ..large.totals
            })
        }),
{
    let n = rows.len() as int;
    let before = route_changes::neighbours_upto(rows, family, n);
    let key = route_changes::neighbour_identity(row);
    lemma_neighbours_prefix(rows, row, family, n);
    lemma_neighbour_known(rows, family, n, row);
    let after = route_changes::neighbours_upto(rows.push(row), family, n + 1);
    assert(after == before.insert(key, row));
    assert(after.dom() =~= before.dom().insert(key));
    lemma_one_more(before.dom(), key);
    lemma_same_rows(before, after);
    lemma_same_rows(after, before);
}

proof fn lemma_same_rows(
    previous: Map<NeighbourIdentity, NeighbourRow<Seq<char>>>,
    current: Map<NeighbourIdentity, NeighbourRow<Seq<char>>>,
)
    requires
        forall|key: NeighbourIdentity|
            previous.contains_key(key) && #[trigger] current.contains_key(key) ==> previous[key]
                == current[key],
    ensures
        route_changes::count_both(previous, current, route_changes::updated()) == 0,
        route_changes::count_both(previous, current, route_changes::changed_state()) == 0,
        route_changes::count_both(previous, current, route_changes::lost()) == 0,
{
    assert(current.dom().filter(
        route_changes::both_with(previous, current, route_changes::updated()),
    ) =~= Set::empty());
    assert(current.dom().filter(
        route_changes::both_with(previous, current, route_changes::changed_state()),
    ) =~= Set::empty());
    assert(current.dom().filter(
        route_changes::both_with(previous, current, route_changes::lost()),
    ) =~= Set::empty());
}

/// A neighbour that stays is updated exactly if its link address, state, flags, type or probes
/// changed, changed its state exactly if that is another one, and failed exactly if it has
/// become failed; how long ago it was used and the name of its interface do not count.
pub proof fn changed_neighbours_are_counted(
    model: ChangeModel,
    family: IpFamily,
    rows: Seq<NeighbourRow<Seq<char>>>,
    old: NeighbourRow<Seq<char>>,
    new: NeighbourRow<Seq<char>>,
)
    requires
        old.family == family,
        new.family == family,
        old.address == new.address,
        old.ifindex == new.ifindex,
    ensures
        ({
            let first = route_changes::neighbour_step(model, family, true, rows.push(old));
            let second = route_changes::neighbour_step(first, family, true, rows.push(new));
            let updated = old.link_address != new.link_address || old.state != new.state
                || old.flags != new.flags || old.neighbour_type != new.neighbour_type || old.probes
                != new.probes;
            let failed = old.state & 0x20u16 == 0 && new.state & 0x20u16 != 0;
            second.totals == (InventoryChangeTotals {
                neighbour_updates: route_changes::counted(
                    first.totals.neighbour_updates,
                    if updated {
                        1
                    } else {
                        0
                    },
                ),
                neighbour_state_changes: route_changes::counted(
                    first.totals.neighbour_state_changes,
                    if old.state != new.state {
                        1
                    } else {
                        0
                    },
                ),
                neighbour_failed_transitions: route_changes::counted(
                    first.totals.neighbour_failed_transitions,
                    if failed {
                        1
                    } else {
                        0
                    },
                ),
                ..first.totals
            })
        }),
{
    let n = rows.len() as int;
    let before = route_changes::neighbours_upto(rows, family, n);
    let key = route_changes::neighbour_identity(old);
    assert(route_changes::neighbour_identity(new) == key);
    lemma_neighbours_prefix(rows, old, family, n);
    lemma_neighbours_prefix(rows, new, family, n);
    lemma_neighbour_known(rows, family, n, old);
    let x = route_changes::neighbours_upto(rows.push(old), family, n + 1);
    let y = route_changes::neighbours_upto(rows.push(new), family, n + 1);
    assert(x == before.insert(key, old) && y == before.insert(key, new));
    assert(x.dom() =~= y.dom());
    assert(x.dom().filter(|m: NeighbourIdentity| !y.dom().contains(m)) =~= Set::empty());
    assert(y.dom().filter(|m: NeighbourIdentity| !x.dom().contains(m)) =~= Set::empty());
    assert(network_route::NUD_FAILED == 0x20u16);
    lemma_one_counted(x, y, key, route_changes::updated());
    lemma_one_counted(x, y, key, route_changes::changed_state());
    lemma_one_counted(x, y, key, route_changes::lost());
}

proof fn lemma_one_counted(
    x: Map<NeighbourIdentity, NeighbourRow<Seq<char>>>,
    y: Map<NeighbourIdentity, NeighbourRow<Seq<char>>>,
    key: NeighbourIdentity,
    p: spec_fn(NeighbourRow<Seq<char>>, NeighbourRow<Seq<char>>) -> bool,
)
    requires
        x.contains_key(key),
        y.contains_key(key),
        forall|k: NeighbourIdentity|
            k != key && x.contains_key(k) && #[trigger] y.contains_key(k) ==> !p(x[k], y[k]),
    ensures
        route_changes::count_both(x, y, p) == if p(x[key], y[key]) {
            1nat
        } else {
            0nat
        },
{
    let found = y.dom().filter(route_changes::both_with(x, y, p));
    if p(x[key], y[key]) {
        assert(found =~= Set::<NeighbourIdentity>::empty().insert(key));
    } else {
        assert(found =~= Set::<NeighbourIdentity>::empty());
    }
}

/// A whole snapshot is counted family by family, each only if its table is complete.
pub proof fn families_are_counted_apart(
    model: ChangeModel,
    snapshot: InventorySnapshot<RouteRow>,
)
    requires
        !(snapshot.family_health.ipv4 is Fresh),
        !(snapshot.family_health.ipv6 is Fresh),
    ensures
        route_changes::after_routes(model, snapshot) == model,
{
}

/// A complete table of one family is counted although the other one is not complete.
pub proof fn one_complete_family_is_counted(
    model: ChangeModel,
    snapshot: InventorySnapshot<RouteRow>,
)
    ensures
        snapshot.family_health.ipv4 is Fresh && !(snapshot.family_health.ipv6 is Fresh)
            ==> route_changes::after_routes(model, snapshot) == route_changes::route_step(
            model,
            IpFamily::Ipv4,
            true,
            snapshot.rows.deep_view(),
        ),
        snapshot.family_health.ipv6 is Fresh && !(snapshot.family_health.ipv4 is Fresh)
            ==> route_changes::after_routes(model, snapshot) == route_changes::route_step(
            model,
            IpFamily::Ipv6,
            true,
            snapshot.rows.deep_view(),
        ),
{
}

/// The same for rules and neighbours.
pub proof fn one_complete_family_of_rules_and_neighbours_is_counted(
    model: ChangeModel,
    rules: InventorySnapshot<RuleRow<String>>,
    neighbours: InventorySnapshot<NeighbourRow<String>>,
)
    ensures
        rules.family_health.ipv4 is Fresh && !(rules.family_health.ipv6 is Fresh)
            ==> route_changes::after_rules(model, rules) == route_changes::rule_step(
            model,
            IpFamily::Ipv4,
            true,
            rules.rows.deep_view(),
        ),
        rules.family_health.ipv6 is Fresh && !(rules.family_health.ipv4 is Fresh)
            ==> route_changes::after_rules(model, rules) == route_changes::rule_step(
            model,
            IpFamily::Ipv6,
            true,
            rules.rows.deep_view(),
        ),
        neighbours.family_health.ipv4 is Fresh && !(neighbours.family_health.ipv6 is Fresh)
            ==> route_changes::after_neighbours(model, neighbours) == route_changes::neighbour_step(
            model,
            IpFamily::Ipv4,
            true,
            neighbours.rows.deep_view(),
        ),
        neighbours.family_health.ipv6 is Fresh && !(neighbours.family_health.ipv4 is Fresh)
            ==> route_changes::after_neighbours(model, neighbours) == route_changes::neighbour_step(
            model,
            IpFamily::Ipv6,
            true,
            neighbours.rows.deep_view(),
        ),
{
}

/// A table that was read is shown as it was read, in order, and as incomplete if rows were
/// left out. One that was not is shown as the last complete one, with the time since then, or
/// as failed if there was none; the reason is the one that was given.
pub proof fn tables_are_shown_as_read<T: Ordered>(
    last: LastComplete<T::V>,
    attempted_at: Nanos,
    result: Result<Dump<T>, CollectError>,
)
    ensures
        ({
            let shown = network_route::family_of(last, attempted_at, result);
            match result {
                Ok(dump) => {
                    &&& shown.completed
                    &&& shown.observed_rows == dump.observed_rows
                    &&& shown.truncated == dump.truncated
                    &&& shown.rows.to_multiset() == dump.rows.deep_view().to_multiset()
                    &&& seqs::sorted(shown.rows, ordering::key_order::<T>())
                    &&& !dump.truncated ==> shown.health is Fresh
                    &&& dump.truncated ==> (shown.health matches ProviderHealth::Partial { warning }
                        && warning == network_route::inventory_error(
                        MonitorErrorCode::OutputLimit,
                        "retention limit reached; family table is incomplete"@,
                    ))
                },
                Err(error) => {
                    &&& !shown.completed && !shown.truncated && shown.observed_rows == 0
                    &&& last matches Some((at, rows)) ==> shown.rows == rows && (shown.health
                        matches ProviderHealth::Stale { last_success_at, age, cause }
                        && last_success_at == at && (at <= attempted_at ==> at + age
                        == attempted_at) && cause.code == network_route::error_code(error.kind))
                    &&& last is None ==> shown.rows.len() == 0 && (shown.health matches
                        ProviderHealth::Error { error: cause } && cause.code
                        == network_route::error_code(error.kind))
                },
            }
        }),
{
    if let Ok(dump) = result {
        let rows = dump.rows.deep_view();
        ordering::first_rows_come_first::<T>(rows, rows.len() as int);
        assert(ordering::first_in_order::<T>(rows, rows.len() as int) == ordering::in_order::<T>(
            rows,
        ));
    }
}

/// A complete table is what a later one that fails is shown as.
pub proof fn complete_tables_are_kept<T: Ordered>(
    last: LastComplete<T::V>,
    first_at: Nanos,
    second_at: Nanos,
    dump: Dump<T>,
    error: CollectError,
)
    requires
        !dump.truncated,
        first_at <= second_at,
    ensures
        ({
            let kept = network_route::last_after(last, first_at, Ok::<Dump<T>, CollectError>(dump));
            let shown = network_route::family_of(
                kept,
                second_at,
                Err::<Dump<T>, CollectError>(error),
            );
            &&& shown.rows == network_route::family_of(
                last,
                first_at,
                Ok::<Dump<T>, CollectError>(dump),
            ).rows
            &&& shown.health matches ProviderHealth::Stale { last_success_at, age, .. }
                && last_success_at == first_at && first_at + age == second_at
        }),
{
}

/// Failures keep their kind.
pub proof fn table_failures_keep_their_kind()
    ensures
        network_route::error_code(CollectErrorKind::InvalidRequest) == MonitorErrorCode::Parse,
        network_route::error_code(CollectErrorKind::Parse) == MonitorErrorCode::Parse,
        network_route::error_code(CollectErrorKind::PermissionDenied)
            == MonitorErrorCode::PermissionDenied,
        network_route::error_code(CollectErrorKind::Unsupported) == MonitorErrorCode::Unsupported,
        network_route::error_code(CollectErrorKind::NotFound) == MonitorErrorCode::NotFound,
        network_route::error_code(CollectErrorKind::Timeout) == MonitorErrorCode::Timeout,
        network_route::error_code(CollectErrorKind::OutputLimit) == MonitorErrorCode::OutputLimit,
        network_route::error_code(CollectErrorKind::Io) == MonitorErrorCode::Io,
        network_route::error_code(CollectErrorKind::Loss) == MonitorErrorCode::Io,
        network_route::error_code(CollectErrorKind::Interrupted) == MonitorErrorCode::Io,
{
}

/// An inventory is what its two families are: as healthy as both, with the rows of both in
/// order, and with what both observed.
pub proof fn inventories_are_both_families<T: Ordered>(
    snapshot: InventorySnapshot<T>,
    ipv4: FamilyModel<T::V>,
    ipv6: FamilyModel<T::V>,
    attempt: FamilyAttempt<T>,
)
    requires
        network_route::is_inventory(snapshot, ipv4, ipv6, attempt),
    ensures
        snapshot.rows.deep_view().to_multiset() == (ipv4.rows + ipv6.rows).to_multiset(),
        seqs::sorted(snapshot.rows.deep_view(), ordering::key_order::<T>()),
        snapshot.completed_queries + snapshot.failed_queries == 2,
        snapshot.completed_queries == 2 <==> ipv4.completed && ipv6.completed,
        snapshot.completed_queries == 0 <==> !ipv4.completed && !ipv6.completed,
        snapshot.truncated <==> ipv4.truncated || ipv6.truncated,
        ipv4.observed_rows + ipv6.observed_rows <= usize::MAX ==> snapshot.observed_rows
            == ipv4.observed_rows + ipv6.observed_rows,
        snapshot.attempted_at == attempt.attempted_at,
        snapshot.collection_duration == attempt.collection_duration,
        snapshot.family_health.ipv4.deep_view() == ipv4.health,
        snapshot.family_health.ipv6.deep_view() == ipv6.health,
        snapshot.health.deep_view() == network_route::combined_health(ipv4.health, ipv6.health),
{
    let rows = ipv4.rows + ipv6.rows;
    ordering::first_rows_come_first::<T>(rows, rows.len() as int);
    assert(ordering::first_in_order::<T>(rows, rows.len() as int) == ordering::in_order::<T>(rows));
}

/// Two families are fresh together only if both are, stale together since the older success,
/// failed together only if both are, and else partial.
pub proof fn two_families_have_one_health(
    ipv4: ProviderHealth<Seq<char>>,
    ipv6: ProviderHealth<Seq<char>>,
)
    ensures
        ({
            let both = network_route::combined_health(ipv4, ipv6);
            &&& both is Fresh <==> ipv4 is Fresh && ipv6 is Fresh
            &&& both is Stale <==> ipv4 is Stale && ipv6 is Stale
            &&& both is Error <==> ipv4 is Error && ipv6 is Error
            &&& both is Fresh || both is Stale || both is Error || both is Partial
            &&& both matches ProviderHealth::Stale { last_success_at, age, .. } ==> (ipv4 matches
                ProviderHealth::Stale { last_success_at: a, age: x, .. } && ipv6 matches
                ProviderHealth::Stale { last_success_at: b, age: y, .. } && last_success_at <= a
                && last_success_at <= b && (last_success_at == a || last_success_at == b) && age
                >= x && age >= y && (age == x || age == y))
            &&& diagnostics::health_error(both) matches Some(error) ==> {
                &&& diagnostics::health_error(ipv4) matches Some(first) ==> error.code == first.code
                &&& diagnostics::health_error(ipv4) is None && (diagnostics::health_error(
                    ipv6,
                ) matches Some(second)) ==> error.code == (diagnostics::health_error(
                    ipv6,
                )->0).code
            }
        }),
{
}

/// Routes come by family, destination, source, service, table, priority, protocol, scope,
/// type and flags, the lower one first; a route without a priority comes before one with it.
pub proof fn routes_come_in_order(a: RouteModel, b: RouteModel)
    ensures
        ({
            let first = ordering::key_order::<RouteRow>()(a, b);
            &&& a.family == IpFamily::Ipv4 && b.family == IpFamily::Ipv6 ==> first
            &&& a.family == b.family && a.destination.address.rank()
                == b.destination.address.rank() ==> {
                &&& a.destination.address.number() < b.destination.address.number() ==> first
                &&& a.destination.address == b.destination.address ==> {
                    &&& a.destination.prefix_len < b.destination.prefix_len ==> first
                    &&& a.destination == b.destination && a.source == b.source ==> {
                        &&& a.tos < b.tos ==> first
                        &&& a.tos == b.tos && a.table < b.table ==> first
                        &&& a.tos == b.tos && a.table == b.table ==> {
                            &&& a.priority is None && b.priority is Some ==> first
                            &&& (a.priority matches Some(x) && b.priority matches Some(y) && x < y)
                                ==> first
                            &&& a.priority == b.priority ==> {
                                &&& a.protocol < b.protocol ==> first
                                &&& a.protocol == b.protocol && a.scope < b.scope ==> first
                            }
                        }
                    }
                }
            }
        }),
{
    reveal_with_fuel(seqs::lex_before, 15);
    let x = RouteRow::key(a);
    let y = RouteRow::key(b);
    assert(x.len() == 14 && y.len() == 14);
}

/// Neighbours come by family, address and interface.
pub proof fn neighbours_come_in_order(a: NeighbourRow<Seq<char>>, b: NeighbourRow<Seq<char>>)
    ensures
        ({
            let first = ordering::key_order::<NeighbourRow<String>>()(a, b);
            &&& a.family == IpFamily::Ipv4 && b.family == IpFamily::Ipv6 ==> first
            &&& a.family == b.family && a.address.rank() == b.address.rank() ==> {
                &&& a.address.number() < b.address.number() ==> first
                &&& a.address == b.address && a.ifindex < b.ifindex ==> first
            }
        }),
{
    reveal_with_fuel(seqs::lex_before, 5);
    let x = NeighbourRow::<String>::key(a);
    let y = NeighbourRow::<String>::key(b);
    assert(x.len() == 4 && y.len() == 4);
}

/// Rules come by family, destination, source, service, table, action, flags and priority.
pub proof fn rules_come_in_order(a: RuleRow<Seq<char>>, b: RuleRow<Seq<char>>)
    ensures
        ({
            let first = ordering::key_order::<RuleRow<String>>()(a, b);
            let x = a.selector;
            let y = b.selector;
            &&& x.family == IpFamily::Ipv4 && y.family == IpFamily::Ipv6 ==> first
            &&& x.family == y.family && x.destination == y.destination && x.source == y.source
                && x.tos == y.tos ==> {
                &&& x.table < y.table ==> first
                &&& x.table == y.table && x.action < y.action ==> first
                &&& x.table == y.table && x.action == y.action && x.flags == y.flags ==> {
                    &&& x.priority is None && y.priority is Some ==> first
                    &&& (
                        x.priority matches Some(p) && y.priority matches Some(q) && p < q
                    ) ==> first
                }
            }
        }),
{
    reveal_with_fuel(seqs::lex_before, 13);
    let x = RuleRow::<String>::key(a);
    let y = RuleRow::<String>::key(b);
    assert(x.len() == 12 && y.len() == 12);
}

/// Each option of a lookup sets what it is named for, once, and leaves the rest.
pub proof fn lookup_options_set_what_they_name(query: QueryModel, value: Seq<char>)
    ensures
        ({
            let twice = Err::<QueryModel, Seq<char>>(
                "route lookup option was specified more than once"@,
            );
            let wrong = Err::<QueryModel, Seq<char>>("route lookup numeric option is invalid"@);
            let from = route_lookup::with_option(query, "from"@, value);
            let iif = route_lookup::with_option(query, "iif"@, value);
            let oif = route_lookup::with_option(query, "oif"@, value);
            let mark = route_lookup::with_option(query, "mark"@, value);
            let uid = route_lookup::with_option(query, "uid"@, value);
            let tos = route_lookup::with_option(query, "tos"@, value);
            &&& query.source is Some ==> from == twice
            &&& query.source is None ==> match addresses::address_in(value) {
                Some(address) => from == Ok::<QueryModel, Seq<char>>(
                    QueryModel { source: Some(address), ..query },
                ),
                None => from == Err::<QueryModel, Seq<char>>(
                    "source must be an IPv4 or IPv6 address"@,
                ),
            }
            &&& query.input_interface is Some ==> iif == twice
            &&& query.input_interface is None ==> iif == (if route_lookup::is_interface_name(
                value,
            ) {
                Ok::<QueryModel, Seq<char>>(QueryModel { input_interface: Some(value), ..query })
            } else {
                Err("iif is not a valid Linux interface name"@)
            })
            &&& query.output_interface is Some ==> oif == twice
            &&& query.output_interface is None ==> oif == (if route_lookup::is_interface_name(
                value,
            ) {
                Ok::<QueryModel, Seq<char>>(QueryModel { output_interface: Some(value), ..query })
            } else {
                Err("oif is not a valid Linux interface name"@)
            })
            &&& query.mark is Some ==> mark == twice
            &&& query.mark is None ==> match route_lookup::option_number(value) {
                Some(number) => mark == Ok::<QueryModel, Seq<char>>(
                    QueryModel { mark: Some(number), ..query },
                ),
                None => mark == wrong,
            }
            &&& query.uid is Some ==> uid == twice
            &&& query.uid is None ==> match route_lookup::option_number(value) {
                Some(number) => uid == Ok::<QueryModel, Seq<char>>(
                    QueryModel { uid: Some(number), ..query },
                ),
                None => uid == wrong,
            }
            &&& query.tos is Some ==> tos == twice
            &&& query.tos is None ==> match route_lookup::option_number(value) {
                Some(number) => if number <= 255 {
                    tos == Ok::<QueryModel, Seq<char>>(
                        QueryModel { tos: Some(number as u8), ..query },
                    )
                } else {
                    tos == Err::<QueryModel, Seq<char>>("tos must be between 0 and 255"@)
                },
                None => tos == wrong,
            }
        }),
{
    reveal(route_lookup::with_option);
    reveal_strlit("from");
    reveal_strlit("iif");
    reveal_strlit("oif");
    reveal_strlit("mark");
    reveal_strlit("uid");
    reveal_strlit("tos");
    assert("from"@[0] == 'f' && "iif"@[0] == 'i' && "oif"@[0] == 'o');
    assert("mark"@[0] == 'm' && "uid"@[0] == 'u' && "tos"@[0] == 't');
}

/// A keyword that is none of these is refused.
pub proof fn unknown_lookup_options_are_refused(
    query: QueryModel,
    keyword: Seq<char>,
    value: Seq<char>,
)
    requires
        keyword != "from"@,
        keyword != "iif"@,
        keyword != "oif"@,
        keyword != "mark"@,
        keyword != "uid"@,
        keyword != "tos"@,
    ensures
        route_lookup::with_option(query, keyword, value) == Err::<QueryModel, Seq<char>>(
            "unknown route lookup option"@,
        ),
{
    reveal(route_lookup::with_option);
}

/// A query that is accepted asks about the address that was typed first, and says what was
/// typed.
pub proof fn accepted_queries_ask_about_the_first_word(typed: Seq<char>)
    ensures
        route_lookup::query_in(typed) matches Ok(query) ==> {
            let input = text::trimmed(typed);
            &&& query.input == input
            &&& input.len() <= 256
            &&& text::words(input).len() % 2 == 1
            &&& addresses::address_in(text::words(input)[0]) == Some(query.destination)
        },
        text::trimmed(typed).len() == 0 ==> route_lookup::query_in(typed) == Err::<
            QueryModel,
            Seq<char>,
        >("enter a destination IP address"@),
        text::trimmed(typed).len() > 256 ==> route_lookup::query_in(typed) is Err,
{
    assert(route_lookup::MAX_LOOKUP_INPUT_BYTES == 256);
    let input = text::trimmed(typed);
    let fields = text::words(input);
    if route_lookup::query_in(typed) is Ok {
        let start = QueryModel {
            input,
            destination: addresses::address_in(fields[0])->0,
            source: None,
            input_interface: None,
            output_interface: None,
            mark: None,
            uid: None,
            tos: None,
        };
        lemma_options_keep(start, fields, (fields.len() - 1) / 2);
    }
}

proof fn lemma_options_keep(start: QueryModel, fields: Seq<Seq<char>>, n: int)
    ensures
        route_lookup::options_upto(start, fields, n) matches Ok(query) ==> query.input
            == start.input && query.destination == start.destination,
    decreases n,
{
    reveal(route_lookup::with_option);
    if n > 0 {
        lemma_options_keep(start, fields, n - 1);
    }
}

/// What is asked of the kernel is what the query says; an interface that does not exist is
/// refused by its name.
pub proof fn requests_ask_what_the_query_says(query: QueryModel, input: u32, output: u32)
    ensures
        match route_lookup::request_of(query, input, output) {
            Ok(request) => {
                &&& request.destination == query.destination
                &&& request.source == query.source
                &&& request.mark == query.mark
                &&& request.uid == query.uid
                &&& request.tos == query.tos
                &&& request.input_ifindex == (if query.input_interface is Some {
                    Some(input)
                } else {
                    None
                })
                &&& request.output_ifindex == (if query.output_interface is Some {
                    Some(output)
                } else {
                    None
                })
                &&& query.input_interface is Some ==> input != 0
                &&& query.output_interface is Some ==> output != 0
            },
            Err(message) => {
                ||| (query.input_interface matches Some(name) && input == 0 && message
                    == "interface "@ + name + " does not exist in this network namespace"@)
                ||| (query.output_interface matches Some(name) && output == 0 && message
                    == "interface "@ + name + " does not exist in this network namespace"@)
            },
        },
{
}

/// Interfaces have names of one to fifteen characters without blanks, slashes and colons.
pub proof fn interface_names_are_short_and_plain(name: Seq<char>, i: int)
    requires
        route_lookup::is_interface_name(name),
        0 <= i < name.len(),
    ensures
        1 <= name.len() <= 15,
        name[i] != '/' && name[i] != ':' && name[i] != ' ' && name[i] != '\t',
        name != seq!['.'],
        name != seq!['.', '.'],
{
    reveal_strlit(".");
    reveal_strlit("..");
    assert(route_lookup::is_name_char(name[i]));
    assert("."@ =~= seq!['.']);
    assert(".."@ =~= seq!['.', '.']);
}

/// Times add up where they fit.
pub proof fn times_add_up(a: Nanos, b: Nanos)
    requires
        a + b <= Nanos::MAX,
    ensures
        route_changes::time_sum(a, b) == a + b,
{
}

/// Whether two addresses are of one family.
pub open spec fn of_one_family(a: IpAddress, b: IpAddress) -> bool {
    (a is V4) == (b is V4)
}

/// A query whose addresses are of different families is refused.
pub proof fn mixed_families_are_refused(query: QueryModel)
    requires
        query.source matches Some(source) && !of_one_family(source, query.destination),
    ensures
        route_lookup::one_family(query) == Err::<QueryModel, Seq<char>>(
            "source and destination address families must match"@,
        ),
{
}

/// A snapshot changes routes by its routes, rules by its rules, and neighbours by its
/// neighbours; each is told apart from the others.
pub proof fn snapshots_change_each_table_by_itself(
    model: ChangeModel,
    snapshot: NetworkRouteSnapshot,
)
    ensures
        ({
            let after = route_changes::changes_after(model, snapshot);
            let routes = route_changes::after_routes(model, snapshot.routes);
            let rules = route_changes::after_rules(model, snapshot.rules);
            let neighbours = route_changes::after_neighbours(model, snapshot.neighbours);
            &&& after.routes == routes.routes
            &&& after.rules == rules.rules
            &&& after.neighbours == neighbours.neighbours
            &&& after.totals.route_additions == routes.totals.route_additions
            &&& after.totals.route_removals == routes.totals.route_removals
            &&& after.totals.rule_additions == rules.totals.rule_additions
            &&& after.totals.rule_removals == rules.totals.rule_removals
            &&& after.totals.neighbour_additions == neighbours.totals.neighbour_additions
            &&& after.totals.neighbour_removals == neighbours.totals.neighbour_removals
            &&& after.totals.neighbour_updates == neighbours.totals.neighbour_updates
            &&& after.totals.neighbour_state_changes == neighbours.totals.neighbour_state_changes
            &&& after.totals.neighbour_failed_transitions
                == neighbours.totals.neighbour_failed_transitions
        }),
{
}

/// An interface is looked up by its name; one that is not there is refused by name, and no
/// interface is asked for if none was named.
pub proof fn named_interfaces_are_looked_up(name: Seq<char>, ifindex: u32)
    ensures
        route_lookup::resolved(None, ifindex) == Ok::<Option<u32>, Seq<char>>(None),
        ifindex > 0 ==> route_lookup::resolved(Some(name), ifindex) == Ok::<
            Option<u32>,
            Seq<char>,
        >(Some(ifindex)),
        ifindex == 0 ==> (route_lookup::resolved(Some(name), ifindex) matches Err(message)
            && message == "interface "@ + name + " does not exist in this network namespace"@),
{
}

/// IPv4 comes before IPv6, and what is not known before any number.
pub proof fn families_and_numbers_come_in_order(a: u32, b: u32)
    ensures
        network_route::family_rank(IpFamily::Ipv4) < network_route::family_rank(IpFamily::Ipv6),
        network_route::optional_rank(None) < network_route::optional_rank(Some(a)),
        network_route::optional_rank(Some(a)) < network_route::optional_rank(Some(b)) <==> a < b,
{
}

/// Two families that are not both well are told one after the other, each with how it is and
/// why.
pub proof fn two_families_are_told_together(
    ipv4: ProviderHealth<Seq<char>>,
    ipv6: ProviderHealth<Seq<char>>,
)
    ensures
        diagnostics::health_error(network_route::combined_health(ipv4, ipv6)) matches Some(error)
            ==> {
            let told = "IPv4 "@ + network_route::health_text(ipv4) + "; IPv6 "@
                + network_route::health_text(ipv6);
            diagnostics::shown_text(told).len() > 0 ==> error.diagnostic == diagnostics::shown_text(
                told,
            )
        },
        ipv4 is Fresh ==> network_route::health_text(ipv4) == "fresh"@,
        ipv4 matches ProviderHealth::Error { error } ==> network_route::health_text(ipv4)
            == "error"@ + " ("@ + error.diagnostic + ")"@,
        ipv4 matches ProviderHealth::Stale { last_success_at: _, age: _, cause }
            ==> network_route::health_text(ipv4) == "stale"@ + " ("@ + cause.diagnostic + ")"@,
{
}

/// What is said of a failure is what can be printed of it; if nothing can, that is said.
pub proof fn failures_of_tables_are_told(code: MonitorErrorCode, words: Seq<char>)
    ensures
        network_route::inventory_error(code, words).code == code,
        diagnostics::shown_text(words).len() > 0 ==> network_route::inventory_error(
            code,
            words,
        ).diagnostic == diagnostics::shown_text(words),
        diagnostics::shown_text(words).len() == 0 ==> network_route::inventory_error(
            code,
            words,
        ).diagnostic == "network route inventory failed"@,
{
}

/// A lookup that cannot be understood is refused: one that is empty, one that is too long or
/// not plain, one whose first word is no address, and one whose last option has no value.
pub proof fn lookups_are_refused_for_a_reason(typed: Seq<char>)
    ensures
        ({
            let input = text::trimmed(typed);
            let words = text::words(input);
            let plain = input.len() <= 256 && forall|i: int|
                0 <= i < input.len() ==> (#[trigger] input[i]) <= '\x7f';
            let refused = |message: Seq<char>|
                route_lookup::query_in(typed) == Err::<QueryModel, Seq<char>>(message);
            &&& input.len() == 0 ==> refused("enter a destination IP address"@)
            &&& input.len() > 0 && !plain ==> refused(
                "route lookup input is too long or contains non-ASCII text"@,
            )
            &&& input.len() > 0 && plain && (words.len() == 0 || addresses::address_in(words[0])
                is None) ==> refused("destination must be an IPv4 or IPv6 address"@)
            &&& route_lookup::query_in(typed) is Ok ==> input.len() > 0 && plain && words.len() % 2
                == 1
        }),
{
}

} // verus!
