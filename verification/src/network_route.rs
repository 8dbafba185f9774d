//! Routes, rules and neighbours: what the tables of the two address families hold
//! together, and how they change.
use crate::addresses::IpAddress;
use crate::diagnostics;
use crate::diagnostics::printable_text;
use crate::model::{MonitorError, MonitorErrorCode, Nanos, ProviderHealth};
use crate::ordering;
use crate::ordering::{first_rows, Ordered};
use crate::rows::RowIdentity;
use crate::series;
use crate::text;
use crate::text::{copy_option, owned, same_option};
use vstd::prelude::*;
use vstd::string::*;

verus! {

/// The bit of a neighbour's state that says that it could not be reached.
pub const NUD_FAILED: u16 = 0x20;

/// The flags of a next hop that are configured; the others follow the state of the
/// link.
pub const CONFIGURED_FLAGS: u8 = 0x86;

#[derive(Clone, Copy, Debug, PartialEq, Eq, Structural)]
pub enum IpFamily {
    Ipv4,
    Ipv6,
}

pub open spec fn family_rank(family: IpFamily) -> int {
    match family {
        IpFamily::Ipv4 => 0,
        IpFamily::Ipv6 => 1,
    }
}

fn family_number(family: IpFamily) -> (rank: u128)
    ensures
        rank == family_rank(family),
{
    match family {
        IpFamily::Ipv4 => 0,
        IpFamily::Ipv6 => 1,
    }
}

/// One value for each address family.
#[derive(Clone, Copy, Debug, PartialEq, Eq)]
pub struct Families<X> {
    pub ipv4: X,
    pub ipv6: X,
}

impl<X> Families<X> {
    pub open spec fn of(self, family: IpFamily) -> X {
        match family {
            IpFamily::Ipv4 => self.ipv4,
            IpFamily::Ipv6 => self.ipv6,
        }
    }

    pub open spec fn with(self, family: IpFamily, value: X) -> Families<X> {
        match family {
            IpFamily::Ipv4 => Families { ipv4: value, ipv6: self.ipv6 },
            IpFamily::Ipv6 => Families { ipv4: self.ipv4, ipv6: value },
        }
    }

    pub fn get(&self, family: IpFamily) -> (value: &X)
        ensures
            *value == self.of(family),
    {
        match family {
            IpFamily::Ipv4 => &self.ipv4,
            IpFamily::Ipv6 => &self.ipv6,
        }
    }
}

#[derive(Clone, Copy, PartialEq, Eq, Structural)]
pub struct IpPrefix {
    pub address: IpAddress,
    pub prefix_len: u8,
}

/// Where a route goes next.
#[derive(Clone, PartialEq, Eq)]
pub struct RouteNexthop<T> {
    pub ifindex: Option<u32>,
    pub interface: Option<T>,
    pub gateway: Option<IpAddress>,
    pub via: Option<IpAddress>,
    pub weight: u16,
    pub flags: u8,
}

impl DeepView for RouteNexthop<String> {
    type V = RouteNexthop<Seq<char>>;

    open spec fn deep_view(&self) -> RouteNexthop<Seq<char>> {
        RouteNexthop {
            ifindex: self.ifindex,
            interface: text::optional_text(self.interface),
            gateway: self.gateway,
            via: self.via,
            weight: self.weight,
            flags: self.flags,
        }
    }
}

#[derive(Clone, Copy, Debug, Default, PartialEq, Eq, Structural)]
pub struct RouteMetrics {
    pub mtu: Option<u32>,
    pub window: Option<u32>,
    pub rtt: Option<u32>,
    pub advertised_mss: Option<u32>,
    pub hop_limit: Option<u32>,
    pub initial_window: Option<u32>,
}

#[derive(Clone, Copy, Debug, PartialEq, Eq, Structural)]
pub struct RouteCacheInfo {
    pub client_references: u32,
    pub last_use: Nanos,
    pub expires: Option<Nanos>,
    pub error: u32,
    pub used: u32,
    pub id: u32,
    pub timestamp_ticks: u32,
    pub timestamp_age: Nanos,
}

/// A route.
#[derive(Clone, PartialEq, Eq)]
pub struct RouteRow {
    pub family: IpFamily,
    pub destination: IpPrefix,
    pub source: IpPrefix,
    pub tos: u8,
    pub table: u32,
    pub priority: Option<u32>,
    pub protocol: u8,
    pub scope: u8,
    pub route_type: u8,
    pub flags: u32,
    pub preferred_source: Option<IpAddress>,
    pub nexthops: Vec<RouteNexthop<String>>,
    pub nexthops_truncated: bool,
    pub metrics: RouteMetrics,
    pub cache: Option<RouteCacheInfo>,
    pub expires: Option<Nanos>,
    pub unsupported_encapsulation: bool,
}

/// A route as contracts speak of it.
pub struct RouteModel {
    pub family: IpFamily,
    pub destination: IpPrefix,
    pub source: IpPrefix,
    pub tos: u8,
    pub table: u32,
    pub priority: Option<u32>,
    pub protocol: u8,
    pub scope: u8,
    pub route_type: u8,
    pub flags: u32,
    pub preferred_source: Option<IpAddress>,
    pub nexthops: Seq<RouteNexthop<Seq<char>>>,
    pub nexthops_truncated: bool,
    pub metrics: RouteMetrics,
    pub cache: Option<RouteCacheInfo>,
    pub expires: Option<Nanos>,
    pub unsupported_encapsulation: bool,
}

impl DeepView for RouteRow {
    type V = RouteModel;

    open spec fn deep_view(&self) -> RouteModel {
        RouteModel {
            family: self.family,
            destination: self.destination,
            source: self.source,
            tos: self.tos,
            table: self.table,
            priority: self.priority,
            protocol: self.protocol,
            scope: self.scope,
            route_type: self.route_type,
            flags: self.flags,
            preferred_source: self.preferred_source,
            nexthops: self.nexthops.deep_view(),
            nexthops_truncated: self.nexthops_truncated,
            metrics: self.metrics,
            cache: self.cache,
            expires: self.expires,
            unsupported_encapsulation: self.unsupported_encapsulation,
        }
    }
}

fn copy_nexthops(nexthops: &Vec<RouteNexthop<String>>) -> (copy: Vec<RouteNexthop<String>>)
    ensures
        copy.deep_view() == nexthops.deep_view(),
{
    let ghost all = nexthops.deep_view();
    assert(all.len() == nexthops@.len());
    let mut copy: Vec<RouteNexthop<String>> = Vec::new();
    for i in 0..nexthops.len()
        invariant
            all == nexthops.deep_view(),
            all.len() == nexthops@.len(),
            copy@.len() == i,
            forall|j: int| 0 <= j < i ==> (#[trigger] copy@[j]).deep_view() == all[j],
    {
        let nexthop = &nexthops[i];
        assert(all[i as int] == nexthops@[i as int].deep_view());
        copy.push(
            RouteNexthop {
                ifindex: nexthop.ifindex,
                interface: copy_option(&nexthop.interface),
                gateway: nexthop.gateway,
                via: nexthop.via,
                weight: nexthop.weight,
                flags: nexthop.flags,
            },
        );
    }
    assert(copy.deep_view() =~= all);
    copy
}

/// A number that may be missing, as rows are ordered by it: those without come first.
pub open spec fn optional_rank(value: Option<u32>) -> int {
    match value {
        Some(value) => value + 1,
        None => 0,
    }
}

fn optional_number(value: Option<u32>) -> (rank: u128)
    ensures
        rank == optional_rank(value),
{
    match value {
        Some(value) => value as u128 + 1,
        None => 0,
    }
}

impl Ordered for RouteRow {
    open spec fn key(row: RouteModel) -> Seq<int> {
        seq![
            family_rank(row.family),
            row.destination.address.rank(),
            row.destination.address.number(),
            row.destination.prefix_len as int,
            row.source.address.rank(),
            row.source.address.number(),
            row.source.prefix_len as int,
            row.tos as int,
            row.table as int,
            optional_rank(row.priority),
            row.protocol as int,
            row.scope as int,
            row.route_type as int,
            row.flags as int,
        ]
    }

    proof fn keys_have_one_length(a: RouteModel, b: RouteModel) {
    }

    fn sort_key(&self) -> (key: Vec<u128>) {
        let key: Vec<u128> = vec![
            family_number(self.family),
            self.destination.address.rank_of(),
            self.destination.address.number_of(),
            self.destination.prefix_len as u128,
            self.source.address.rank_of(),
            self.source.address.number_of(),
            self.source.prefix_len as u128,
            self.tos as u128,
            self.table as u128,
            optional_number(self.priority),
            self.protocol as u128,
            self.scope as u128,
            self.route_type as u128,
            self.flags as u128,
        ];
        assert(ordering::ints(key@) =~= Self::key(self.deep_view()));
        key
    }

    fn copied(&self) -> (row: RouteRow) {
        RouteRow {
            family: self.family,
            destination: self.destination,
            source: self.source,
            tos: self.tos,
            table: self.table,
            priority: self.priority,
            protocol: self.protocol,
            scope: self.scope,
            route_type: self.route_type,
            flags: self.flags,
            preferred_source: self.preferred_source,
            nexthops: copy_nexthops(&self.nexthops),
            nexthops_truncated: self.nexthops_truncated,
            metrics: self.metrics,
            cache: self.cache,
            expires: self.expires,
            unsupported_encapsulation: self.unsupported_encapsulation,
        }
    }
}

#[derive(Clone, Copy, Debug, PartialEq, Eq, Structural)]
pub struct UidRange {
    pub first: u32,
    pub last: u32,
}

/// The part of a rule that is no text.
#[derive(Clone, Copy, PartialEq, Eq, Structural)]
pub struct RuleSelector {
    pub family: IpFamily,
    pub destination: IpPrefix,
    pub source: IpPrefix,
    pub tos: u8,
    pub table: u32,
    pub action: u8,
    pub flags: u32,
    pub priority: Option<u32>,
    pub fwmark: Option<u32>,
    pub fwmask: Option<u32>,
    pub goto_priority: Option<u32>,
    pub suppress_prefix_len: Option<u32>,
    pub suppress_interface_group: Option<u32>,
    pub l3mdev: Option<u8>,
    pub uid_range: Option<UidRange>,
    pub tunnel_id: Option<u64>,
    pub flow: Option<u32>,
    pub protocol: Option<u8>,
}

/// A rule that says which table a packet is routed by.
#[derive(Clone, PartialEq, Eq)]
pub struct RuleRow<T> {
    pub selector: RuleSelector,
    pub input_interface: Option<T>,
    pub output_interface: Option<T>,
}

impl DeepView for RuleRow<String> {
    type V = RuleRow<Seq<char>>;

    open spec fn deep_view(&self) -> RuleRow<Seq<char>> {
        RuleRow {
            selector: self.selector,
            input_interface: text::optional_text(self.input_interface),
            output_interface: text::optional_text(self.output_interface),
        }
    }
}

impl Ordered for RuleRow<String> {
    open spec fn key(row: RuleRow<Seq<char>>) -> Seq<int> {
        seq![
            family_rank(row.selector.family),
            row.selector.destination.address.rank(),
            row.selector.destination.address.number(),
            row.selector.destination.prefix_len as int,
            row.selector.source.address.rank(),
            row.selector.source.address.number(),
            row.selector.source.prefix_len as int,
            row.selector.tos as int,
            row.selector.table as int,
            row.selector.action as int,
            row.selector.flags as int,
            optional_rank(row.selector.priority),
        ]
    }

    proof fn keys_have_one_length(a: RuleRow<Seq<char>>, b: RuleRow<Seq<char>>) {
    }

    fn sort_key(&self) -> (key: Vec<u128>) {
        let key: Vec<u128> = vec![
            family_number(self.selector.family),
            self.selector.destination.address.rank_of(),
            self.selector.destination.address.number_of(),
            self.selector.destination.prefix_len as u128,
            self.selector.source.address.rank_of(),
            self.selector.source.address.number_of(),
            self.selector.source.prefix_len as u128,
            self.selector.tos as u128,
            self.selector.table as u128,
            self.selector.action as u128,
            self.selector.flags as u128,
            optional_number(self.selector.priority),
        ];
        assert(ordering::ints(key@) =~= Self::key(self.deep_view()));
        key
    }

    fn copied(&self) -> (row: RuleRow<String>) {
        RuleRow {
            selector: self.selector,
            input_interface: copy_option(&self.input_interface),
            output_interface: copy_option(&self.output_interface),
        }
    }
}

impl RowIdentity for RuleRow<String> {
    fn same(&self, other: &RuleRow<String>) -> (same: bool) {
        self.selector == other.selector && same_option(
            &self.input_interface,
            &other.input_interface,
        ) && same_option(&self.output_interface, &other.output_interface)
    }
}

#[derive(Clone, Copy, Debug, PartialEq, Eq, Structural)]
pub struct NeighbourCacheInfo {
    pub confirmed_age: Nanos,
    pub used_age: Nanos,
    pub updated_age: Nanos,
    pub references: u32,
}

/// A neighbour on a link.
#[derive(Clone, PartialEq, Eq)]
pub struct NeighbourRow<T> {
    pub family: IpFamily,
    pub address: IpAddress,
    pub ifindex: u32,
    pub interface: Option<T>,
    pub link_address: Option<T>,
    pub state: u16,
    pub flags: u32,
    pub neighbour_type: u8,
    pub probes: Option<u32>,
    pub cache: Option<NeighbourCacheInfo>,
}

impl DeepView for NeighbourRow<String> {
    type V = NeighbourRow<Seq<char>>;

    open spec fn deep_view(&self) -> NeighbourRow<Seq<char>> {
        NeighbourRow {
            family: self.family,
            address: self.address,
            ifindex: self.ifindex,
            interface: text::optional_text(self.interface),
            link_address: text::optional_text(self.link_address),
            state: self.state,
            flags: self.flags,
            neighbour_type: self.neighbour_type,
            probes: self.probes,
            cache: self.cache,
        }
    }
}

impl Ordered for NeighbourRow<String> {
    open spec fn key(row: NeighbourRow<Seq<char>>) -> Seq<int> {
        seq![
            family_rank(row.family),
            row.address.rank(),
            row.address.number(),
            row.ifindex as int,
        ]
    }

    proof fn keys_have_one_length(a: NeighbourRow<Seq<char>>, b: NeighbourRow<Seq<char>>) {
    }

    fn sort_key(&self) -> (key: Vec<u128>) {
        let key: Vec<u128> = vec![
            family_number(self.family),
            self.address.rank_of(),
            self.address.number_of(),
            self.ifindex as u128,
        ];
        assert(ordering::ints(key@) =~= Self::key(self.deep_view()));
        key
    }

    fn copied(&self) -> (row: NeighbourRow<String>) {
        NeighbourRow {
            family: self.family,
            address: self.address,
            ifindex: self.ifindex,
            interface: copy_option(&self.interface),
            link_address: copy_option(&self.link_address),
            state: self.state,
            flags: self.flags,
            neighbour_type: self.neighbour_type,
            probes: self.probes,
            cache: self.cache,
        }
    }
}

/// Why a table could not be read.
#[derive(Clone, Copy, Debug, PartialEq, Eq, Structural)]
pub enum CollectErrorKind {
    InvalidRequest,
    Parse,
    PermissionDenied,
    Unsupported,
    NotFound,
    Timeout,
    OutputLimit,
    Io,
    Loss,
    Interrupted,
}

pub struct CollectError {
    pub kind: CollectErrorKind,
    pub message: String,
}

/// The rows of one table of one family.
pub struct Dump<T> {
    pub rows: Vec<T>,
    pub observed_rows: usize,
    pub truncated: bool,
}

/// What reading one table of both families came to.
pub struct FamilyAttempt<T> {
    pub attempted_at: Nanos,
    pub collection_duration: Nanos,
    pub ipv4: Result<Dump<T>, CollectError>,
    pub ipv6: Result<Dump<T>, CollectError>,
}

pub open spec fn error_code(kind: CollectErrorKind) -> MonitorErrorCode {
    match kind {
        CollectErrorKind::InvalidRequest | CollectErrorKind::Parse => MonitorErrorCode::Parse,
        CollectErrorKind::PermissionDenied => MonitorErrorCode::PermissionDenied,
        CollectErrorKind::Unsupported => MonitorErrorCode::Unsupported,
        CollectErrorKind::NotFound => MonitorErrorCode::NotFound,
        CollectErrorKind::Timeout => MonitorErrorCode::Timeout,
        CollectErrorKind::OutputLimit => MonitorErrorCode::OutputLimit,
        CollectErrorKind::Io | CollectErrorKind::Loss | CollectErrorKind::Interrupted =>
            MonitorErrorCode::Io,
    }
}

pub fn monitor_error_code(kind: CollectErrorKind) -> (code: MonitorErrorCode)
    ensures
        code == error_code(kind),
{
    match kind {
        CollectErrorKind::InvalidRequest | CollectErrorKind::Parse => MonitorErrorCode::Parse,
        CollectErrorKind::PermissionDenied => MonitorErrorCode::PermissionDenied,
        CollectErrorKind::Unsupported => MonitorErrorCode::Unsupported,
        CollectErrorKind::NotFound => MonitorErrorCode::NotFound,
        CollectErrorKind::Timeout => MonitorErrorCode::Timeout,
        CollectErrorKind::OutputLimit => MonitorErrorCode::OutputLimit,
        CollectErrorKind::Io | CollectErrorKind::Loss | CollectErrorKind::Interrupted =>
            MonitorErrorCode::Io,
    }
}

/// An error with the printable part of a text; there are words for a text without.
pub open spec fn inventory_error(code: MonitorErrorCode, diagnostic: Seq<char>) -> MonitorError<
    Seq<char>,
> {
    MonitorError {
        code,
        diagnostic: if diagnostics::shown_text(diagnostic).len() == 0 {
            "network route inventory failed"@
        } else {
            diagnostics::shown_text(diagnostic)
        },
    }
}

fn monitor_error(code: MonitorErrorCode, diagnostic: &str) -> (error: MonitorError<String>)
    ensures
        error.deep_view() == inventory_error(code, diagnostic@),
{
    let shown = printable_text(diagnostic);
    if shown.as_str().unicode_len() == 0 {
        MonitorError { code, diagnostic: owned("network route inventory failed") }
    } else {
        MonitorError { code, diagnostic: shown }
    }
}

/// What a table of one family comes to.
pub ghost struct FamilyModel<M> {
    pub health: ProviderHealth<Seq<char>>,
    pub rows: Seq<M>,
    pub observed_rows: usize,
    pub completed: bool,
    pub truncated: bool,
}

/// The rows of the last complete table, and when it was read.
pub type LastComplete<M> = Option<(Nanos, Seq<M>)>;

/// What a table of one family comes to: one that could not be read is the last
/// complete one, if there is any. A table with rows left out is shown, but not kept.
pub open spec fn family_of<T: Ordered>(
    last: LastComplete<T::V>,
    attempted_at: Nanos,
    result: Result<Dump<T>, CollectError>,
) -> FamilyModel<T::V> {
    match result {
        Ok(dump) => FamilyModel {
            health: if dump.truncated {
                ProviderHealth::Partial {
                    warning: inventory_error(
                        MonitorErrorCode::OutputLimit,
                        "retention limit reached; family table is incomplete"@,
                    ),
                }
            } else {
                ProviderHealth::Fresh
            },
            rows: ordering::in_order::<T>(dump.rows.deep_view()),
            observed_rows: dump.observed_rows,
            completed: true,
            truncated: dump.truncated,
        },
        Err(error) => {
            let cause = inventory_error(error_code(error.kind), error.message@);
            FamilyModel {
                health: match last {
                    Some((at, rows)) => ProviderHealth::Stale {
                        last_success_at: at,
                        age: series::since(attempted_at, at),
                        cause,
                    },
                    None => ProviderHealth::Error { error: cause },
                },
                rows: match last {
                    Some((at, rows)) => rows,
                    None => Seq::empty(),
                },
                observed_rows: 0,
                completed: false,
                truncated: false,
            }
        },
    }
}

/// The last complete table after one more was read.
pub open spec fn last_after<T: Ordered>(
    last: LastComplete<T::V>,
    attempted_at: Nanos,
    result: Result<Dump<T>, CollectError>,
) -> LastComplete<T::V> {
    match result {
        Ok(dump) => if dump.truncated {
            last
        } else {
            Some((attempted_at, ordering::in_order::<T>(dump.rows.deep_view())))
        },
        Err(_) => last,
    }
}

struct FamilyProjection<T> {
    health: ProviderHealth<String>,
    rows: Vec<T>,
    observed_rows: usize,
    completed: bool,
    truncated: bool,
}

/// A table that was kept, as contracts speak of it.
pub open spec fn kept_table<T: Ordered>(last: Option<(Nanos, Vec<T>)>) -> LastComplete<T::V> {
    match last {
        Some((at, rows)) => Some((at, rows.deep_view())),
        None => None,
    }
}

fn copy_rows<T: Ordered>(rows: &Vec<T>) -> (copy: Vec<T>)
    ensures
        copy.deep_view() == rows.deep_view(),
{
    let ghost all = rows.deep_view();
    assert(all.len() == rows@.len());
    let mut copy: Vec<T> = Vec::new();
    for i in 0..rows.len()
        invariant
            all == rows.deep_view(),
            all.len() == rows@.len(),
            copy@.len() == i,
            forall|j: int| 0 <= j < i ==> (#[trigger] copy@[j]).deep_view() == all[j],
    {
        assert(all[i as int] == rows@[i as int].deep_view());
        copy.push(rows[i].copied());
    }
    assert(copy.deep_view() =~= all);
    copy
}

fn project_family<T: Ordered>(
    last: &mut Option<(Nanos, Vec<T>)>,
    attempted_at: Nanos,
    result: Result<Dump<T>, CollectError>,
) -> (family: FamilyProjection<T>)
    ensures
        ({
            let expected = family_of(kept_table(*old(last)), attempted_at, result);
            &&& family.health.deep_view() == expected.health
            &&& family.rows.deep_view() == expected.rows
            &&& family.observed_rows == expected.observed_rows
            &&& family.completed == expected.completed
            &&& family.truncated == expected.truncated
        }),
        kept_table(*final(last)) == last_after(kept_table(*old(last)), attempted_at, result),
{
    match result {
        Ok(dump) => {
            let rows = first_rows(&dump.rows, dump.rows.len());
            assert(dump.rows.deep_view().len() == dump.rows@.len());
            let health = if dump.truncated {
                ProviderHealth::Partial {
                    warning: monitor_error(
                        MonitorErrorCode::OutputLimit,
                        "retention limit reached; family table is incomplete",
                    ),
                }
            } else {
                *last = Some((attempted_at, copy_rows(&rows)));
                ProviderHealth::Fresh
            };
            FamilyProjection {
                health,
                rows,
                observed_rows: dump.observed_rows,
                completed: true,
                truncated: dump.truncated,
            }
        },
        Err(error) => {
            let cause = monitor_error(monitor_error_code(error.kind), error.message.as_str());
            match &*last {
                Some((at, rows)) => FamilyProjection {
                    health: ProviderHealth::Stale {
                        last_success_at: *at,
                        age: if attempted_at >= *at {
                            attempted_at - *at
                        } else {
                            0
                        },
                        cause,
                    },
                    rows: copy_rows(rows),
                    observed_rows: 0,
                    completed: false,
                    truncated: false,
                },
                None => {
                    let none: Vec<T> = Vec::new();
                    assert(none.deep_view() =~= Seq::<T::V>::empty());
                    FamilyProjection {
                        health: ProviderHealth::Error { error: cause },
                        rows: none,
                        observed_rows: 0,
                        completed: false,
                        truncated: false,
                    }
                },
            }
        },
    }
}

/// A health with what it says, in words.
pub open spec fn health_text(health: ProviderHealth<Seq<char>>) -> Seq<char> {
    match diagnostics::health_error(health) {
        Some(error) => health.word() + " ("@ + error.diagnostic + ")"@,
        None => health.word(),
    }
}

fn error_of(health: &ProviderHealth<String>) -> (error: Option<&MonitorError<String>>)
    ensures
        match error {
            Some(error) => diagnostics::health_error(health.deep_view()) == Some(
                error.deep_view(),
            ),
            None => diagnostics::health_error(health.deep_view()) is None,
        },
{
    match health {
        ProviderHealth::Fresh => None,
        ProviderHealth::Partial { warning } => Some(warning),
        ProviderHealth::Stale { cause, .. } => Some(cause),
        ProviderHealth::Unsupported { reason } => Some(reason),
        ProviderHealth::PermissionDenied { reason } => Some(reason),
        ProviderHealth::Error { error } => Some(error),
    }
}

fn health_diagnostic(health: &ProviderHealth<String>) -> (words: String)
    ensures
        words@ == health_text(health.deep_view()),
{
    let mut words = owned(health.as_str());
    if let Some(error) = error_of(health) {
        words.append(" (");
        words.append(error.diagnostic.as_str());
        words.append(")");
    }
    words
}

/// What the tables of both families say together of what went wrong.
pub open spec fn combined_error(
    ipv4: ProviderHealth<Seq<char>>,
    ipv6: ProviderHealth<Seq<char>>,
) -> MonitorError<Seq<char>> {
    let code = match (diagnostics::health_error(ipv4), diagnostics::health_error(ipv6)) {
        (Some(error), _) => error.code,
        (None, Some(error)) => error.code,
        (None, None) => MonitorErrorCode::Io,
    };
    inventory_error(code, "IPv4 "@ + health_text(ipv4) + "; IPv6 "@ + health_text(ipv6))
}

fn combined_family_error(ipv4: &ProviderHealth<String>, ipv6: &ProviderHealth<String>) -> (error:
    MonitorError<String>)
    ensures
        error.deep_view() == combined_error(ipv4.deep_view(), ipv6.deep_view()),
{
    let code: MonitorErrorCode = match error_of(ipv4) {
        Some(error) => error.code,
        None => match error_of(ipv6) {
            Some(error) => error.code,
            None => MonitorErrorCode::Io,
        },
    };
    let mut words = owned("IPv4 ");
    words.append(health_diagnostic(ipv4).as_str());
    words.append("; IPv6 ");
    words.append(health_diagnostic(ipv6).as_str());
    monitor_error(code, words.as_str())
}

/// The health of both families: it is only fresh, stale or failed where both are.
pub open spec fn combined_health(
    ipv4: ProviderHealth<Seq<char>>,
    ipv6: ProviderHealth<Seq<char>>,
) -> ProviderHealth<Seq<char>> {
    match (ipv4, ipv6) {
        (ProviderHealth::Fresh, ProviderHealth::Fresh) => ProviderHealth::Fresh,
        (
            ProviderHealth::Stale { last_success_at: a, age: x, .. },
            ProviderHealth::Stale { last_success_at: b, age: y, .. },
        ) => ProviderHealth::Stale {
            last_success_at: if a <= b {
                a
            } else {
                b
            },
            age: if x >= y {
                x
            } else {
                y
            },
            cause: combined_error(ipv4, ipv6),
        },
        (ProviderHealth::Error { .. }, ProviderHealth::Error { .. }) => ProviderHealth::Error {
            error: combined_error(ipv4, ipv6),
        },
        _ => ProviderHealth::Partial { warning: combined_error(ipv4, ipv6) },
    }
}

fn combined_family_health(ipv4: &ProviderHealth<String>, ipv6: &ProviderHealth<String>) -> (health:
    ProviderHealth<String>)
    ensures
        health.deep_view() == combined_health(ipv4.deep_view(), ipv6.deep_view()),
{
    match (ipv4, ipv6) {
        (ProviderHealth::Fresh, ProviderHealth::Fresh) => ProviderHealth::Fresh,
        (
            ProviderHealth::Stale { last_success_at: a, age: x, .. },
            ProviderHealth::Stale { last_success_at: b, age: y, .. },
        ) => ProviderHealth::Stale {
            last_success_at: if *a <= *b {
                *a
            } else {
                *b
            },
            age: if *x >= *y {
                *x
            } else {
                *y
            },
            cause: combined_family_error(ipv4, ipv6),
        },
        (ProviderHealth::Error { .. }, ProviderHealth::Error { .. }) => ProviderHealth::Error {
            error: combined_family_error(ipv4, ipv6),
        },
        _ => ProviderHealth::Partial { warning: combined_family_error(ipv4, ipv6) },
    }
}

/// One table of both families.
#[derive(Clone, PartialEq, Eq)]
pub struct InventorySnapshot<T> {
    pub health: ProviderHealth<String>,
    pub family_health: Families<ProviderHealth<String>>,
    pub attempted_at: Nanos,
    pub collection_duration: Nanos,
    pub completed_queries: u8,
    pub failed_queries: u8,
    pub observed_rows: usize,
    pub truncated: bool,
    pub rows: Vec<T>,
}

/// What is kept of one table.
pub struct InventoryProjector<T> {
    pub last_complete: Families<Option<(Nanos, Vec<T>)>>,
}

pub open spec fn count_of(completed: bool) -> int {
    if completed {
        1
    } else {
        0
    }
}

/// Whether a table of both families is what its two attempts come to.
pub open spec fn is_inventory<T: Ordered>(
    snapshot: InventorySnapshot<T>,
    ipv4: FamilyModel<T::V>,
    ipv6: FamilyModel<T::V>,
    attempt: FamilyAttempt<T>,
) -> bool {
    &&& snapshot.health.deep_view() == combined_health(ipv4.health, ipv6.health)
    &&& snapshot.family_health.ipv4.deep_view() == ipv4.health
    &&& snapshot.family_health.ipv6.deep_view() == ipv6.health
    &&& snapshot.attempted_at == attempt.attempted_at
    &&& snapshot.collection_duration == attempt.collection_duration
    &&& snapshot.completed_queries == count_of(ipv4.completed) + count_of(ipv6.completed)
    &&& snapshot.failed_queries == 2 - snapshot.completed_queries
    &&& snapshot.observed_rows == if ipv4.observed_rows + ipv6.observed_rows > usize::MAX {
        usize::MAX as int
    } else {
        ipv4.observed_rows + ipv6.observed_rows
    }
    &&& snapshot.truncated == (ipv4.truncated || ipv6.truncated)
    &&& snapshot.rows.deep_view() == ordering::in_order::<T>(ipv4.rows + ipv6.rows)
}

impl<T: Ordered> InventoryProjector<T> {
    pub fn new() -> (projector: InventoryProjector<T>)
        ensures
            projector.kept(IpFamily::Ipv4) is None,
            projector.kept(IpFamily::Ipv6) is None,
    {
        InventoryProjector { last_complete: Families { ipv4: None, ipv6: None } }
    }

    /// The last complete table of a family.
    pub open spec fn kept(&self, family: IpFamily) -> LastComplete<T::V> {
        kept_table(self.last_complete.of(family))
    }

    pub fn project(&mut self, attempt: FamilyAttempt<T>) -> (snapshot: InventorySnapshot<T>)
        ensures
            is_inventory(
                snapshot,
                family_of(old(self).kept(IpFamily::Ipv4), attempt.attempted_at, attempt.ipv4),
                family_of(old(self).kept(IpFamily::Ipv6), attempt.attempted_at, attempt.ipv6),
                attempt,
            ),
            final(self).kept(IpFamily::Ipv4) == last_after(
                old(self).kept(IpFamily::Ipv4),
                attempt.attempted_at,
                attempt.ipv4,
            ),
            final(self).kept(IpFamily::Ipv6) == last_after(
                old(self).kept(IpFamily::Ipv6),
                attempt.attempted_at,
                attempt.ipv6,
            ),
    {
        let ipv4 = project_family(
            &mut self.last_complete.ipv4,
            attempt.attempted_at,
            attempt.ipv4,
        );
        let ipv6 = project_family(
            &mut self.last_complete.ipv6,
            attempt.attempted_at,
            attempt.ipv6,
        );
        let completed: u8 = match (ipv4.completed, ipv6.completed) {
            (true, true) => 2,
            (false, false) => 0,
            _ => 1,
        };
        let ghost all = ipv4.rows.deep_view() + ipv6.rows.deep_view();
        let mut rows = copy_rows(&ipv4.rows);
        let more = copy_rows(&ipv6.rows);
        rows = joined(rows, more);
        assert(rows.deep_view() == all);
        assert(rows.deep_view().len() == rows@.len());
        let health = combined_family_health(&ipv4.health, &ipv6.health);
        InventorySnapshot {
            health,
            family_health: Families { ipv4: ipv4.health, ipv6: ipv6.health },
            attempted_at: attempt.attempted_at,
            collection_duration: attempt.collection_duration,
            completed_queries: completed,
            failed_queries: 2 - completed,
            observed_rows: ipv4.observed_rows.saturating_add(ipv6.observed_rows),
            truncated: ipv4.truncated || ipv6.truncated,
            rows: first_rows(&rows, rows.len()),
        }
    }
}

fn joined<T: Ordered>(a: Vec<T>, b: Vec<T>) -> (both: Vec<T>)
    ensures
        both.deep_view() == a.deep_view() + b.deep_view(),
{
    let ghost x = a.deep_view();
    let ghost y = b.deep_view();
    let mut a = a;
    let mut b = b;
    let ghost p = a@;
    let ghost q = b@;
    a.append(&mut b);
    assert(a@ == p + q);
    assert(a.deep_view() =~= x + y);
    a
}

/// A table that could not be read shows the last complete one as stale, whatever
/// the other family does, and a table with rows left out never takes its place.
pub proof fn a_failed_family_stays_as_it_was<T: Ordered>(
    last: LastComplete<T::V>,
    attempted_at: Nanos,
    result: Result<Dump<T>, CollectError>,
)
    ensures
        result is Err ==> last_after(last, attempted_at, result) == last,
        result is Err && last is Some ==> family_of(last, attempted_at, result).rows == (last->0).1
            && family_of(last, attempted_at, result).health is Stale,
        (result matches Ok(dump) && dump.truncated) ==> last_after(last, attempted_at, result)
            == last && family_of(last, attempted_at, result).health is Partial,
{
}

} // verus!
