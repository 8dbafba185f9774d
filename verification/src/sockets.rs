//! Sockets: what the kernel reports of each one, what changed since the last time,
//! and what a connection is waiting for.
use crate::addresses::IpAddress;
use crate::model::Nanos;
use crate::series::CounterSpan;
use crate::text;
use crate::text::{copy_option, owned, push_decimal};
use vstd::prelude::*;
use vstd::string::*;

verus! {

#[derive(Clone, Copy, Debug, PartialEq, Eq, Structural)]
pub enum SocketFamily {
    Ipv4,
    Ipv6,
}

impl SocketFamily {
    pub fn label(self) -> (label: &'static str)
        ensures
            label@ == match self {
                SocketFamily::Ipv4 => "4"@,
                SocketFamily::Ipv6 => "6"@,
            },
    {
        match self {
            SocketFamily::Ipv4 => "4",
            SocketFamily::Ipv6 => "6",
        }
    }
}

#[derive(Clone, Copy, Debug, PartialEq, Eq, Structural)]
pub enum SocketProtocol {
    Tcp,
    Udp,
}

impl SocketProtocol {
    pub fn label(self) -> (label: &'static str)
        ensures
            label@ == match self {
                SocketProtocol::Tcp => "tcp"@,
                SocketProtocol::Udp => "udp"@,
            },
    {
        match self {
            SocketProtocol::Tcp => "tcp",
            SocketProtocol::Udp => "udp",
        }
    }
}

/// One end of a connection.
#[derive(Clone, Copy, PartialEq, Eq, Structural)]
pub struct SocketEndpoint {
    pub address: IpAddress,
    pub port: u16,
}

/// What the kernel tells sockets apart by. A socket without a cookie cannot be found
/// again.
#[derive(Clone, Copy, PartialEq, Eq, Structural)]
pub struct SocketIdentity {
    pub family: SocketFamily,
    pub protocol: SocketProtocol,
    pub cookie: Option<u64>,
    pub inode: u32,
}

impl SocketIdentity {
    pub open spec fn matchable(self) -> bool {
        self.cookie is Some
    }

    pub fn is_matchable(&self) -> (matchable: bool)
        ensures
            matchable == self.matchable(),
    {
        self.cookie.is_some()
    }

    pub fn same(&self, other: &SocketIdentity) -> (same: bool)
        ensures
            same == (*self == *other),
    {
        let same_cookie: bool = match (self.cookie, other.cookie) {
            (Some(a), Some(b)) => a == b,
            (None, None) => true,
            _ => false,
        };
        same_cookie && self.family == other.family && self.protocol == other.protocol
            && self.inode == other.inode
    }
}

/// What a row is found again by: the identity of its socket, else where it stood in
/// its snapshot.
#[derive(Clone, Copy, PartialEq, Eq, Structural)]
pub enum SocketRowKey {
    Stable { identity: SocketIdentity },
    Ephemeral { sequence: u64, ordinal: usize },
}

impl SocketRowKey {
    pub open spec fn of(identity: SocketIdentity, sequence: u64, ordinal: usize) -> SocketRowKey {
        if identity.matchable() {
            SocketRowKey::Stable { identity }
        } else {
            SocketRowKey::Ephemeral { sequence, ordinal }
        }
    }

    pub fn new(identity: &SocketIdentity, sequence: u64, ordinal: usize) -> (key: SocketRowKey)
        ensures
            key == SocketRowKey::of(*identity, sequence, ordinal),
    {
        if identity.is_matchable() {
            SocketRowKey::Stable { identity: *identity }
        } else {
            SocketRowKey::Ephemeral { sequence, ordinal }
        }
    }

    pub fn is_stable(&self) -> (stable: bool)
        ensures
            stable == (self is Stable),
    {
        match self {
            SocketRowKey::Stable { .. } => true,
            SocketRowKey::Ephemeral { .. } => false,
        }
    }

    pub fn same(&self, other: &SocketRowKey) -> (same: bool)
        ensures
            same == (*self == *other),
    {
        match (self, other) {
            (SocketRowKey::Stable { identity: a }, SocketRowKey::Stable { identity: b }) => a.same(
                b,
            ),
            (
                SocketRowKey::Ephemeral { sequence: a, ordinal: i },
                SocketRowKey::Ephemeral { sequence: b, ordinal: j },
            ) => *a == *b && *i == *j,
            _ => false,
        }
    }
}

/// A process that holds a socket.
#[derive(Clone, PartialEq, Eq)]
pub struct SocketOwner {
    pub pid: u32,
    pub command: Option<String>,
}

/// A process as contracts speak of it.
pub struct OwnerModel {
    pub pid: u32,
    pub command: Option<Seq<char>>,
}

impl DeepView for SocketOwner {
    type V = OwnerModel;

    open spec fn deep_view(&self) -> OwnerModel {
        OwnerModel { pid: self.pid, command: text::optional_text(self.command) }
    }
}

/// A process that a scan found, with the time it started at in clock ticks, which
/// tells it from a later one with the same number.
#[derive(Clone, PartialEq, Eq)]
pub struct SocketProcess {
    pub pid: u32,
    pub start_ticks: u64,
    pub command: Option<String>,
}

/// A found process as contracts speak of it.
pub struct ProcessModel {
    pub pid: u32,
    pub start_ticks: u64,
    pub command: Option<Seq<char>>,
}

impl DeepView for SocketProcess {
    type V = ProcessModel;

    open spec fn deep_view(&self) -> ProcessModel {
        ProcessModel {
            pid: self.pid,
            start_ticks: self.start_ticks,
            command: text::optional_text(self.command),
        }
    }
}

pub fn copy_processes(processes: &Vec<SocketProcess>) -> (copy: Vec<SocketProcess>)
    ensures
        copy.deep_view() == processes.deep_view(),
{
    let ghost all = processes.deep_view();
    assert(all.len() == processes@.len());
    let mut copy: Vec<SocketProcess> = Vec::new();
    for i in 0..processes.len()
        invariant
            all == processes.deep_view(),
            all.len() == processes@.len(),
            copy@.len() == i,
            forall|j: int| 0 <= j < i ==> (#[trigger] copy@[j]).deep_view() == all[j],
    {
        let process = &processes[i];
        assert(all[i as int] == processes@[i as int].deep_view());
        copy.push(
            SocketProcess {
                pid: process.pid,
                start_ticks: process.start_ticks,
                command: copy_option(&process.command),
            },
        );
    }
    assert(copy.deep_view() =~= all);
    copy
}

/// What is shown of the processes that hold a socket.
pub open spec fn owners_of(processes: Seq<ProcessModel>) -> Seq<OwnerModel> {
    Seq::new(
        processes.len(),
        |i: int| OwnerModel { pid: processes[i].pid, command: processes[i].command },
    )
}

pub fn project_owners(processes: &Vec<SocketProcess>) -> (owners: Vec<SocketOwner>)
    ensures
        owners.deep_view() == owners_of(processes.deep_view()),
{
    let ghost all = processes.deep_view();
    assert(all.len() == processes@.len());
    let mut owners: Vec<SocketOwner> = Vec::new();
    for i in 0..processes.len()
        invariant
            all == processes.deep_view(),
            all.len() == processes@.len(),
            owners@.len() == i,
            forall|j: int|
                0 <= j < i ==> (#[trigger] owners@[j]).deep_view() == owners_of(all)[j],
    {
        assert(all[i as int] == processes@[i as int].deep_view());
        owners.push(
            SocketOwner {
                pid: processes[i].pid,
                command: copy_option(&processes[i].command),
            },
        );
    }
    assert(owners.deep_view() =~= owners_of(all));
    owners
}

pub fn copy_owners(owners: &Vec<SocketOwner>) -> (copy: Vec<SocketOwner>)
    ensures
        copy.deep_view() == owners.deep_view(),
{
    let ghost all = owners.deep_view();
    assert(all.len() == owners@.len());
    let mut copy: Vec<SocketOwner> = Vec::new();
    for i in 0..owners.len()
        invariant
            all == owners.deep_view(),
            all.len() == owners@.len(),
            copy@.len() == i,
            forall|j: int| 0 <= j < i ==> (#[trigger] copy@[j]).deep_view() == all[j],
    {
        assert(all[i as int] == owners@[i as int].deep_view());
        copy.push(SocketOwner { pid: owners[i].pid, command: copy_option(&owners[i].command) });
    }
    assert(copy.deep_view() =~= all);
    copy
}

/// How far the processes that hold sockets are known.
#[derive(Clone, Copy, Debug, PartialEq, Eq, Structural)]
pub enum SocketProcessCoverage {
    Complete,
    Pending,
    Partial { permission_denied_processes: usize, io_errors: usize, truncated: bool },
    PermissionDenied,
    Unavailable,
}

pub open spec fn yes_or_no(value: bool) -> Seq<char> {
    if value {
        "yes"@
    } else {
        "no"@
    }
}

fn yes_no(value: bool) -> (word: &'static str)
    ensures
        word@ == yes_or_no(value),
{
    if value {
        "yes"
    } else {
        "no"
    }
}

impl SocketProcessCoverage {
    pub open spec fn word(self) -> Seq<char> {
        match self {
            SocketProcessCoverage::Complete => "complete"@,
            SocketProcessCoverage::Pending => "pending"@,
            SocketProcessCoverage::Partial { .. } => "partial"@,
            SocketProcessCoverage::PermissionDenied => "permission-denied"@,
            SocketProcessCoverage::Unavailable => "unavailable"@,
        }
    }

    pub fn label(self) -> (label: &'static str)
        ensures
            label@ == self.word(),
    {
        match self {
            SocketProcessCoverage::Complete => "complete",
            SocketProcessCoverage::Pending => "pending",
            SocketProcessCoverage::Partial { .. } => "partial",
            SocketProcessCoverage::PermissionDenied => "permission-denied",
            SocketProcessCoverage::Unavailable => "unavailable",
        }
    }

    pub fn is_complete(self) -> (complete: bool)
        ensures
            complete == (self is Complete),
    {
        match self {
            SocketProcessCoverage::Complete => true,
            _ => false,
        }
    }

    pub open spec fn text(self) -> Seq<char> {
        match self {
            SocketProcessCoverage::Partial {
                permission_denied_processes,
                io_errors,
                truncated,
            } => "partial denied="@ + text::decimal(permission_denied_processes as nat) + " io="@
                + text::decimal(io_errors as nat) + " truncated="@ + yes_or_no(truncated),
            _ => self.word(),
        }
    }

    pub fn summary(self) -> (summary: String)
        ensures
            summary@ == self.text(),
    {
        match self {
            SocketProcessCoverage::Partial {
                permission_denied_processes,
                io_errors,
                truncated,
            } => {
                let mut summary = owned("partial denied=");
                push_decimal(&mut summary, permission_denied_processes as u128);
                summary.append(" io=");
                push_decimal(&mut summary, io_errors as u128);
                summary.append(" truncated=");
                summary.append(yes_no(truncated));
                summary
            },
            _ => owned(self.label()),
        }
    }
}

/// What a scan for the processes that hold sockets came to.
#[derive(Clone, Copy, Debug, PartialEq, Eq, Structural)]
pub enum ProcessScanStatus {
    Complete,
    Partial { permission_denied_processes: usize, io_errors: usize, truncated: bool },
    PermissionDenied,
    Io,
}

pub open spec fn coverage_of(status: ProcessScanStatus) -> SocketProcessCoverage {
    match status {
        ProcessScanStatus::Complete => SocketProcessCoverage::Complete,
        ProcessScanStatus::Partial { permission_denied_processes, io_errors, truncated } =>
            SocketProcessCoverage::Partial { permission_denied_processes, io_errors, truncated },
        ProcessScanStatus::PermissionDenied => SocketProcessCoverage::PermissionDenied,
        ProcessScanStatus::Io => SocketProcessCoverage::Unavailable,
    }
}

pub fn project_process_coverage(status: ProcessScanStatus) -> (coverage: SocketProcessCoverage)
    ensures
        coverage == coverage_of(status),
{
    match status {
        ProcessScanStatus::Complete => SocketProcessCoverage::Complete,
        ProcessScanStatus::Partial { permission_denied_processes, io_errors, truncated } =>
            SocketProcessCoverage::Partial { permission_denied_processes, io_errors, truncated },
        ProcessScanStatus::PermissionDenied => SocketProcessCoverage::PermissionDenied,
        ProcessScanStatus::Io => SocketProcessCoverage::Unavailable,
    }
}

/// How far and since when processes are known. `age` is how many seconds ago they were
/// looked up, as it is shown.
pub open spec fn process_map_text(
    coverage: SocketProcessCoverage,
    age: Option<Seq<char>>,
    refreshing: bool,
) -> Seq<char> {
    let known = match age {
        Some(age) => coverage.text() + (" age "@ + age + "s"@),
        None => coverage.text(),
    };
    if refreshing {
        known + " refreshing"@
    } else {
        known
    }
}

pub fn process_map_summary(
    coverage: SocketProcessCoverage,
    age: Option<&str>,
    refreshing: bool,
) -> (summary: String)
    ensures
        summary@ == process_map_text(
            coverage,
            match age {
                Some(age) => Some(age@),
                None => None,
            },
            refreshing,
        ),
{
    let mut summary = coverage.summary();
    if let Some(age) = age {
        let mut words = owned(" age ");
        words.append(age);
        words.append("s");
        summary.append(words.as_str());
    }
    if refreshing {
        summary.append(" refreshing");
    }
    summary
}

/// How far processes are known, since when, and whether they are being looked up.
#[derive(Clone, Copy, Debug, PartialEq, Eq, Structural)]
pub struct ProcessMap {
    pub coverage: SocketProcessCoverage,
    pub age: Option<Nanos>,
    pub refreshing: bool,
}

impl ProcessMap {
    /// The map in words. `seconds` is its age in seconds, as it is shown; it stands only
    /// where there is an age.
    pub open spec fn text(self, seconds: Seq<char>) -> Seq<char> {
        process_map_text(
            self.coverage,
            if self.age is Some {
                Some(seconds)
            } else {
                None
            },
            self.refreshing,
        )
    }

    pub fn summary(&self, seconds: &str) -> (summary: String)
        ensures
            summary@ == self.text(seconds@),
    {
        process_map_summary(
            self.coverage,
            if self.age.is_some() {
                Some(seconds)
            } else {
                None
            },
            self.refreshing,
        )
    }
}

/// What a connection sent or received.
#[derive(Clone, Copy, Debug, PartialEq, Eq, Structural)]
pub struct SocketTraffic {
    pub segments: Option<u64>,
    pub bytes: Option<u64>,
    pub segment_interval: Option<CounterSpan>,
    pub byte_interval: Option<CounterSpan>,
}

pub open spec fn delta_of(span: Option<CounterSpan>) -> u64 {
    match span {
        Some(span) => span.delta,
        None => 0,
    }
}

/// The memory of a socket.
#[derive(Clone, Copy, Debug, PartialEq, Eq, Structural)]
pub struct SocketMemoryDiagnostics {
    pub receive_allocated: u32,
    pub receive_limit: u32,
    pub send_allocated: u32,
    pub send_limit: u32,
    pub forward_allocated: u32,
    pub send_queued: u32,
    pub option_memory: u32,
    pub backlog: u32,
    pub drops: u32,
}

/// What the kernel reports of a TCP connection.
#[derive(Clone, Copy, Debug, Default, PartialEq, Eq, Structural)]
pub struct SocketTcpInfo {
    pub state: u8,
    pub congestion_state: u8,
    pub retransmit_timeouts: u8,
    pub probes: u8,
    pub backoff: u8,
    pub options: u8,
    pub send_window_scale: Option<u8>,
    pub receive_window_scale: Option<u8>,
    pub delivery_rate_app_limited: bool,
    pub retransmission_timeout_micros: u32,
    pub ack_timeout_micros: u32,
    pub send_mss_bytes: u32,
    pub receive_mss_bytes: u32,
    pub unacked_segments: u32,
    pub sacked_segments: u32,
    pub lost_segments: u32,
    pub retransmitted_segments: u32,
    pub fackets: u32,
    pub last_data_sent_millis: u32,
    pub last_ack_sent_millis: u32,
    pub last_data_received_millis: u32,
    pub last_ack_received_millis: u32,
    pub path_mtu_bytes: u32,
    pub receive_ssthresh_bytes: u32,
    pub rtt_micros: u32,
    pub rtt_variance_micros: u32,
    pub send_ssthresh_segments: u32,
    pub send_cwnd_segments: u32,
    pub advertised_mss_bytes: u32,
    pub reordering_segments: u32,
    pub receive_rtt_micros: u32,
    pub receive_space_bytes: u32,
    pub total_retransmitted_segments: u32,
    pub pacing_rate_bytes_per_second: Option<u64>,
    pub max_pacing_rate_bytes_per_second: Option<u64>,
    pub notsent_bytes: Option<u32>,
    pub min_rtt_micros: Option<u32>,
    pub data_segments_in: Option<u32>,
    pub data_segments_out: Option<u32>,
    pub delivery_rate_bytes_per_second: Option<u64>,
    pub busy_time_micros: Option<u64>,
    pub receive_window_limited_micros: Option<u64>,
    pub send_buffer_limited_micros: Option<u64>,
    pub send_window_bytes: Option<u32>,
    pub receive_window_bytes: Option<u32>,
    pub bytes_acked: Option<u64>,
    pub bytes_received: Option<u64>,
    pub segments_out: Option<u32>,
    pub segments_in: Option<u32>,
}

/// A TCP connection as it is shown.
#[derive(Clone, Copy, Debug, PartialEq, Eq, Structural)]
pub struct SocketTcpDiagnostics {
    pub state: u8,
    pub congestion_state: u8,
    pub retransmit_timeouts: u8,
    pub probes: u8,
    pub backoff: u8,
    pub options: u8,
    pub send_window_scale: Option<u8>,
    pub receive_window_scale: Option<u8>,
    pub delivery_rate_app_limited: bool,
    pub retransmission_timeout_micros: u32,
    pub ack_timeout_micros: u32,
    pub send_mss_bytes: u32,
    pub receive_mss_bytes: u32,
    pub unacked_segments: u32,
    pub sacked_segments: u32,
    pub lost_segments: u32,
    pub retransmitted_segments: u32,
    pub fackets: u32,
    pub last_data_sent_millis: u32,
    pub last_ack_sent_millis: u32,
    pub last_data_received_millis: u32,
    pub last_ack_received_millis: u32,
    pub path_mtu_bytes: u32,
    pub receive_ssthresh_bytes: u32,
    pub rtt_micros: u32,
    pub rtt_variance_micros: u32,
    pub send_ssthresh_segments: u32,
    pub send_cwnd_segments: u32,
    pub advertised_mss_bytes: u32,
    pub reordering_segments: u32,
    pub receive_rtt_micros: u32,
    pub receive_space_bytes: u32,
    pub total_retransmitted_segments: u32,
    pub total_retransmit_interval: Option<CounterSpan>,
    pub pacing_rate_bytes_per_second: Option<u64>,
    pub max_pacing_rate_bytes_per_second: Option<u64>,
    pub notsent_bytes: Option<u32>,
    pub min_rtt_micros: Option<u32>,
    pub data_segments_in: Option<u32>,
    pub data_segments_out: Option<u32>,
    pub delivery_rate_bytes_per_second: Option<u64>,
    pub busy_time_micros: Option<u64>,
    pub receive_window_limited_micros: Option<u64>,
    pub send_buffer_limited_micros: Option<u64>,
    pub limit_interval: Option<SocketLimitInterval>,
    pub send_window_bytes: Option<u32>,
    pub receive_window_bytes: Option<u32>,
}

/// Counters of two observations in a row of one socket, timed at the end of the
/// query.
#[derive(Clone, Copy, Debug, PartialEq, Eq, Structural)]
pub struct SocketLimitInterval {
    pub elapsed: Nanos,
    pub busy_micros: u64,
    pub rwnd_micros: Option<u64>,
    pub sndbuf_micros: Option<u64>,
}

/// The counters of a socket that are compared with the next observation.
#[derive(Clone, Copy, Debug, PartialEq, Eq, Structural)]
pub struct PreviousCounters {
    pub receive_segments: Option<u64>,
    pub receive_bytes: Option<u64>,
    pub send_segments: Option<u64>,
    pub send_bytes: Option<u64>,
    pub total_retransmitted_segments: Option<u64>,
    pub drops: Option<u64>,
    pub busy_micros: Option<u64>,
    pub rwnd_micros: Option<u64>,
    pub sndbuf_micros: Option<u64>,
}

/// By how much a counter grew, if both values are known and it did not fall.
pub open spec fn growth(current: Option<u64>, previous: Option<u64>) -> Option<u64> {
    match (current, previous) {
        (Some(current), Some(previous)) => if current >= previous {
            Some((current - previous) as u64)
        } else {
            None
        },
        _ => None,
    }
}

fn grown(current: Option<u64>, previous: Option<u64>) -> (delta: Option<u64>)
    ensures
        delta == growth(current, previous),
{
    match (current, previous) {
        (Some(current), Some(previous)) => if current >= previous {
            Some(current - previous)
        } else {
            None
        },
        _ => None,
    }
}

/// A time during which a connection was limited, which cannot be longer than it was
/// busy.
pub open spec fn limited(current: Option<u64>, previous: Option<u64>, busy: u64) -> Option<u64> {
    match growth(current, previous) {
        Some(delta) => if delta <= busy {
            Some(delta)
        } else {
            None
        },
        None => None,
    }
}

fn limited_within(current: Option<u64>, previous: Option<u64>, busy: u64) -> (delta: Option<u64>)
    ensures
        delta == limited(current, previous, busy),
{
    match grown(current, previous) {
        Some(delta) => if delta <= busy {
            Some(delta)
        } else {
            None
        },
        None => None,
    }
}

/// The interval between two observations: there is one only if time passed and the
/// busy time did not fall.
pub open spec fn interval_between(
    current: PreviousCounters,
    previous: Option<PreviousCounters>,
    elapsed: Option<Nanos>,
) -> Option<SocketLimitInterval> {
    match (previous, elapsed) {
        (Some(previous), Some(elapsed)) => match growth(
            current.busy_micros,
            previous.busy_micros,
        ) {
            Some(busy_micros) => if elapsed > 0 {
                Some(
                    SocketLimitInterval {
                        elapsed,
                        busy_micros,
                        rwnd_micros: limited(
                            current.rwnd_micros,
                            previous.rwnd_micros,
                            busy_micros,
                        ),
                        sndbuf_micros: limited(
                            current.sndbuf_micros,
                            previous.sndbuf_micros,
                            busy_micros,
                        ),
                    },
                )
            } else {
                None
            },
            None => None,
        },
        _ => None,
    }
}

/// Whether a time is at least half of the busy time.
pub open spec fn dominates(micros: Option<u64>, busy: u64) -> bool {
    micros matches Some(micros) && busy > 0 && 2 * micros >= busy
}

fn is_dominant(micros: Option<u64>, busy: u64) -> (dominant: bool)
    ensures
        dominant == dominates(micros, busy),
{
    match micros {
        Some(micros) => busy > 0 && 2 * (micros as u128) >= busy as u128,
        None => false,
    }
}

impl SocketLimitInterval {
    pub fn between(
        current: &PreviousCounters,
        previous: Option<PreviousCounters>,
        elapsed: Option<Nanos>,
    ) -> (interval: Option<SocketLimitInterval>)
        ensures
            interval == interval_between(*current, previous, elapsed),
    {
        match (previous, elapsed) {
            (Some(previous), Some(elapsed)) => match grown(
                current.busy_micros,
                previous.busy_micros,
            ) {
                Some(busy_micros) => if elapsed > 0 {
                    Some(
                        SocketLimitInterval {
                            elapsed,
                            busy_micros,
                            rwnd_micros: limited_within(
                                current.rwnd_micros,
                                previous.rwnd_micros,
                                busy_micros,
                            ),
                            sndbuf_micros: limited_within(
                                current.sndbuf_micros,
                                previous.sndbuf_micros,
                                busy_micros,
                            ),
                        },
                    )
                } else {
                    None
                },
                None => None,
            },
            _ => None,
        }
    }
}

/// What a connection was waiting for.
#[derive(Clone, Copy, Debug, PartialEq, Eq, Structural)]
pub enum LimitReason {
    NoBaseline,
    BothWindows,
    ReceiveWindow,
    SendBuffer,
    CounterMissing,
    Idle,
    NotBusy,
    CongestionWindow,
    Application,
    Active,
}

impl LimitReason {
    pub open spec fn words(self) -> (Seq<char>, Seq<char>) {
        match self {
            LimitReason::NoBaseline => (
                "UNKNOWN"@,
                "No valid adjacent TCP_INFO timing baseline"@,
            ),
            LimitReason::BothWindows => (
                "RWND + SNDBUF"@,
                "Both counters reached 50% of busy time in this interval"@,
            ),
            LimitReason::ReceiveWindow => (
                "RWND"@,
                "rwnd_limited delta / busy delta >= 50% in this interval"@,
            ),
            LimitReason::SendBuffer => (
                "SNDBUF"@,
                "sndbuf_limited delta / busy delta >= 50% in this interval"@,
            ),
            LimitReason::CounterMissing => (
                "UNKNOWN"@,
                "Limited-time counter missing, reset, or inconsistent with busy time"@,
            ),
            LimitReason::Idle => (
                "IDLE"@,
                "No busy-time increase, no unsent data, and no unacked segments"@,
            ),
            LimitReason::NotBusy => (
                "UNKNOWN"@,
                "No busy-time increase; pending data or flight still present"@,
            ),
            LimitReason::CongestionWindow => (
                "CWND?"@,
                "Snapshot estimate: unsent > 0, flight/cwnd >= 90%, CA Open, peer window >= cwnd bytes"@,
            ),
            LimitReason::Application => (
                "APP?"@,
                "No unsent data now; latest delivery-rate sample was app-limited"@,
            ),
            LimitReason::Active => (
                "ACTIVE"@,
                "No dominant timed limit observed; other constraints remain possible"@,
            ),
        }
    }

    /// The reason and what it rests on, in words.
    pub fn explain(self) -> (words: (&'static str, &'static str))
        ensures
            (words.0@, words.1@) == self.words(),
    {
        match self {
            LimitReason::NoBaseline => (
                "UNKNOWN",
                "No valid adjacent TCP_INFO timing baseline",
            ),
            LimitReason::BothWindows => (
                "RWND + SNDBUF",
                "Both counters reached 50% of busy time in this interval",
            ),
            LimitReason::ReceiveWindow => (
                "RWND",
                "rwnd_limited delta / busy delta >= 50% in this interval",
            ),
            LimitReason::SendBuffer => (
                "SNDBUF",
                "sndbuf_limited delta / busy delta >= 50% in this interval",
            ),
            LimitReason::CounterMissing => (
                "UNKNOWN",
                "Limited-time counter missing, reset, or inconsistent with busy time",
            ),
            LimitReason::Idle => (
                "IDLE",
                "No busy-time increase, no unsent data, and no unacked segments",
            ),
            LimitReason::NotBusy => (
                "UNKNOWN",
                "No busy-time increase; pending data or flight still present",
            ),
            LimitReason::CongestionWindow => (
                "CWND?",
                "Snapshot estimate: unsent > 0, flight/cwnd >= 90%, CA Open, peer window >= cwnd bytes",
            ),
            LimitReason::Application => (
                "APP?",
                "No unsent data now; latest delivery-rate sample was app-limited",
            ),
            LimitReason::Active => (
                "ACTIVE",
                "No dominant timed limit observed; other constraints remain possible",
            ),
        }
    }
}

/// The segments that are under way, as far as the counters tell.
pub open spec fn flight_of(tcp: SocketTcpDiagnostics) -> Option<int> {
    let flight = tcp.unacked_segments - tcp.sacked_segments - tcp.lost_segments;
    if tcp.unacked_segments < tcp.sacked_segments || flight < 0 || flight
        + tcp.retransmitted_segments > u32::MAX {
        None
    } else {
        Some(flight + tcp.retransmitted_segments)
    }
}

/// The congestion window in bytes.
pub open spec fn window_bytes(tcp: SocketTcpDiagnostics) -> int {
    tcp.send_cwnd_segments * tcp.send_mss_bytes
}

/// Whether the congestion window seems to be full while there is more to send.
pub open spec fn fills_window(tcp: SocketTcpDiagnostics) -> bool {
    &&& tcp.notsent_bytes matches Some(unsent) && unsent > 0
    &&& tcp.send_cwnd_segments > 0
    &&& flight_of(tcp) matches Some(flight) && flight * 10 >= tcp.send_cwnd_segments * 9
    &&& tcp.congestion_state == 0
    &&& tcp.send_window_bytes matches Some(window) && window >= window_bytes(tcp)
}

/// What a connection was waiting for. Times describe the interval; what is only known
/// of this moment can merely suggest something.
pub open spec fn reason_of(tcp: SocketTcpDiagnostics) -> LimitReason {
    match tcp.limit_interval {
        None => LimitReason::NoBaseline,
        Some(interval) => {
            let busy = interval.busy_micros;
            let rwnd = dominates(interval.rwnd_micros, busy);
            let sndbuf = dominates(interval.sndbuf_micros, busy);
            if rwnd && sndbuf {
                LimitReason::BothWindows
            } else if rwnd {
                LimitReason::ReceiveWindow
            } else if sndbuf {
                LimitReason::SendBuffer
            } else if interval.rwnd_micros is None || interval.sndbuf_micros is None {
                LimitReason::CounterMissing
            } else if busy == 0 {
                if tcp.notsent_bytes == Some(0u32) && tcp.unacked_segments == 0 {
                    LimitReason::Idle
                } else {
                    LimitReason::NotBusy
                }
            } else if fills_window(tcp) {
                LimitReason::CongestionWindow
            } else if tcp.notsent_bytes == Some(0u32) && tcp.delivery_rate_app_limited {
                LimitReason::Application
            } else {
                LimitReason::Active
            }
        },
    }
}

impl SocketTcpDiagnostics {
    pub fn congestion_window_bytes(&self) -> (bytes: u64)
        ensures
            bytes == window_bytes(*self),
    {
        let segments: u64 = self.send_cwnd_segments as u64;
        let size: u64 = self.send_mss_bytes as u64;
        assert(segments * size <= 0xffff_ffff * 0xffff_ffff) by (nonlinear_arith)
            requires
                segments <= 0xffff_ffff,
                size <= 0xffff_ffff,
        ;
        segments * size
    }

    pub fn estimated_flight_segments(&self) -> (flight: Option<u32>)
        ensures
            match flight {
                Some(flight) => flight_of(*self) == Some(flight as int),
                None => flight_of(*self) is None,
            },
    {
        if self.unacked_segments < self.sacked_segments {
            return None;
        }
        let unsacked: u32 = self.unacked_segments - self.sacked_segments;
        if unsacked < self.lost_segments {
            return None;
        }
        (unsacked - self.lost_segments).checked_add(self.retransmitted_segments)
    }

    fn fills_congestion_window(&self) -> (fills: bool)
        ensures
            fills == fills_window(*self),
    {
        let unsent: bool = match self.notsent_bytes {
            Some(bytes) => bytes > 0,
            None => false,
        };
        let full: bool = match self.estimated_flight_segments() {
            Some(flight) => flight as u64 * 10 >= self.send_cwnd_segments as u64 * 9,
            None => false,
        };
        let open: bool = match self.send_window_bytes {
            Some(window) => window as u64 >= self.congestion_window_bytes(),
            None => false,
        };
        unsent && self.send_cwnd_segments > 0 && full && self.congestion_state == 0 && open
    }

    /// What the connection was waiting for.
    pub fn limit_reason(&self) -> (reason: LimitReason)
        ensures
            reason == reason_of(*self),
    {
        let interval = match self.limit_interval {
            None => {
                return LimitReason::NoBaseline;
            },
            Some(interval) => interval,
        };
        let rwnd: bool = is_dominant(interval.rwnd_micros, interval.busy_micros);
        let sndbuf: bool = is_dominant(interval.sndbuf_micros, interval.busy_micros);
        let unsent: bool = match self.notsent_bytes {
            Some(bytes) => bytes != 0,
            None => true,
        };
        if rwnd && sndbuf {
            LimitReason::BothWindows
        } else if rwnd {
            LimitReason::ReceiveWindow
        } else if sndbuf {
            LimitReason::SendBuffer
        } else if interval.rwnd_micros.is_none() || interval.sndbuf_micros.is_none() {
            LimitReason::CounterMissing
        } else if interval.busy_micros == 0 {
            if !unsent && self.unacked_segments == 0 {
                LimitReason::Idle
            } else {
                LimitReason::NotBusy
            }
        } else if self.fills_congestion_window() {
            LimitReason::CongestionWindow
        } else if !unsent && self.delivery_rate_app_limited {
            LimitReason::Application
        } else {
            LimitReason::Active
        }
    }
}

/// A rate that the kernel knows: the largest number stands for none.
pub open spec fn known_rate(rate: Option<u64>) -> Option<u64> {
    if rate == Some(u64::MAX) {
        None
    } else {
        rate
    }
}

fn rate_if_known(rate: Option<u64>) -> (known: Option<u64>)
    ensures
        known == known_rate(rate),
{
    match rate {
        Some(rate) => if rate == u64::MAX {
            None
        } else {
            Some(rate)
        },
        None => None,
    }
}

pub open spec fn known_rtt(rtt: Option<u32>) -> Option<u32> {
    if rtt == Some(u32::MAX) {
        None
    } else {
        rtt
    }
}

fn rtt_if_known(rtt: Option<u32>) -> (known: Option<u32>)
    ensures
        known == known_rtt(rtt),
{
    match rtt {
        Some(rtt) => if rtt == u32::MAX {
            None
        } else {
            Some(rtt)
        },
        None => None,
    }
}

pub open spec fn positive_rate(rate: Option<u64>) -> Option<u64> {
    if rate == Some(0u64) {
        None
    } else {
        rate
    }
}

fn rate_if_positive(rate: Option<u64>) -> (positive: Option<u64>)
    ensures
        positive == positive_rate(rate),
{
    match rate {
        Some(rate) => if rate > 0 {
            Some(rate)
        } else {
            None
        },
        None => None,
    }
}

/// A TCP connection as it is shown; what limited it is filled in where there is an
/// observation before.
pub open spec fn diagnostics_of(
    info: SocketTcpInfo,
    total_retransmit_interval: Option<CounterSpan>,
) -> SocketTcpDiagnostics {
    SocketTcpDiagnostics {
        state: info.state,
        congestion_state: info.congestion_state,
        retransmit_timeouts: info.retransmit_timeouts,
        probes: info.probes,
        backoff: info.backoff,
        options: info.options,
        send_window_scale: info.send_window_scale,
        receive_window_scale: info.receive_window_scale,
        delivery_rate_app_limited: info.delivery_rate_app_limited,
        retransmission_timeout_micros: info.retransmission_timeout_micros,
        ack_timeout_micros: info.ack_timeout_micros,
        send_mss_bytes: info.send_mss_bytes,
        receive_mss_bytes: info.receive_mss_bytes,
        unacked_segments: info.unacked_segments,
        sacked_segments: info.sacked_segments,
        lost_segments: info.lost_segments,
        retransmitted_segments: info.retransmitted_segments,
        fackets: info.fackets,
        last_data_sent_millis: info.last_data_sent_millis,
        last_ack_sent_millis: info.last_ack_sent_millis,
        last_data_received_millis: info.last_data_received_millis,
        last_ack_received_millis: info.last_ack_received_millis,
        path_mtu_bytes: info.path_mtu_bytes,
        receive_ssthresh_bytes: info.receive_ssthresh_bytes,
        rtt_micros: info.rtt_micros,
        rtt_variance_micros: info.rtt_variance_micros,
        send_ssthresh_segments: info.send_ssthresh_segments,
        send_cwnd_segments: info.send_cwnd_segments,
        advertised_mss_bytes: info.advertised_mss_bytes,
        reordering_segments: info.reordering_segments,
        receive_rtt_micros: info.receive_rtt_micros,
        receive_space_bytes: info.receive_space_bytes,
        total_retransmitted_segments: info.total_retransmitted_segments,
        total_retransmit_interval,
        pacing_rate_bytes_per_second: known_rate(info.pacing_rate_bytes_per_second),
        max_pacing_rate_bytes_per_second: known_rate(info.max_pacing_rate_bytes_per_second),
        notsent_bytes: info.notsent_bytes,
        min_rtt_micros: known_rtt(info.min_rtt_micros),
        data_segments_in: info.data_segments_in,
        data_segments_out: info.data_segments_out,
        delivery_rate_bytes_per_second: positive_rate(info.delivery_rate_bytes_per_second),
        busy_time_micros: info.busy_time_micros,
        receive_window_limited_micros: info.receive_window_limited_micros,
        send_buffer_limited_micros: info.send_buffer_limited_micros,
        limit_interval: None,
        send_window_bytes: info.send_window_bytes,
        receive_window_bytes: info.receive_window_bytes,
    }
}

pub fn project_tcp_diagnostics(
    info: SocketTcpInfo,
    total_retransmit_interval: Option<CounterSpan>,
) -> (diagnostics: SocketTcpDiagnostics)
    ensures
        diagnostics == diagnostics_of(info, total_retransmit_interval),
{
    SocketTcpDiagnostics {
        state: info.state,
        congestion_state: info.congestion_state,
        retransmit_timeouts: info.retransmit_timeouts,
        probes: info.probes,
        backoff: info.backoff,
        options: info.options,
        send_window_scale: info.send_window_scale,
        receive_window_scale: info.receive_window_scale,
        delivery_rate_app_limited: info.delivery_rate_app_limited,
        retransmission_timeout_micros: info.retransmission_timeout_micros,
        ack_timeout_micros: info.ack_timeout_micros,
        send_mss_bytes: info.send_mss_bytes,
        receive_mss_bytes: info.receive_mss_bytes,
        unacked_segments: info.unacked_segments,
        sacked_segments: info.sacked_segments,
        lost_segments: info.lost_segments,
        retransmitted_segments: info.retransmitted_segments,
        fackets: info.fackets,
        last_data_sent_millis: info.last_data_sent_millis,
        last_ack_sent_millis: info.last_ack_sent_millis,
        last_data_received_millis: info.last_data_received_millis,
        last_ack_received_millis: info.last_ack_received_millis,
        path_mtu_bytes: info.path_mtu_bytes,
        receive_ssthresh_bytes: info.receive_ssthresh_bytes,
        rtt_micros: info.rtt_micros,
        rtt_variance_micros: info.rtt_variance_micros,
        send_ssthresh_segments: info.send_ssthresh_segments,
        send_cwnd_segments: info.send_cwnd_segments,
        advertised_mss_bytes: info.advertised_mss_bytes,
        reordering_segments: info.reordering_segments,
        receive_rtt_micros: info.receive_rtt_micros,
        receive_space_bytes: info.receive_space_bytes,
        total_retransmitted_segments: info.total_retransmitted_segments,
        total_retransmit_interval,
        pacing_rate_bytes_per_second: rate_if_known(info.pacing_rate_bytes_per_second),
        max_pacing_rate_bytes_per_second: rate_if_known(info.max_pacing_rate_bytes_per_second),
        notsent_bytes: info.notsent_bytes,
        min_rtt_micros: rtt_if_known(info.min_rtt_micros),
        data_segments_in: info.data_segments_in,
        data_segments_out: info.data_segments_out,
        delivery_rate_bytes_per_second: rate_if_positive(info.delivery_rate_bytes_per_second),
        busy_time_micros: info.busy_time_micros,
        receive_window_limited_micros: info.receive_window_limited_micros,
        send_buffer_limited_micros: info.send_buffer_limited_micros,
        limit_interval: None,
        send_window_bytes: info.send_window_bytes,
        receive_window_bytes: info.receive_window_bytes,
    }
}

/// What a counter grew by between two observations in a row.
pub open spec fn span_of(
    current: Option<u64>,
    previous: Option<u64>,
    elapsed: Option<Nanos>,
) -> Option<CounterSpan> {
    match (growth(current, previous), elapsed) {
        (Some(delta), Some(elapsed)) => if elapsed > 0 {
            Some(CounterSpan { delta, elapsed })
        } else {
            None
        },
        _ => None,
    }
}

pub fn project_counter(current: Option<u64>, previous: Option<u64>, elapsed: Option<Nanos>) -> (span:
    Option<CounterSpan>)
    ensures
        span == span_of(current, previous, elapsed),
{
    match (grown(current, previous), elapsed) {
        (Some(delta), Some(elapsed)) => if elapsed > 0 {
            Some(CounterSpan { delta, elapsed })
        } else {
            None
        },
        _ => None,
    }
}

/// The name of a state. A datagram socket without a peer is not closed.
pub open spec fn state_name(protocol: SocketProtocol, state: u8) -> Seq<char> {
    match protocol {
        SocketProtocol::Udp => if state == 1 {
            "CONNECTED"@
        } else if state == 7 {
            "UNCONN"@
        } else {
            "STATE#"@ + text::decimal(state as nat)
        },
        SocketProtocol::Tcp => if state == 1 {
            "ESTABLISHED"@
        } else if state == 2 {
            "SYN_SENT"@
        } else if state == 3 {
            "SYN_RECV"@
        } else if state == 4 {
            "FIN_WAIT1"@
        } else if state == 5 {
            "FIN_WAIT2"@
        } else if state == 6 {
            "TIME_WAIT"@
        } else if state == 7 {
            "CLOSE"@
        } else if state == 8 {
            "CLOSE_WAIT"@
        } else if state == 9 {
            "LAST_ACK"@
        } else if state == 10 {
            "LISTEN"@
        } else if state == 11 {
            "CLOSING"@
        } else if state == 12 {
            "NEW_SYN_RECV"@
        } else {
            "STATE#"@ + text::decimal(state as nat)
        },
    }
}

pub fn socket_state(protocol: SocketProtocol, state: u8) -> (name: String)
    ensures
        name@ == state_name(protocol, state),
{
    let known = match protocol {
        SocketProtocol::Udp => if state == 1 {
            Some("CONNECTED")
        } else if state == 7 {
            Some("UNCONN")
        } else {
            None
        },
        SocketProtocol::Tcp => if state == 1 {
            Some("ESTABLISHED")
        } else if state == 2 {
            Some("SYN_SENT")
        } else if state == 3 {
            Some("SYN_RECV")
        } else if state == 4 {
            Some("FIN_WAIT1")
        } else if state == 5 {
            Some("FIN_WAIT2")
        } else if state == 6 {
            Some("TIME_WAIT")
        } else if state == 7 {
            Some("CLOSE")
        } else if state == 8 {
            Some("CLOSE_WAIT")
        } else if state == 9 {
            Some("LAST_ACK")
        } else if state == 10 {
            Some("LISTEN")
        } else if state == 11 {
            Some("CLOSING")
        } else if state == 12 {
            Some("NEW_SYN_RECV")
        } else {
            None
        },
    };
    match known {
        Some(name) => owned(name),
        None => {
            let mut name = owned("STATE#");
            push_decimal(&mut name, state as u128);
            name
        },
    }
}

} // verus!
