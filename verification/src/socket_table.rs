//! The table of sockets: what the queries of one collection say together, and how
//! each socket changed since the collection before.
use crate::addresses;
use crate::addresses::{read_address, read_number, IpAddress};
use crate::diagnostics;
use crate::diagnostics::printable_text;
use crate::model;
use crate::model::{MonitorError, MonitorErrorCode, Nanos, ProviderHealth, MAX_DIAGNOSTIC_BYTES};
use crate::ordering;
use crate::ordering::{first_rows, Ordered};
use crate::owners;
use crate::owners::{holds, IdentityMap, OwnerSnapshot};
use crate::seqs;
use crate::series;
use crate::series::CounterSpan;
use crate::sockets;
use crate::sockets::{
    copy_owners, project_counter, project_owners, project_tcp_diagnostics, socket_state,
    OwnerModel, PreviousCounters, ProcessMap, ProcessModel, SocketEndpoint, SocketFamily,
    SocketIdentity, SocketLimitInterval, SocketMemoryDiagnostics, SocketOwner, SocketProcess,
    SocketProcessCoverage, SocketProtocol, SocketRowKey, SocketTcpDiagnostics, SocketTcpInfo,
    SocketTraffic,
};
use crate::text;
use crate::text::{
    chars_of, copy_option, owned, push_decimal, same_text, split_words, text_of,
};
use vstd::prelude::*;
use vstd::string::*;

verus! {

/// How many queries make one collection.
pub const QUERY_COUNT: usize = 4;

/// How many sockets of one query are kept.
pub const MAX_RETAINED_PER_QUERY: usize = 4096;

/// How many sockets are shown.
pub const MAX_DISPLAYED_SOCKETS: usize = 4096;

/// A socket as the kernel reports it.
pub struct RawSocket {
    pub identity: SocketIdentity,
    pub family: SocketFamily,
    pub protocol: SocketProtocol,
    pub state: u8,
    pub retransmits: u8,
    pub local: SocketEndpoint,
    pub remote: SocketEndpoint,
    pub bound_ifindex: u32,
    pub expires_millis: u32,
    pub receive_queue: u32,
    pub send_queue: u32,
    pub uid: u32,
    pub memory: Option<SocketMemoryDiagnostics>,
    pub tcp_info: Option<SocketTcpInfo>,
    pub congestion_algorithm: Option<String>,
}

/// Why a query failed.
#[derive(Clone, Copy, Debug, PartialEq, Eq, Structural)]
pub enum CollectErrorKind {
    PermissionDenied,
    Unsupported,
    Io,
    Loss,
    Interrupted,
    Malformed,
}

pub struct CollectError {
    pub kind: CollectErrorKind,
    pub message: String,
}

impl DeepView for CollectError {
    type V = (CollectErrorKind, Seq<char>);

    open spec fn deep_view(&self) -> (CollectErrorKind, Seq<char>) {
        (self.kind, self.message@)
    }
}

/// What one query came to.
pub struct SocketQuery {
    pub completed_at: Nanos,
    pub observed_sockets: usize,
    pub truncated: bool,
    pub outcome: Result<Vec<RawSocket>, CollectError>,
}

/// The queries of one collection, none of them with more sockets than are kept.
pub struct BoundedCollection {
    pub queries: Vec<SocketQuery>,
    pub observed_sockets: usize,
    pub truncated: bool,
}

/// How many sockets the first `n` queries saw, at most as many as can be counted.
pub open spec fn observed_upto(queries: Seq<SocketQuery>, n: int) -> int
    decreases n,
{
    if n <= 0 {
        0
    } else {
        let sum = observed_upto(queries, n - 1) + queries[n - 1].observed_sockets;
        if sum > usize::MAX {
            usize::MAX as int
        } else {
            sum
        }
    }
}

/// Whether a query holds more sockets than are kept.
pub open spec fn is_crowded(query: SocketQuery) -> bool {
    query.outcome matches Ok(rows) && rows@.len() > MAX_RETAINED_PER_QUERY
}

/// Whether one of the first `n` queries left something out or has to be cut.
pub open spec fn cut_upto(queries: Seq<SocketQuery>, n: int) -> bool
    decreases n,
{
    n > 0 && (cut_upto(queries, n - 1) || queries[n - 1].truncated || is_crowded(queries[n - 1]))
}

/// A query with no more sockets than are kept.
pub open spec fn is_bounded(query: SocketQuery, bounded: SocketQuery) -> bool {
    &&& bounded.completed_at == query.completed_at
    &&& bounded.observed_sockets == query.observed_sockets
    &&& bounded.truncated == query.truncated
    &&& match (query.outcome, bounded.outcome) {
        (Ok(rows), Ok(kept)) => kept@ == if rows@.len() > MAX_RETAINED_PER_QUERY {
            rows@.take(MAX_RETAINED_PER_QUERY as int)
        } else {
            rows@
        },
        (Err(error), Err(kept)) => kept == error,
        _ => false,
    }
}

fn bound_query(query: &mut SocketQuery) -> (cut: bool)
    ensures
        is_bounded(*old(query), *final(query)),
        cut == is_crowded(*old(query)),
{
    match &mut query.outcome {
        Ok(rows) => {
            if rows.len() > MAX_RETAINED_PER_QUERY {
                rows.truncate(MAX_RETAINED_PER_QUERY);
                true
            } else {
                false
            }
        },
        Err(_) => false,
    }
}

impl BoundedCollection {
    pub fn new(queries: Vec<SocketQuery>) -> (bounded: BoundedCollection)
        ensures
            bounded.observed_sockets == observed_upto(queries@, queries@.len() as int),
            bounded.truncated == cut_upto(queries@, queries@.len() as int),
            bounded.queries@.len() == queries@.len(),
            forall|i: int|
                0 <= i < queries@.len() ==> is_bounded(queries@[i], #[trigger] bounded.queries@[i]),
    {
        let ghost all = queries@;
        let mut queries = queries;
        let mut observed_sockets: usize = 0;
        let mut truncated: bool = false;
        let count: usize = queries.len();
        for i in 0..count
            invariant
                count == all.len(),
                queries@.len() == all.len(),
                observed_sockets == observed_upto(all, i as int),
                truncated == cut_upto(all, i as int),
                forall|j: int| i <= j < all.len() ==> #[trigger] queries@[j] == all[j],
                forall|j: int| 0 <= j < i ==> is_bounded(all[j], #[trigger] queries@[j]),
        {
            observed_sockets = observed_sockets.saturating_add(queries[i].observed_sockets);
            truncated = truncated || queries[i].truncated;
            let ghost before = queries@;
            let cut = bound_query(&mut queries[i]);
            truncated = truncated || cut;
            assert(queries@ =~= before.update(i as int, queries@[i as int]));
        }
        BoundedCollection { queries, observed_sockets, truncated }
    }

    /// The sockets whose processes can be looked for, each once.
    pub fn owner_targets(&self) -> (targets: Vec<SocketIdentity>)
        ensures
            targets@.no_duplicates(),
            forall|identity: SocketIdentity| #[trigger]
                targets@.contains(identity) <==> is_target(self.queries@, identity),
    {
        let mut targets: Vec<SocketIdentity> = Vec::new();
        for i in 0..self.queries.len()
            invariant
                targets@.no_duplicates(),
                forall|identity: SocketIdentity| #[trigger]
                    targets@.contains(identity) <==> is_target(
                        self.queries@.take(i as int),
                        identity,
                    ),
        {
            let query = &self.queries[i];
            let ghost before = self.queries@.take(i as int);
            let ghost after = self.queries@.take(i + 1);
            let ghost was = targets@;
            proof {
                assert forall|q: int, r: int, identity: SocketIdentity|
                    0 <= q < after.len() && #[trigger] is_target_at(after, q, r, identity) implies (q
                    < i && is_target_at(before, q, r, identity)) || (q == i && is_target_at(
                    self.queries@,
                    i as int,
                    r,
                    identity,
                )) by {}
                assert forall|q: int, r: int, identity: SocketIdentity| #[trigger]
                    is_target_at(before, q, r, identity) implies is_target_at(
                    after,
                    q,
                    r,
                    identity,
                ) by {}
                assert forall|r: int, identity: SocketIdentity| #[trigger]
                    is_target_at(self.queries@, i as int, r, identity) implies is_target_at(
                    after,
                    i as int,
                    r,
                    identity,
                ) by {}
            }
            if let Ok(rows) = &query.outcome {
                for r in 0..rows.len()
                    invariant
                        0 <= i < self.queries@.len(),
                        query == self.queries@[i as int],
                        query.outcome is Ok,
                        *rows == query.outcome->Ok_0,
                        targets@.no_duplicates(),
                        forall|identity: SocketIdentity|
                            was.contains(identity) ==> #[trigger] targets@.contains(identity),
                        forall|identity: SocketIdentity| #[trigger]
                            targets@.contains(identity) ==> was.contains(identity) || exists|k: int|
                                0 <= k < r && #[trigger] is_target_at(
                                    self.queries@,
                                    i as int,
                                    k,
                                    identity,
                                ),
                        forall|k: int, identity: SocketIdentity|
                            0 <= k < r && #[trigger] is_target_at(
                                self.queries@,
                                i as int,
                                k,
                                identity,
                            ) ==> targets@.contains(identity),
                {
                    let identity = rows[r].identity;
                    if identity.is_matchable() {
                        assert(is_target_at(self.queries@, i as int, r as int, identity));
                        if !holds(&targets, &identity) {
                            let ghost shorter = targets@;
                            targets.push(identity);
                            proof {
                                assert(targets@.last() == identity);
                                assert(targets@.contains(identity));
                                assert forall|other: SocketIdentity| #[trigger]
                                    targets@.contains(other) implies shorter.contains(other)
                                    || other == identity by {
                                    let k = choose|k: int|
                                        0 <= k < targets@.len() && targets@[k] == other;
                                    if k < shorter.len() {
                                        assert(shorter[k] == other);
                                    }
                                }
                                assert forall|other: SocketIdentity|
                                    shorter.contains(other) implies #[trigger] targets@.contains(
                                    other,
                                ) by {
                                    let k = choose|k: int|
                                        0 <= k < shorter.len() && shorter[k] == other;
                                    assert(targets@[k] == other);
                                }
                            }
                        }
                    }
                }
            }
            proof {
                assert forall|identity: SocketIdentity| #[trigger]
                    targets@.contains(identity) <==> is_target(after, identity) by {
                    if is_target(after, identity) {
                        let (q, r) = choose|q: int, r: int| is_target_at(after, q, r, identity);
                        if q < i {
                            assert(is_target_at(before, q, r, identity));
                            assert(is_target(before, identity));
                            assert(was.contains(identity));
                        } else {
                            assert(is_target_at(self.queries@, i as int, r, identity));
                        }
                    }
                    if targets@.contains(identity) {
                        if was.contains(identity) {
                            let (q, r) = choose|q: int, r: int|
                                is_target_at(before, q, r, identity);
                            assert(is_target_at(after, q, r, identity));
                        } else {
                            let k = choose|k: int| #[trigger]
                                is_target_at(self.queries@, i as int, k, identity);
                            assert(is_target_at(after, i as int, k, identity));
                        }
                    }
                }
            }
        }
        assert(self.queries@.take(self.queries@.len() as int) =~= self.queries@);
        targets
    }
}

/// Whether a row of a query that completed is a socket that can be found again.
pub open spec fn is_target_at(
    queries: Seq<SocketQuery>,
    q: int,
    r: int,
    identity: SocketIdentity,
) -> bool {
    &&& 0 <= q < queries.len()
    &&& queries[q].outcome matches Ok(rows)
    &&& 0 <= r < rows@.len()
    &&& rows@[r].identity == identity
    &&& identity.matchable()
}

/// Whether a socket that can be found again is among the rows of the queries.
pub open spec fn is_target(queries: Seq<SocketQuery>, identity: SocketIdentity) -> bool {
    exists|q: int, r: int| is_target_at(queries, q, r, identity)
}

/// What is reported of a TCP connection; a socket that listens or only waits for its
/// end is none.
pub open spec fn connection_info(socket: RawSocket) -> Option<SocketTcpInfo> {
    if socket.protocol == SocketProtocol::Tcp && socket.state != 6 && socket.state != 10 {
        socket.tcp_info
    } else {
        None
    }
}

fn connection_tcp_info(socket: &RawSocket) -> (info: Option<SocketTcpInfo>)
    ensures
        info == connection_info(*socket),
{
    if socket.protocol == SocketProtocol::Tcp && socket.state != 6 && socket.state != 10 {
        socket.tcp_info
    } else {
        None
    }
}

pub open spec fn widened(value: Option<u32>) -> Option<u64> {
    match value {
        Some(value) => Some(value as u64),
        None => None,
    }
}

fn widen(value: Option<u32>) -> (wide: Option<u64>)
    ensures
        wide == widened(value),
{
    match value {
        Some(value) => Some(value as u64),
        None => None,
    }
}

/// The counters of a socket that are compared with the next observation.
pub open spec fn counters_of(socket: RawSocket) -> PreviousCounters {
    let drops = match socket.memory {
        Some(memory) => Some(memory.drops as u64),
        None => None,
    };
    match connection_info(socket) {
        Some(info) => PreviousCounters {
            receive_segments: widened(info.segments_in),
            receive_bytes: info.bytes_received,
            send_segments: widened(info.segments_out),
            send_bytes: info.bytes_acked,
            total_retransmitted_segments: Some(info.total_retransmitted_segments as u64),
            drops,
            busy_micros: info.busy_time_micros,
            rwnd_micros: info.receive_window_limited_micros,
            sndbuf_micros: info.send_buffer_limited_micros,
        },
        None => PreviousCounters {
            receive_segments: None,
            receive_bytes: None,
            send_segments: None,
            send_bytes: None,
            total_retransmitted_segments: None,
            drops,
            busy_micros: None,
            rwnd_micros: None,
            sndbuf_micros: None,
        },
    }
}

fn raw_counters(socket: &RawSocket) -> (counters: PreviousCounters)
    ensures
        counters == counters_of(*socket),
{
    let drops: Option<u64> = match socket.memory {
        Some(memory) => Some(memory.drops as u64),
        None => None,
    };
    match connection_tcp_info(socket) {
        Some(info) => PreviousCounters {
            receive_segments: widen(info.segments_in),
            receive_bytes: info.bytes_received,
            send_segments: widen(info.segments_out),
            send_bytes: info.bytes_acked,
            total_retransmitted_segments: Some(info.total_retransmitted_segments as u64),
            drops,
            busy_micros: info.busy_time_micros,
            rwnd_micros: info.receive_window_limited_micros,
            sndbuf_micros: info.send_buffer_limited_micros,
        },
        None => PreviousCounters {
            receive_segments: None,
            receive_bytes: None,
            send_segments: None,
            send_bytes: None,
            total_retransmitted_segments: None,
            drops,
            busy_micros: None,
            rwnd_micros: None,
            sndbuf_micros: None,
        },
    }
}

/// A socket as it is shown.
#[derive(Clone, PartialEq, Eq)]
pub struct InetSocketSnapshot {
    pub row_key: SocketRowKey,
    pub family: SocketFamily,
    pub protocol: SocketProtocol,
    pub state: String,
    pub local: SocketEndpoint,
    pub remote: SocketEndpoint,
    pub bound_ifindex: u32,
    pub expires_millis: u32,
    pub receive_queue: u32,
    pub send_queue: u32,
    pub uid: u32,
    pub owners: Vec<SocketOwner>,
    pub congestion_algorithm: Option<String>,
    pub memory: Option<SocketMemoryDiagnostics>,
    pub tcp: Option<SocketTcpDiagnostics>,
    pub receive: SocketTraffic,
    pub send: SocketTraffic,
    pub drops: Option<u64>,
    pub drop_interval: Option<CounterSpan>,
    pub retransmits: u8,
    pub sort_inode: u32,
}

/// A shown socket as contracts speak of it.
pub struct SocketModel {
    pub row_key: SocketRowKey,
    pub family: SocketFamily,
    pub protocol: SocketProtocol,
    pub state: Seq<char>,
    pub local: SocketEndpoint,
    pub remote: SocketEndpoint,
    pub bound_ifindex: u32,
    pub expires_millis: u32,
    pub receive_queue: u32,
    pub send_queue: u32,
    pub uid: u32,
    pub owners: Seq<OwnerModel>,
    pub congestion_algorithm: Option<Seq<char>>,
    pub memory: Option<SocketMemoryDiagnostics>,
    pub tcp: Option<SocketTcpDiagnostics>,
    pub receive: SocketTraffic,
    pub send: SocketTraffic,
    pub drops: Option<u64>,
    pub drop_interval: Option<CounterSpan>,
    pub retransmits: u8,
    pub sort_inode: u32,
}

impl DeepView for InetSocketSnapshot {
    type V = SocketModel;

    open spec fn deep_view(&self) -> SocketModel {
        SocketModel {
            row_key: self.row_key,
            family: self.family,
            protocol: self.protocol,
            state: self.state@,
            local: self.local,
            remote: self.remote,
            bound_ifindex: self.bound_ifindex,
            expires_millis: self.expires_millis,
            receive_queue: self.receive_queue,
            send_queue: self.send_queue,
            uid: self.uid,
            owners: self.owners.deep_view(),
            congestion_algorithm: text::optional_text(self.congestion_algorithm),
            memory: self.memory,
            tcp: self.tcp,
            receive: self.receive,
            send: self.send,
            drops: self.drops,
            drop_interval: self.drop_interval,
            retransmits: self.retransmits,
            sort_inode: self.sort_inode,
        }
    }
}

impl InetSocketSnapshot {
    pub fn copy(&self) -> (socket: InetSocketSnapshot)
        ensures
            socket.deep_view() == self.deep_view(),
    {
        InetSocketSnapshot {
            row_key: self.row_key,
            family: self.family,
            protocol: self.protocol,
            state: owned(self.state.as_str()),
            local: self.local,
            remote: self.remote,
            bound_ifindex: self.bound_ifindex,
            expires_millis: self.expires_millis,
            receive_queue: self.receive_queue,
            send_queue: self.send_queue,
            uid: self.uid,
            owners: copy_owners(&self.owners),
            congestion_algorithm: copy_option(&self.congestion_algorithm),
            memory: self.memory,
            tcp: self.tcp,
            receive: self.receive,
            send: self.send,
            drops: self.drops,
            drop_interval: self.drop_interval,
            retransmits: self.retransmits,
            sort_inode: self.sort_inode,
        }
    }

    /// Whether the socket waits for connections.
    pub fn is_tcp_listener(&self) -> (listens: bool)
        ensures
            listens == (self.protocol == SocketProtocol::Tcp && self.state@ == "LISTEN"@),
    {
        self.protocol == SocketProtocol::Tcp && same_text(self.state.as_str(), "LISTEN")
    }

    /// Whether a process can hold the socket: without an inode none can.
    pub fn owner_lookup_applicable(&self) -> (applicable: bool)
        ensures
            applicable == (self.sort_inode != 0),
    {
        self.sort_inode != 0
    }

    fn interval_bytes(&self) -> (bytes: u64)
        ensures
            bytes == self.deep_view().bytes_moved(),
    {
        span_delta(self.receive.byte_interval).saturating_add(
            span_delta(self.send.byte_interval),
        )
    }

    fn interval_segments(&self) -> (segments: u64)
        ensures
            segments == self.deep_view().segments_moved(),
    {
        span_delta(self.receive.segment_interval).saturating_add(
            span_delta(self.send.segment_interval),
        )
    }
}

fn span_delta(span: Option<CounterSpan>) -> (delta: u64)
    ensures
        delta == sockets::delta_of(span),
{
    match span {
        Some(span) => span.delta,
        None => 0,
    }
}

impl SocketModel {
    /// What the socket sent and received in the interval.
    pub open spec fn bytes_moved(self) -> u64 {
        series::capped_sum(
            sockets::delta_of(self.receive.byte_interval),
            sockets::delta_of(self.send.byte_interval),
        )
    }

    pub open spec fn segments_moved(self) -> u64 {
        series::capped_sum(
            sockets::delta_of(self.receive.segment_interval),
            sockets::delta_of(self.send.segment_interval),
        )
    }
}

/// A counter of the observation before, if there is one.
pub open spec fn before_of(
    previous: Option<PreviousCounters>,
    counter: spec_fn(PreviousCounters) -> Option<u64>,
) -> Option<u64> {
    match previous {
        Some(previous) => counter(previous),
        None => None,
    }
}

/// A socket as it is shown, with what changed since the observation before.
pub open spec fn socket_of(
    socket: RawSocket,
    previous: Option<PreviousCounters>,
    elapsed: Option<Nanos>,
    owners: Seq<OwnerModel>,
    sequence: u64,
    ordinal: usize,
) -> SocketModel {
    let counters = counters_of(socket);
    SocketModel {
        row_key: SocketRowKey::of(socket.identity, sequence, ordinal),
        family: socket.family,
        protocol: socket.protocol,
        state: sockets::state_name(socket.protocol, socket.state),
        local: socket.local,
        remote: socket.remote,
        bound_ifindex: socket.bound_ifindex,
        expires_millis: socket.expires_millis,
        receive_queue: socket.receive_queue,
        send_queue: socket.send_queue,
        uid: socket.uid,
        owners,
        congestion_algorithm: if connection_info(socket) is Some {
            text::optional_text(socket.congestion_algorithm)
        } else {
            None
        },
        memory: socket.memory,
        tcp: match connection_info(socket) {
            Some(info) => Some(
                SocketTcpDiagnostics {
                    limit_interval: sockets::interval_between(counters, previous, elapsed),
                    ..sockets::diagnostics_of(
                        info,
                        sockets::span_of(
                            counters.total_retransmitted_segments,
                            before_of(previous, |c: PreviousCounters| c.total_retransmitted_segments),
                            elapsed,
                        ),
                    )
                },
            ),
            None => None,
        },
        receive: SocketTraffic {
            segments: counters.receive_segments,
            bytes: counters.receive_bytes,
            segment_interval: sockets::span_of(
                counters.receive_segments,
                before_of(previous, |c: PreviousCounters| c.receive_segments),
                elapsed,
            ),
            byte_interval: sockets::span_of(
                counters.receive_bytes,
                before_of(previous, |c: PreviousCounters| c.receive_bytes),
                elapsed,
            ),
        },
        send: SocketTraffic {
            segments: counters.send_segments,
            bytes: counters.send_bytes,
            segment_interval: sockets::span_of(
                counters.send_segments,
                before_of(previous, |c: PreviousCounters| c.send_segments),
                elapsed,
            ),
            byte_interval: sockets::span_of(
                counters.send_bytes,
                before_of(previous, |c: PreviousCounters| c.send_bytes),
                elapsed,
            ),
        },
        drops: counters.drops,
        drop_interval: sockets::span_of(
            counters.drops,
            before_of(previous, |c: PreviousCounters| c.drops),
            elapsed,
        ),
        retransmits: socket.retransmits,
        sort_inode: socket.identity.inode,
    }
}

/// A socket as it is shown, with what changed since the observation before.
pub fn project_socket(
    socket: &RawSocket,
    previous: Option<PreviousCounters>,
    elapsed: Option<Nanos>,
    processes: &Vec<SocketProcess>,
    sequence: u64,
    ordinal: usize,
) -> (snapshot: InetSocketSnapshot)
    ensures
        snapshot.deep_view() == socket_of(
            *socket,
            previous,
            elapsed,
            sockets::owners_of(processes.deep_view()),
            sequence,
            ordinal,
        ),
{
    let counters = raw_counters(socket);
    let info = connection_tcp_info(socket);
    let before = match previous {
        Some(previous) => previous,
        None => PreviousCounters {
            receive_segments: None,
            receive_bytes: None,
            send_segments: None,
            send_bytes: None,
            total_retransmitted_segments: None,
            drops: None,
            busy_micros: None,
            rwnd_micros: None,
            sndbuf_micros: None,
        },
    };
    let tcp = match info {
        Some(info) => {
            let mut diagnostics = project_tcp_diagnostics(
                info,
                project_counter(
                    counters.total_retransmitted_segments,
                    before.total_retransmitted_segments,
                    elapsed,
                ),
            );
            diagnostics.limit_interval = SocketLimitInterval::between(&counters, previous, elapsed);
            Some(diagnostics)
        },
        None => None,
    };
    InetSocketSnapshot {
        row_key: SocketRowKey::new(&socket.identity, sequence, ordinal),
        family: socket.family,
        protocol: socket.protocol,
        state: socket_state(socket.protocol, socket.state),
        local: socket.local,
        remote: socket.remote,
        bound_ifindex: socket.bound_ifindex,
        expires_millis: socket.expires_millis,
        receive_queue: socket.receive_queue,
        send_queue: socket.send_queue,
        uid: socket.uid,
        owners: project_owners(processes),
        congestion_algorithm: if info.is_some() {
            copy_option(&socket.congestion_algorithm)
        } else {
            None
        },
        memory: socket.memory,
        tcp,
        receive: SocketTraffic {
            segments: counters.receive_segments,
            bytes: counters.receive_bytes,
            segment_interval: project_counter(
                counters.receive_segments,
                before.receive_segments,
                elapsed,
            ),
            byte_interval: project_counter(counters.receive_bytes, before.receive_bytes, elapsed),
        },
        send: SocketTraffic {
            segments: counters.send_segments,
            bytes: counters.send_bytes,
            segment_interval: project_counter(
                counters.send_segments,
                before.send_segments,
                elapsed,
            ),
            byte_interval: project_counter(counters.send_bytes, before.send_bytes, elapsed),
        },
        drops: counters.drops,
        drop_interval: project_counter(counters.drops, before.drops, elapsed),
        retransmits: socket.retransmits,
        sort_inode: socket.identity.inode,
    }
}

pub open spec fn protocol_rank(protocol: SocketProtocol) -> int {
    match protocol {
        SocketProtocol::Tcp => 0,
        SocketProtocol::Udp => 1,
    }
}

pub open spec fn family_rank(family: SocketFamily) -> int {
    match family {
        SocketFamily::Ipv4 => 0,
        SocketFamily::Ipv6 => 1,
    }
}

fn protocol_number(protocol: SocketProtocol) -> (rank: u128)
    ensures
        rank == protocol_rank(protocol),
{
    match protocol {
        SocketProtocol::Tcp => 0,
        SocketProtocol::Udp => 1,
    }
}

fn family_number(family: SocketFamily) -> (rank: u128)
    ensures
        rank == family_rank(family),
{
    match family {
        SocketFamily::Ipv4 => 0,
        SocketFamily::Ipv6 => 1,
    }
}

impl Ordered for InetSocketSnapshot {
    /// The sockets that moved most come first.
    open spec fn key(row: SocketModel) -> Seq<int> {
        let bytes: int = u64::MAX - row.bytes_moved();
        let segments: int = u64::MAX - row.segments_moved();
        seq![
            bytes,
            segments,
            protocol_rank(row.protocol),
            family_rank(row.family),
            row.local.address.rank(),
            row.local.address.number(),
            row.local.port as int,
            row.remote.address.rank(),
            row.remote.address.number(),
            row.remote.port as int,
            row.sort_inode as int,
        ]
    }

    proof fn keys_have_one_length(a: SocketModel, b: SocketModel) {
    }

    fn sort_key(&self) -> (key: Vec<u128>) {
        let bytes: u64 = u64::MAX - self.interval_bytes();
        let segments: u64 = u64::MAX - self.interval_segments();
        let key: Vec<u128> = vec![
            bytes as u128,
            segments as u128,
            protocol_number(self.protocol),
            family_number(self.family),
            self.local.address.rank_of(),
            self.local.address.number_of(),
            self.local.port as u128,
            self.remote.address.rank_of(),
            self.remote.address.number_of(),
            self.remote.port as u128,
            self.sort_inode as u128,
        ];
        assert(ordering::ints(key@) =~= Self::key(self.deep_view()));
        key
    }

    fn copied(&self) -> (row: InetSocketSnapshot) {
        self.copy()
    }
}

/// The sockets that are shown: the first ones in order.
pub open spec fn displayed(all: Seq<SocketModel>) -> Seq<SocketModel> {
    ordering::first_in_order::<InetSocketSnapshot>(all, MAX_DISPLAYED_SOCKETS as int)
}

/// Of two sockets, the one that moved more bytes comes first, and among equals the
/// one that moved more segments.
pub proof fn more_active_sockets_come_first(a: SocketModel, b: SocketModel)
    ensures
        a.bytes_moved() > b.bytes_moved() ==> ordering::key_order::<InetSocketSnapshot>()(a, b),
        a.bytes_moved() == b.bytes_moved() && a.segments_moved() > b.segments_moved()
            ==> ordering::key_order::<InetSocketSnapshot>()(a, b),
{
    reveal_with_fuel(seqs::lex_before, 3);
    let x = InetSocketSnapshot::key(a);
    let y = InetSocketSnapshot::key(b);
    assert(x.len() == 11);
    assert(x[0] == u64::MAX - a.bytes_moved() && y[0] == u64::MAX - b.bytes_moved());
    assert(x[1] == u64::MAX - a.segments_moved() && y[1] == u64::MAX - b.segments_moved());
}

/// The monitor's code of a failed query.
pub open spec fn error_code(kind: CollectErrorKind) -> MonitorErrorCode {
    match kind {
        CollectErrorKind::PermissionDenied => MonitorErrorCode::PermissionDenied,
        CollectErrorKind::Unsupported => MonitorErrorCode::Unsupported,
        CollectErrorKind::Io => MonitorErrorCode::Io,
        CollectErrorKind::Loss => MonitorErrorCode::OutputLimit,
        CollectErrorKind::Interrupted => MonitorErrorCode::Timeout,
        CollectErrorKind::Malformed => MonitorErrorCode::SchemaMismatch,
    }
}

pub fn collect_error_code(kind: CollectErrorKind) -> (code: MonitorErrorCode)
    ensures
        code == error_code(kind),
{
    match kind {
        CollectErrorKind::PermissionDenied => MonitorErrorCode::PermissionDenied,
        CollectErrorKind::Unsupported => MonitorErrorCode::Unsupported,
        CollectErrorKind::Io => MonitorErrorCode::Io,
        CollectErrorKind::Loss => MonitorErrorCode::OutputLimit,
        CollectErrorKind::Interrupted => MonitorErrorCode::Timeout,
        CollectErrorKind::Malformed => MonitorErrorCode::SchemaMismatch,
    }
}

/// Which failures matter more than others.
pub open spec fn error_priority(kind: CollectErrorKind) -> int {
    match kind {
        CollectErrorKind::Malformed => 6,
        CollectErrorKind::Loss => 5,
        CollectErrorKind::Interrupted => 4,
        CollectErrorKind::PermissionDenied => 3,
        CollectErrorKind::Io => 2,
        CollectErrorKind::Unsupported => 1,
    }
}

fn collect_error_priority(kind: CollectErrorKind) -> (priority: u8)
    ensures
        priority == error_priority(kind),
{
    match kind {
        CollectErrorKind::Malformed => 6,
        CollectErrorKind::Loss => 5,
        CollectErrorKind::Interrupted => 4,
        CollectErrorKind::PermissionDenied => 3,
        CollectErrorKind::Io => 2,
        CollectErrorKind::Unsupported => 1,
    }
}

/// What is wrong when processes are not fully known.
pub open spec fn coverage_code(coverage: SocketProcessCoverage) -> Option<MonitorErrorCode> {
    match coverage {
        SocketProcessCoverage::Complete | SocketProcessCoverage::Pending => None,
        SocketProcessCoverage::Partial { permission_denied_processes, truncated, .. } => Some(
            if truncated {
                MonitorErrorCode::CardinalityLimit
            } else if permission_denied_processes > 0 {
                MonitorErrorCode::PermissionDenied
            } else {
                MonitorErrorCode::Io
            },
        ),
        SocketProcessCoverage::PermissionDenied => Some(MonitorErrorCode::PermissionDenied),
        SocketProcessCoverage::Unavailable => Some(MonitorErrorCode::Io),
    }
}

fn process_coverage_error_code(coverage: SocketProcessCoverage) -> (code: Option<MonitorErrorCode>)
    ensures
        code == coverage_code(coverage),
{
    match coverage {
        SocketProcessCoverage::Complete | SocketProcessCoverage::Pending => None,
        SocketProcessCoverage::Partial { permission_denied_processes, truncated, .. } => Some(
            if truncated {
                MonitorErrorCode::CardinalityLimit
            } else if permission_denied_processes > 0 {
                MonitorErrorCode::PermissionDenied
            } else {
                MonitorErrorCode::Io
            },
        ),
        SocketProcessCoverage::PermissionDenied => Some(MonitorErrorCode::PermissionDenied),
        SocketProcessCoverage::Unavailable => Some(MonitorErrorCode::Io),
    }
}

/// What a warning is about: a query that failed before rows that were left out, and
/// these before processes that are not known.
pub open spec fn warning_code(
    primary: Option<CollectErrorKind>,
    truncated: bool,
    coverage: SocketProcessCoverage,
) -> MonitorErrorCode {
    match primary {
        Some(kind) => error_code(kind),
        None => if truncated {
            MonitorErrorCode::CardinalityLimit
        } else {
            match coverage_code(coverage) {
                Some(code) => code,
                None => MonitorErrorCode::Internal,
            }
        },
    }
}

pub fn collection_warning_code(
    primary: Option<CollectErrorKind>,
    truncated: bool,
    coverage: SocketProcessCoverage,
) -> (code: MonitorErrorCode)
    ensures
        code == warning_code(primary, truncated, coverage),
{
    match primary {
        Some(kind) => collect_error_code(kind),
        None => if truncated {
            MonitorErrorCode::CardinalityLimit
        } else {
            match process_coverage_error_code(coverage) {
                Some(code) => code,
                None => MonitorErrorCode::Internal,
            }
        },
    }
}

/// The failure that matters most among the first `n`; the last one of several.
pub open spec fn primary_upto(errors: Seq<(CollectErrorKind, Seq<char>)>, n: int) -> Option<int>
    decreases n,
{
    if n <= 0 {
        None
    } else {
        match primary_upto(errors, n - 1) {
            Some(i) => if error_priority(errors[n - 1].0) >= error_priority(errors[i].0) {
                Some(n - 1)
            } else {
                Some(i)
            },
            None => Some(n - 1),
        }
    }
}

/// Whether the first `n` failures are all of one kind.
pub open spec fn all_are(
    errors: Seq<(CollectErrorKind, Seq<char>)>,
    kind: CollectErrorKind,
    n: int,
) -> bool {
    forall|i: int| 0 <= i < n ==> (#[trigger] errors[i]).0 == kind
}

/// What is said of the failure that matters most.
pub open spec fn primary_text(errors: Seq<(CollectErrorKind, Seq<char>)>) -> Seq<char> {
    match primary_upto(errors, errors.len() as int) {
        Some(i) => "; primary failure: "@ + errors[i].1,
        None => Seq::empty(),
    }
}

pub open spec fn primary_kind(errors: Seq<(CollectErrorKind, Seq<char>)>) -> Option<CollectErrorKind> {
    match primary_upto(errors, errors.len() as int) {
        Some(i) => Some(errors[i].0),
        None => None,
    }
}

pub open spec fn partial_text(
    completed: nat,
    errors: Seq<(CollectErrorKind, Seq<char>)>,
    truncated: bool,
    coverage: SocketProcessCoverage,
) -> Seq<char> {
    "socket queries "@ + text::decimal(completed) + "/"@ + text::decimal(QUERY_COUNT as nat)
        + "; failed "@ + text::decimal(errors.len()) + "; truncated "@ + sockets::yes_or_no(
        truncated,
    ) + "; process map "@ + coverage.text() + primary_text(errors)
}

pub open spec fn failed_text(errors: Seq<(CollectErrorKind, Seq<char>)>) -> Seq<char> {
    "all socket diagnostic queries failed ("@ + text::decimal(errors.len()) + ")"@ + primary_text(
        errors,
    )
}

/// The code of a collection in which every query failed.
pub open spec fn failed_code(
    errors: Seq<(CollectErrorKind, Seq<char>)>,
    truncated: bool,
    coverage: SocketProcessCoverage,
) -> MonitorErrorCode {
    if errors.len() > 0 && all_are(
        errors,
        CollectErrorKind::PermissionDenied,
        errors.len() as int,
    ) {
        MonitorErrorCode::PermissionDenied
    } else if errors.len() > 0 && all_are(
        errors,
        CollectErrorKind::Unsupported,
        errors.len() as int,
    ) {
        MonitorErrorCode::Unsupported
    } else {
        warning_code(primary_kind(errors), truncated, coverage)
    }
}

/// How a collection went. That processes are still being looked for is no fault.
pub open spec fn health_of(
    completed: nat,
    errors: Seq<(CollectErrorKind, Seq<char>)>,
    truncated: bool,
    coverage: SocketProcessCoverage,
) -> ProviderHealth<Seq<char>> {
    if completed == QUERY_COUNT && errors.len() == 0 && !truncated && (coverage is Complete
        || coverage is Pending) {
        ProviderHealth::Fresh
    } else if completed > 0 {
        ProviderHealth::Partial {
            warning: MonitorError {
                code: warning_code(primary_kind(errors), truncated, coverage),
                diagnostic: diagnostics::shown_text(partial_text(completed, errors, truncated, coverage)),
            },
        }
    } else {
        let code = failed_code(errors, truncated, coverage);
        let error = MonitorError { code, diagnostic: diagnostics::shown_text(failed_text(errors)) };
        match code {
            MonitorErrorCode::PermissionDenied => ProviderHealth::PermissionDenied {
                reason: error,
            },
            MonitorErrorCode::Unsupported => ProviderHealth::Unsupported { reason: error },
            _ => ProviderHealth::Error { error },
        }
    }
}

fn all_errors_are(errors: &Vec<CollectError>, kind: CollectErrorKind) -> (result: bool)
    ensures
        result == all_are(errors.deep_view(), kind, errors.deep_view().len() as int),
{
    let ghost all = errors.deep_view();
    assert(all.len() == errors@.len());
    for i in 0..errors.len()
        invariant
            all == errors.deep_view(),
            all.len() == errors@.len(),
            all_are(all, kind, i as int),
    {
        assert(all[i as int] == errors@[i as int].deep_view());
        if errors[i].kind != kind {
            return false;
        }
    }
    true
}

fn primary_error(errors: &Vec<CollectError>) -> (primary: Option<usize>)
    ensures
        match primary {
            Some(i) => i < errors@.len() && primary_upto(
                errors.deep_view(),
                errors.deep_view().len() as int,
            ) == Some(i as int),
            None => primary_upto(errors.deep_view(), errors.deep_view().len() as int) is None,
        },
{
    let ghost all = errors.deep_view();
    assert(all.len() == errors@.len());
    let mut primary: Option<usize> = None;
    for i in 0..errors.len()
        invariant
            all == errors.deep_view(),
            all.len() == errors@.len(),
            match primary {
                Some(k) => k < i && primary_upto(all, i as int) == Some(k as int),
                None => primary_upto(all, i as int) is None,
            },
    {
        assert(all[i as int] == errors@[i as int].deep_view());
        primary = match primary {
            Some(k) => {
                assert(all[k as int] == errors@[k as int].deep_view());
                if collect_error_priority(errors[i].kind) >= collect_error_priority(errors[k].kind) {
                    Some(i)
                } else {
                    Some(k)
                }
            },
            None => Some(i),
        };
    }
    primary
}

/// How a collection went. That processes are still being looked for is no fault.
pub fn collection_health(
    completed_queries: usize,
    errors: &Vec<CollectError>,
    truncated: bool,
    coverage: SocketProcessCoverage,
) -> (health: ProviderHealth<String>)
    ensures
        health.deep_view() == health_of(
            completed_queries as nat,
            errors.deep_view(),
            truncated,
            coverage,
        ),
{
    let ghost all = errors.deep_view();
    assert(all.len() == errors@.len());
    let known: bool = match coverage {
        SocketProcessCoverage::Complete | SocketProcessCoverage::Pending => true,
        _ => false,
    };
    if completed_queries == QUERY_COUNT && errors.len() == 0 && !truncated && known {
        return ProviderHealth::Fresh;
    }
    let mut cause = String::new();
    let primary: Option<CollectErrorKind> = match primary_error(errors) {
        Some(i) => {
            assert(all[i as int] == errors@[i as int].deep_view());
            cause = owned("; primary failure: ");
            cause.append(errors[i].message.as_str());
            Some(errors[i].kind)
        },
        None => None,
    };
    assert(cause@ =~= primary_text(all));
    let warning: MonitorErrorCode = collection_warning_code(primary, truncated, coverage);
    if completed_queries > 0 {
        let mut diagnostic = owned("socket queries ");
        push_decimal(&mut diagnostic, completed_queries as u128);
        diagnostic.append("/");
        push_decimal(&mut diagnostic, QUERY_COUNT as u128);
        diagnostic.append("; failed ");
        push_decimal(&mut diagnostic, errors.len() as u128);
        diagnostic.append("; truncated ");
        diagnostic.append(
            if truncated {
                "yes"
            } else {
                "no"
            },
        );
        diagnostic.append("; process map ");
        diagnostic.append(coverage.summary().as_str());
        diagnostic.append(cause.as_str());
        assert(diagnostic@ == partial_text(completed_queries as nat, all, truncated, coverage));
        return ProviderHealth::Partial {
            warning: MonitorError { code: warning, diagnostic: printable_text(diagnostic.as_str()) },
        };
    }
    let code: MonitorErrorCode = if errors.len() > 0 && all_errors_are(
        errors,
        CollectErrorKind::PermissionDenied,
    ) {
        MonitorErrorCode::PermissionDenied
    } else if errors.len() > 0 && all_errors_are(errors, CollectErrorKind::Unsupported) {
        MonitorErrorCode::Unsupported
    } else {
        warning
    };
    let mut diagnostic = owned("all socket diagnostic queries failed (");
    push_decimal(&mut diagnostic, errors.len() as u128);
    diagnostic.append(")");
    diagnostic.append(cause.as_str());
    assert(diagnostic@ == failed_text(all));
    let error = MonitorError { code, diagnostic: printable_text(diagnostic.as_str()) };
    match code {
        MonitorErrorCode::PermissionDenied => ProviderHealth::PermissionDenied { reason: error },
        MonitorErrorCode::Unsupported => ProviderHealth::Unsupported { reason: error },
        _ => ProviderHealth::Error { error },
    }
}

/// Whatever the queries said, what is reported of a collection is printable, not empty
/// and within the limit of diagnostics.
pub proof fn collection_diagnostics_are_bounded(
    completed: nat,
    errors: Seq<(CollectErrorKind, Seq<char>)>,
    truncated: bool,
    coverage: SocketProcessCoverage,
)
    ensures
        diagnostics::health_error(health_of(completed, errors, truncated, coverage)) matches Some(error)
            ==> model::all_printable(error.diagnostic) && 1 <= error.diagnostic.len()
            <= MAX_DIAGNOSTIC_BYTES,
{
    let a = partial_text(completed, errors, truncated, coverage);
    let b = failed_text(errors);
    reveal_strlit("socket queries ");
    reveal_strlit("all socket diagnostic queries failed (");
    assert(a[0] == 's');
    assert(b[0] == 'a');
    diagnostics::lemma_shown_text(a);
    diagnostics::lemma_shown_text(b);
}

/// An observation of a socket, and when its query was complete.
#[derive(Clone, Copy, Debug, PartialEq, Eq, Structural)]
pub struct PreviousObservation {
    pub completed_at: Nanos,
    pub counters: PreviousCounters,
}

impl DeepView for PreviousObservation {
    type V = PreviousObservation;

    open spec fn deep_view(&self) -> PreviousObservation {
        *self
    }
}

/// What the rows of a collection have come to so far.
pub ghost struct Projection {
    pub sockets: Seq<SocketModel>,
    pub next: Map<SocketIdentity, PreviousObservation>,
    pub completed: nat,
    pub errors: Seq<(CollectErrorKind, Seq<char>)>,
}

/// The observation before of a socket that can be found again.
pub open spec fn observation_before(
    previous: Map<SocketIdentity, PreviousObservation>,
    identity: SocketIdentity,
) -> Option<PreviousObservation> {
    if identity.matchable() && previous.contains_key(identity) {
        Some(previous[identity])
    } else {
        None
    }
}

/// The time between two observations, if there is any.
pub open spec fn time_since(before: Option<PreviousObservation>, completed_at: Nanos) -> Option<
    Nanos,
> {
    match before {
        Some(before) => if completed_at > before.completed_at {
            Some((completed_at - before.completed_at) as Nanos)
        } else {
            None
        },
        None => None,
    }
}

pub open spec fn counters_before(before: Option<PreviousObservation>) -> Option<PreviousCounters> {
    match before {
        Some(before) => Some(before.counters),
        None => None,
    }
}

/// What one more row adds.
pub open spec fn with_row(
    state: Projection,
    previous: Map<SocketIdentity, PreviousObservation>,
    owners: Map<SocketIdentity, Seq<ProcessModel>>,
    sequence: u64,
    completed_at: Nanos,
    row: RawSocket,
) -> Projection {
    let before = observation_before(previous, row.identity);
    Projection {
        sockets: state.sockets.push(
            socket_of(
                row,
                counters_before(before),
                time_since(before, completed_at),
                sockets::owners_of(owners::processes_of(owners, row.identity)),
                sequence,
                state.sockets.len() as usize,
            ),
        ),
        next: if row.identity.matchable() {
            state.next.insert(
                row.identity,
                PreviousObservation { completed_at, counters: counters_of(row) },
            )
        } else {
            state.next
        },
        ..state
    }
}

/// What the first `n` rows of a query add.
pub open spec fn with_rows(
    state: Projection,
    previous: Map<SocketIdentity, PreviousObservation>,
    owners: Map<SocketIdentity, Seq<ProcessModel>>,
    sequence: u64,
    completed_at: Nanos,
    rows: Seq<RawSocket>,
    n: int,
) -> Projection
    decreases n,
{
    if n <= 0 {
        state
    } else {
        with_row(
            with_rows(state, previous, owners, sequence, completed_at, rows, n - 1),
            previous,
            owners,
            sequence,
            completed_at,
            rows[n - 1],
        )
    }
}

/// What the first `n` queries come to.
pub open spec fn projected_upto(
    previous: Map<SocketIdentity, PreviousObservation>,
    owners: Map<SocketIdentity, Seq<ProcessModel>>,
    sequence: u64,
    queries: Seq<SocketQuery>,
    n: int,
) -> Projection
    decreases n,
{
    if n <= 0 {
        Projection {
            sockets: Seq::empty(),
            next: Map::empty(),
            completed: 0,
            errors: Seq::empty(),
        }
    } else {
        let before = projected_upto(previous, owners, sequence, queries, n - 1);
        match queries[n - 1].outcome {
            Ok(rows) => {
                let state = Projection { completed: before.completed + 1, ..before };
                with_rows(
                    state,
                    previous,
                    owners,
                    sequence,
                    queries[n - 1].completed_at,
                    rows@,
                    rows@.len() as int,
                )
            },
            Err(error) => Projection {
                errors: before.errors.push(error.deep_view()),
                ..before
            },
        }
    }
}

/// The sockets of one moment.
#[derive(Clone, PartialEq, Eq)]
pub struct SocketTableSnapshot {
    pub sequence: u64,
    pub attempted_at: Nanos,
    pub collection_duration: Nanos,
    pub health: ProviderHealth<String>,
    pub completed_queries: usize,
    pub failed_queries: usize,
    pub observed_sockets: usize,
    pub truncated: bool,
    pub process_coverage: SocketProcessCoverage,
    pub process_map_age: Option<Nanos>,
    pub process_map_refreshing: bool,
    pub scanned_processes: usize,
    pub scanned_fds: usize,
    pub sockets: Vec<InetSocketSnapshot>,
}

/// Whether a row has a key.
pub open spec fn has_key(key: SocketRowKey) -> spec_fn(SocketModel) -> bool {
    |socket: SocketModel| socket.row_key == key
}

impl SocketTableSnapshot {
    /// The first row with a key.
    pub open spec fn row(&self, key: SocketRowKey) -> Option<SocketModel> {
        let all = self.sockets.deep_view();
        match seqs::first_where(all, has_key(key), all.len() as int) {
            Some(i) => Some(all[i]),
            None => None,
        }
    }

    pub fn socket(&self, key: &SocketRowKey) -> (found: Option<&InetSocketSnapshot>)
        ensures
            match found {
                Some(socket) => self.row(*key) == Some(socket.deep_view()),
                None => self.row(*key) is None,
            },
    {
        let ghost all = self.sockets.deep_view();
        let ghost wanted = has_key(*key);
        assert(all.len() == self.sockets@.len());
        for i in 0..self.sockets.len()
            invariant
                all == self.sockets.deep_view(),
                all.len() == self.sockets@.len(),
                wanted == has_key(*key),
                seqs::first_where(all, wanted, i as int) is None,
        {
            assert(all[i as int] == self.sockets@[i as int].deep_view());
            if self.sockets[i].row_key.same(key) {
                proof {
                    seqs::lemma_first_where_stays(all, wanted, i + 1, all.len() as int);
                }
                return Some(&self.sockets[i]);
            }
        }
        None
    }

    pub open spec fn map_of(&self) -> ProcessMap {
        ProcessMap {
            coverage: self.process_coverage,
            age: self.process_map_age,
            refreshing: self.process_map_refreshing,
        }
    }

    pub fn process_map(&self) -> (map: ProcessMap)
        ensures
            map == self.map_of(),
    {
        ProcessMap {
            coverage: self.process_coverage,
            age: self.process_map_age,
            refreshing: self.process_map_refreshing,
        }
    }

    /// The process map in words. `seconds` is its age in seconds, as it is shown.
    pub fn process_map_summary(&self, seconds: &str) -> (summary: String)
        ensures
            summary@ == self.map_of().text(seconds@),
    {
        self.process_map().summary(seconds)
    }
}

/// What is remembered of the sockets of the collection before.
pub struct SocketProjector {
    pub previous: IdentityMap<PreviousObservation>,
}

impl SocketProjector {
    pub fn new() -> (projector: SocketProjector)
        ensures
            projector.previous@ == Map::<SocketIdentity, PreviousObservation>::empty(),
    {
        SocketProjector { previous: IdentityMap::new() }
    }

    /// Shows a collection, with what changed since the one before.
    pub fn project(
        &mut self,
        sequence: u64,
        attempted_at: Nanos,
        collection_duration: Nanos,
        bounded: BoundedCollection,
        process_scan: &OwnerSnapshot,
    ) -> (snapshot: SocketTableSnapshot)
        ensures
            ({
                let result = projected_upto(
                    old(self).previous@,
                    process_scan.owners@,
                    sequence,
                    bounded.queries@,
                    bounded.queries@.len() as int,
                );
                &&& final(self).previous@ == if result.completed == 0 {
                    Map::<SocketIdentity, PreviousObservation>::empty()
                } else {
                    result.next
                }
                &&& snapshot.sequence == sequence
                &&& snapshot.attempted_at == attempted_at
                &&& snapshot.collection_duration == collection_duration
                &&& snapshot.health.deep_view() == health_of(
                    result.completed,
                    result.errors,
                    snapshot.truncated,
                    process_scan.coverage,
                )
                &&& snapshot.completed_queries == result.completed
                &&& snapshot.failed_queries == result.errors.len()
                &&& snapshot.observed_sockets == bounded.observed_sockets
                &&& snapshot.truncated == (bounded.truncated || result.sockets.len()
                    > MAX_DISPLAYED_SOCKETS)
                &&& snapshot.process_coverage == process_scan.coverage
                &&& snapshot.process_map_age == process_scan.age
                &&& snapshot.process_map_refreshing == process_scan.refreshing
                &&& snapshot.scanned_processes == process_scan.scanned_processes
                &&& snapshot.scanned_fds == process_scan.scanned_fds
                &&& snapshot.sockets.deep_view() == displayed(result.sockets)
            }),
    {
        let ghost previous = self.previous@;
        let ghost known = process_scan.owners@;
        let ghost queries = bounded.queries@;
        let mut next: IdentityMap<PreviousObservation> = IdentityMap::new();
        let mut completed_queries: usize = 0;
        let mut errors: Vec<CollectError> = Vec::new();
        let mut sockets: Vec<InetSocketSnapshot> = Vec::new();
        proof {
            assert(errors.deep_view() =~= Seq::<(CollectErrorKind, Seq<char>)>::empty());
            assert(sockets.deep_view() =~= Seq::<SocketModel>::empty());
        }
        for i in 0..bounded.queries.len()
            invariant
                *self == *old(self),
                previous == self.previous@,
                known == process_scan.owners@,
                queries == bounded.queries@,
                completed_queries <= i,
                projected_upto(previous, known, sequence, queries, i as int) == (Projection {
                    sockets: sockets.deep_view(),
                    next: next@,
                    completed: completed_queries as nat,
                    errors: errors.deep_view(),
                }),
        {
            let query = &bounded.queries[i];
            let ghost before = projected_upto(previous, known, sequence, queries, i as int);
            match &query.outcome {
                Ok(rows) => {
                    completed_queries += 1;
                    let ghost state = Projection { completed: before.completed + 1, ..before };
                    for r in 0..rows.len()
                        invariant
                            *self == *old(self),
                            previous == self.previous@,
                            known == process_scan.owners@,
                            with_rows(
                                state,
                                previous,
                                known,
                                sequence,
                                query.completed_at,
                                rows@,
                                r as int,
                            ) == (Projection {
                                sockets: sockets.deep_view(),
                                next: next@,
                                completed: completed_queries as nat,
                                errors: errors.deep_view(),
                            }),
                    {
                        let row = &rows[r];
                        let observed = if row.identity.is_matchable() {
                            match self.previous.get(&row.identity) {
                                Some(observation) => Some(*observation),
                                None => None,
                            }
                        } else {
                            None
                        };
                        assert(observed == observation_before(previous, row.identity));
                        let elapsed: Option<Nanos> = match observed {
                            Some(before) => if query.completed_at > before.completed_at {
                                Some(query.completed_at - before.completed_at)
                            } else {
                                None
                            },
                            None => None,
                        };
                        let counters = match observed {
                            Some(before) => Some(before.counters),
                            None => None,
                        };
                        let processes = process_scan.owners(&row.identity);
                        let ordinal: usize = sockets.len();
                        assert(sockets.deep_view().len() == sockets@.len());
                        let socket = project_socket(
                            row,
                            counters,
                            elapsed,
                            &processes,
                            sequence,
                            ordinal,
                        );
                        if row.identity.is_matchable() {
                            next.insert(
                                row.identity,
                                PreviousObservation {
                                    completed_at: query.completed_at,
                                    counters: raw_counters(row),
                                },
                            );
                        }
                        let ghost shorter = sockets;
                        sockets.push(socket);
                        proof {
                            seqs::lemma_deep_push(shorter, sockets);
                        }
                    }
                },
                Err(error) => {
                    let ghost shorter = errors;
                    errors.push(
                        CollectError { kind: error.kind, message: owned(error.message.as_str()) },
                    );
                    proof {
                        seqs::lemma_deep_push(shorter, errors);
                    }
                },
            }
        }
        assert(sockets.deep_view().len() == sockets@.len());
        assert(errors.deep_view().len() == errors@.len());
        let truncated: bool = bounded.truncated || sockets.len() > MAX_DISPLAYED_SOCKETS;
        let health = collection_health(
            completed_queries,
            &errors,
            truncated,
            process_scan.coverage,
        );
        if completed_queries == 0 {
            self.previous = IdentityMap::new();
        } else {
            self.previous = next;
        }
        SocketTableSnapshot {
            sequence,
            attempted_at,
            collection_duration,
            health,
            completed_queries,
            failed_queries: errors.len(),
            observed_sockets: bounded.observed_sockets,
            truncated,
            process_coverage: process_scan.coverage,
            process_map_age: process_scan.age,
            process_map_refreshing: process_scan.refreshing,
            scanned_processes: process_scan.scanned_processes,
            scanned_fds: process_scan.scanned_fds,
            sockets: first_rows(&sockets, MAX_DISPLAYED_SOCKETS),
        }
    }
}

/// What changed is only said of a socket that the collection before saw under the same
/// identity, at an earlier time.
pub proof fn rates_need_an_adjacent_observation(
    state: Projection,
    previous: Map<SocketIdentity, PreviousObservation>,
    owners: Map<SocketIdentity, Seq<ProcessModel>>,
    sequence: u64,
    completed_at: Nanos,
    row: RawSocket,
)
    ensures
        ({
            let socket = with_row(
                state,
                previous,
                owners,
                sequence,
                completed_at,
                row,
            ).sockets.last();
            row.identity.cookie is None || !previous.contains_key(row.identity)
                || previous[row.identity].completed_at >= completed_at ==> {
                &&& socket.receive.segment_interval is None
                &&& socket.receive.byte_interval is None
                &&& socket.send.segment_interval is None
                &&& socket.send.byte_interval is None
                &&& socket.drop_interval is None
                &&& socket.tcp matches Some(tcp) ==> tcp.limit_interval is None
                    && tcp.total_retransmit_interval is None
            }
        }),
{
}

/// A socket that is looked at closely, for as long as it can be found.
pub struct SocketDetailState {
    pub key: SocketRowKey,
    pub opened_at: Nanos,
    pub last_at: Nanos,
    pub last_sequence: u64,
    pub observed_latest: bool,
    pub last_observed: InetSocketSnapshot,
    pub process_map: ProcessMap,
}

pub open spec fn later(a: Nanos, b: Nanos) -> Nanos {
    if a >= b {
        a
    } else {
        b
    }
}

fn latest_of(a: Nanos, b: Nanos) -> (latest: Nanos)
    ensures
        latest == later(a, b),
{
    if a >= b {
        a
    } else {
        b
    }
}

impl SocketDetailState {
    /// Begins to look at a socket of a snapshot.
    pub fn start(snapshot: &SocketTableSnapshot, key: SocketRowKey) -> (detail: Option<
        SocketDetailState,
    >)
        ensures
            match detail {
                Some(detail) => {
                    &&& snapshot.row(key) == Some(detail.last_observed.deep_view())
                    &&& detail.key == key
                    &&& detail.opened_at == snapshot.attempted_at
                    &&& detail.last_at == snapshot.attempted_at
                    &&& detail.last_sequence == snapshot.sequence
                    &&& detail.observed_latest
                    &&& detail.process_map == snapshot.map_of()
                },
                None => snapshot.row(key) is None,
            },
    {
        SocketDetailState::start_at(snapshot, snapshot, key, snapshot.attempted_at)
    }

    /// Begins to look at a socket that was selected in one snapshot, at a time when
    /// another one may be the latest.
    pub fn start_at(
        selected: &SocketTableSnapshot,
        initial: &SocketTableSnapshot,
        key: SocketRowKey,
        opened_at: Nanos,
    ) -> (detail: Option<SocketDetailState>)
        ensures
            match detail {
                Some(detail) => {
                    &&& selected.row(key) is Some
                    &&& detail.key == key
                    &&& detail.opened_at == later(opened_at, initial.attempted_at)
                    &&& detail.last_at == detail.opened_at
                    &&& detail.last_sequence == initial.sequence
                    &&& detail.observed_latest == (initial.row(key) is Some)
                    &&& detail.last_observed.deep_view() == match initial.row(key) {
                        Some(socket) => socket,
                        None => selected.row(key)->0,
                    }
                    &&& detail.process_map == if initial.row(key) is Some {
                        initial.map_of()
                    } else {
                        selected.map_of()
                    }
                },
                None => selected.row(key) is None,
            },
    {
        let chosen = match selected.socket(&key) {
            Some(socket) => socket,
            None => {
                return None;
            },
        };
        let opened_at: Nanos = latest_of(opened_at, initial.attempted_at);
        let (observed_latest, last_observed, process_map) = match initial.socket(&key) {
            Some(socket) => (true, socket.copy(), initial.process_map()),
            None => (false, chosen.copy(), selected.process_map()),
        };
        Some(
            SocketDetailState {
                key,
                opened_at,
                last_at: opened_at,
                last_sequence: initial.sequence,
                observed_latest,
                last_observed,
                process_map,
            },
        )
    }

    /// Takes a newer snapshot: the socket is followed by its key, and what was seen
    /// last stays when it is missing.
    pub fn record(&mut self, snapshot: &SocketTableSnapshot)
        ensures
            snapshot.sequence <= old(self).last_sequence ==> *final(self) == *old(self),
            snapshot.sequence > old(self).last_sequence ==> {
                &&& final(self).key == old(self).key
                &&& final(self).opened_at == old(self).opened_at
                &&& final(self).last_at == later(snapshot.attempted_at, old(self).last_at)
                &&& final(self).last_sequence == snapshot.sequence
                &&& final(self).observed_latest == (snapshot.row(old(self).key) is Some)
                &&& match snapshot.row(old(self).key) {
                    Some(socket) => final(self).last_observed.deep_view() == socket
                        && final(self).process_map == snapshot.map_of(),
                    None => final(self).last_observed == old(self).last_observed
                        && final(self).process_map == old(self).process_map,
                }
            },
    {
        if snapshot.sequence <= self.last_sequence {
            return;
        }
        match snapshot.socket(&self.key) {
            Some(socket) => {
                self.observed_latest = true;
                self.last_observed = socket.copy();
                self.process_map = snapshot.process_map();
            },
            None => {
                self.observed_latest = false;
            },
        }
        self.last_at = latest_of(snapshot.attempted_at, self.last_at);
        self.last_sequence = snapshot.sequence;
    }

    /// The process map in words. `seconds` is its age in seconds, as it is shown.
    pub fn process_map_summary(&self, seconds: &str) -> (summary: String)
        ensures
            summary@ == self.process_map.text(seconds@),
    {
        self.process_map.summary(seconds)
    }

    pub fn copy(&self) -> (detail: SocketDetailState)
        ensures
            detail.key == self.key,
            detail.opened_at == self.opened_at,
            detail.last_at == self.last_at,
            detail.last_sequence == self.last_sequence,
            detail.observed_latest == self.observed_latest,
            detail.last_observed.deep_view() == self.last_observed.deep_view(),
            detail.process_map == self.process_map,
    {
        SocketDetailState {
            key: self.key,
            opened_at: self.opened_at,
            last_at: self.last_at,
            last_sequence: self.last_sequence,
            observed_latest: self.observed_latest,
            last_observed: self.last_observed.copy(),
            process_map: self.process_map,
        }
    }
}

/// What a filter asks for.
#[derive(Clone, Copy, PartialEq, Eq, Structural)]
pub struct FilterTerms {
    pub host: Option<IpAddress>,
    pub port: Option<u16>,
    pub protocol: Option<SocketProtocol>,
}

/// A filter for sockets, as it was written and what it asks for.
#[derive(Clone, PartialEq, Eq)]
pub struct SocketFilter {
    pub query: String,
    pub terms: FilterTerms,
}

/// A word that begins a term, and what stands behind it.
pub open spec fn term_value(word: Seq<char>, name: Seq<char>) -> Option<Seq<char>> {
    if text::has_prefix(word, name) {
        Some(word.skip(name.len() as int))
    } else {
        None
    }
}

/// The terms with one word more, or what is wrong with it. No term may stand twice.
pub open spec fn with_term(terms: FilterTerms, word: Seq<char>) -> Result<FilterTerms, Seq<char>> {
    if let Some(value) = term_value(word, "host="@) {
        match (terms.host, addresses::address_in(value)) {
            (Some(_), _) => Err("filter term was specified more than once"@),
            (None, None) => Err("host must be an IPv4 or IPv6 address"@),
            (None, Some(host)) => Ok(FilterTerms { host: Some(host), ..terms }),
        }
    } else if let Some(value) = term_value(word, "port="@) {
        match (terms.port, addresses::number_in(value, false, 0xffff)) {
            (Some(_), _) => Err("filter term was specified more than once"@),
            (None, None) => Err("port must be between 0 and 65535"@),
            (None, Some(port)) => Ok(FilterTerms { port: Some(port as u16), ..terms }),
        }
    } else if let Some(value) = term_value(word, "proto="@) {
        if terms.protocol is Some {
            Err("filter term was specified more than once"@)
        } else if value == "tcp"@ {
            Ok(FilterTerms { protocol: Some(SocketProtocol::Tcp), ..terms })
        } else if value == "udp"@ {
            Ok(FilterTerms { protocol: Some(SocketProtocol::Udp), ..terms })
        } else {
            Err("proto must be tcp or udp"@)
        }
    } else {
        Err("unknown filter term"@)
    }
}

/// The terms that the first `n` words are.
pub open spec fn terms_upto(words: Seq<Seq<char>>, n: int) -> Result<FilterTerms, Seq<char>>
    decreases n,
{
    if n <= 0 {
        Ok(FilterTerms { host: None, port: None, protocol: None })
    } else {
        match terms_upto(words, n - 1) {
            Ok(terms) => with_term(terms, words[n - 1]),
            Err(message) => Err(message),
        }
    }
}

proof fn lemma_terms_fail(words: Seq<Seq<char>>, m: int, n: int)
    requires
        0 <= m <= n,
        terms_upto(words, m) is Err,
    ensures
        terms_upto(words, n) == terms_upto(words, m),
    decreases n - m,
{
    if m < n {
        lemma_terms_fail(words, m, n - 1);
    }
}

fn value_behind(word: &Vec<char>, name: &str) -> (value: Option<Vec<char>>)
    ensures
        match value {
            Some(value) => term_value(word@, name@) == Some(value@),
            None => term_value(word@, name@) is None,
        },
{
    let name_chars = chars_of(name);
    if name_chars.len() > word.len() {
        return None;
    }
    for i in 0..name_chars.len()
        invariant
            name_chars@ == name@,
            name_chars@.len() <= word@.len(),
            forall|j: int| 0 <= j < i ==> word@[j] == name@[j],
    {
        if word[i] != name_chars[i] {
            assert(word@.take(name@.len() as int)[i as int] != name@[i as int]);
            return None;
        }
    }
    assert(word@.take(name@.len() as int) =~= name@);
    let mut value: Vec<char> = Vec::new();
    for i in name_chars.len()..word.len()
        invariant
            name_chars@.len() <= i,
            value@ == word@.subrange(name_chars@.len() as int, i as int),
    {
        value.push(word[i]);
        assert(value@ =~= word@.subrange(name_chars@.len() as int, i + 1));
    }
    assert(value@ =~= word@.skip(name@.len() as int));
    Some(value)
}

/// A result whose error is a text, as contracts speak of it.
pub open spec fn told<A>(result: Result<A, &'static str>) -> Result<A, Seq<char>> {
    match result {
        Ok(value) => Ok(value),
        Err(message) => Err(message@),
    }
}

fn add_term(terms: FilterTerms, word: &Vec<char>) -> (result: Result<FilterTerms, &'static str>)
    ensures
        told(result) == with_term(terms, word@),
{
    if let Some(value) = value_behind(word, "host=") {
        if terms.host.is_some() {
            return Err("filter term was specified more than once");
        }
        return match read_address(&value) {
            Some(host) => Ok(
                FilterTerms { host: Some(host), port: terms.port, protocol: terms.protocol },
            ),
            None => Err("host must be an IPv4 or IPv6 address"),
        };
    }
    if let Some(value) = value_behind(word, "port=") {
        if terms.port.is_some() {
            return Err("filter term was specified more than once");
        }
        return match read_number(&value, false, 0xffff) {
            Some(port) => Ok(
                FilterTerms {
                    host: terms.host,
                    port: Some(port as u16),
                    protocol: terms.protocol,
                },
            ),
            None => Err("port must be between 0 and 65535"),
        };
    }
    if let Some(value) = value_behind(word, "proto=") {
        if terms.protocol.is_some() {
            return Err("filter term was specified more than once");
        }
        let name = text_of(&value);
        let protocol = if same_text(name.as_str(), "tcp") {
            SocketProtocol::Tcp
        } else if same_text(name.as_str(), "udp") {
            SocketProtocol::Udp
        } else {
            return Err("proto must be tcp or udp");
        };
        return Ok(FilterTerms { host: terms.host, port: terms.port, protocol: Some(protocol) });
    }
    Err("unknown filter term")
}

/// Whether an end of a connection is what the terms ask for.
pub open spec fn end_fits(terms: FilterTerms, end: SocketEndpoint) -> bool {
    &&& terms.host matches Some(host) ==> end.address == host
    &&& terms.port matches Some(port) ==> end.port == port
}

impl SocketFilter {
    /// The filter that a query is; a query without words is none.
    pub fn parse(query: &str) -> (result: Result<Option<SocketFilter>, &'static str>)
        ensures
            match result {
                Ok(Some(filter)) => {
                    &&& text::words(query@).len() > 0
                    &&& terms_upto(
                        text::words(query@),
                        text::words(query@).len() as int,
                    ) == Ok::<FilterTerms, Seq<char>>(filter.terms)
                    &&& filter.query@ == query@
                },
                Ok(None) => text::words(query@).len() == 0,
                Err(message) => terms_upto(
                    text::words(query@),
                    text::words(query@).len() as int,
                ) == Err::<FilterTerms, Seq<char>>(message@),
            },
    {
        let chars = chars_of(query);
        let words = split_words(&chars);
        let ghost all = words.deep_view();
        assert(all.len() == words@.len());
        if words.len() == 0 {
            return Ok(None);
        }
        let mut terms = FilterTerms { host: None, port: None, protocol: None };
        for i in 0..words.len()
            invariant
                all == words.deep_view(),
                all.len() == words@.len(),
                all == text::words(query@),
                terms_upto(all, i as int) == Ok::<FilterTerms, Seq<char>>(terms),
        {
            assert(all[i as int] =~= words@[i as int]@);
            match add_term(terms, &words[i]) {
                Ok(more) => {
                    terms = more;
                },
                Err(message) => {
                    proof {
                        lemma_terms_fail(all, i + 1, all.len() as int);
                    }
                    return Err(message);
                },
            }
        }
        Ok(Some(SocketFilter { query: owned(query), terms }))
    }

    /// Whether a socket is what the filter asks for: one of its ends has both the host
    /// and the port.
    pub fn matches(&self, socket: &InetSocketSnapshot) -> (matched: bool)
        ensures
            matched == {
                &&& self.terms.protocol matches Some(protocol) ==> socket.protocol == protocol
                &&& end_fits(self.terms, socket.local) || end_fits(self.terms, socket.remote)
            },
    {
        let right_protocol: bool = match self.terms.protocol {
            Some(protocol) => socket.protocol == protocol,
            None => true,
        };
        right_protocol && (fits(self.terms, socket.local) || fits(self.terms, socket.remote))
    }
}

fn fits(terms: FilterTerms, end: SocketEndpoint) -> (fit: bool)
    ensures
        fit == end_fits(terms, end),
{
    let host: bool = match terms.host {
        Some(host) => end.address == host,
        None => true,
    };
    let port: bool = match terms.port {
        Some(port) => end.port == port,
        None => true,
    };
    host && port
}

} // verus!
