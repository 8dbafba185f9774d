//! What the socket table shows: what a socket says of itself, what changed since it was
//! seen before, what holds it back, which come first, and how the collection went.
use crate::addresses;
use crate::model::{MonitorErrorCode, Nanos, ProviderHealth};
use crate::ordering;
use crate::ordering::Ordered;
use crate::owners;
use crate::owners::{OwnerCache, ProcessScan};
use crate::seqs;
use crate::series::CounterSpan;
use crate::socket_table;
use crate::socket_table::{
    CollectErrorKind, FilterTerms, InetSocketSnapshot, PreviousObservation, Projection, RawSocket,
    SocketModel, SocketQuery, SocketTableSnapshot,
};
use crate::sockets;
use crate::sockets::{
    LimitReason, ProcessMap, ProcessModel, ProcessScanStatus, SocketFamily,
    SocketIdentity, SocketProcessCoverage, SocketProtocol, SocketRowKey, SocketTcpDiagnostics,
};
use crate::text;
use vstd::prelude::*;

verus! {

/// The row of a socket that was read: the last of those shown so far.
pub open spec fn row_for(
    state: Projection,
    previous: Map<SocketIdentity, PreviousObservation>,
    owners: Map<SocketIdentity, Seq<ProcessModel>>,
    sequence: u64,
    completed_at: Nanos,
    row: RawSocket,
) -> SocketModel {
    socket_table::with_row(state, previous, owners, sequence, completed_at, row).sockets.last()
}

/// A row says what its socket says: family, protocol, ends, interface, timer, queues, user,
/// memory and retransmits. Its key is the identity of the socket if that has a cookie, and
/// else where it stands in this collection.
pub proof fn rows_say_what_their_socket_says(
    state: Projection,
    previous: Map<SocketIdentity, PreviousObservation>,
    owners: Map<SocketIdentity, Seq<ProcessModel>>,
    sequence: u64,
    completed_at: Nanos,
    row: RawSocket,
)
    ensures
        ({
            let after = socket_table::with_row(
                state,
                previous,
                owners,
                sequence,
                completed_at,
                row,
            );
            let shown = row_for(state, previous, owners, sequence, completed_at, row);
            &&& after.sockets.len() == state.sockets.len() + 1
            &&& after.sockets.drop_last() == state.sockets
            &&& shown.family == row.family
            &&& shown.protocol == row.protocol
            &&& shown.local == row.local
            &&& shown.remote == row.remote
            &&& shown.bound_ifindex == row.bound_ifindex
            &&& shown.expires_millis == row.expires_millis
            &&& shown.receive_queue == row.receive_queue
            &&& shown.send_queue == row.send_queue
            &&& shown.uid == row.uid
            &&& shown.memory == row.memory
            &&& shown.retransmits == row.retransmits
            &&& shown.sort_inode == row.identity.inode
            &&& row.identity.cookie is Some ==> shown.row_key == (SocketRowKey::Stable {
                identity: row.identity,
            })
            &&& row.identity.cookie is None ==> shown.row_key == (SocketRowKey::Ephemeral {
                sequence,
                ordinal: state.sockets.len() as usize,
            })
        }),
{
    let after = socket_table::with_row(state, previous, owners, sequence, completed_at, row);
    assert(after.sockets.drop_last() =~= state.sockets);
}

/// A row names the processes that hold the socket, each with its number and its command.
pub proof fn rows_name_the_processes_of_their_socket(
    state: Projection,
    previous: Map<SocketIdentity, PreviousObservation>,
    owners: Map<SocketIdentity, Seq<ProcessModel>>,
    sequence: u64,
    completed_at: Nanos,
    row: RawSocket,
)
    ensures
        ({
            let named = row_for(state, previous, owners, sequence, completed_at, row).owners;
            &&& !owners.contains_key(row.identity) ==> named.len() == 0
            &&& owners.contains_key(row.identity) ==> named.len() == owners[row.identity].len()
                && forall|i: int|
                0 <= i < named.len() ==> (#[trigger] named[i]).pid == owners[row.identity][i].pid
                    && named[i].command == owners[row.identity][i].command
        }),
{
}

/// The drops of a socket, of whatever protocol and in whatever state, are shown exactly if
/// its memory is reported.
pub proof fn drops_are_shown_as_reported(
    state: Projection,
    previous: Map<SocketIdentity, PreviousObservation>,
    owners: Map<SocketIdentity, Seq<ProcessModel>>,
    sequence: u64,
    completed_at: Nanos,
    row: RawSocket,
    drops: u64,
)
    ensures
        row_for(state, previous, owners, sequence, completed_at, row).drops == Some(drops) <==> (
        row.memory matches Some(memory) && memory.drops == drops),
        row_for(state, previous, owners, sequence, completed_at, row).drops is Some
            <==> row.memory is Some,
{
}

/// A socket that is seen again later shows what was dropped in between: the drops of before
/// and what is shown make the drops of now.
pub proof fn drops_between_two_collections_are_shown(
    first: Projection,
    before: Map<SocketIdentity, PreviousObservation>,
    second: Projection,
    owners: Map<SocketIdentity, Seq<ProcessModel>>,
    sequence: u64,
    earlier: Nanos,
    later: Nanos,
    old: RawSocket,
    new: RawSocket,
)
    requires
        earlier < later,
        old.identity == new.identity,
        old.identity.cookie is Some,
        old.memory matches Some(a) && new.memory matches Some(b) && a.drops <= b.drops,
    ensures
        ({
            let kept = socket_table::with_row(
                first,
                before,
                owners,
                sequence,
                earlier,
                old,
            ).next;
            row_for(second, kept, owners, sequence, later, new).drop_interval matches Some(span)
                && earlier + span.elapsed == later && (old.memory->0).drops + span.delta == (
            new.memory->0).drops
        }),
{
}

/// Where drops fell, nothing is said of what was dropped in between.
pub proof fn fallen_drops_are_not_counted(
    state: Projection,
    previous: Map<SocketIdentity, PreviousObservation>,
    owners: Map<SocketIdentity, Seq<ProcessModel>>,
    sequence: u64,
    completed_at: Nanos,
    row: RawSocket,
)
    requires
        row.memory matches Some(memory) && previous.contains_key(row.identity) && (
        previous[row.identity].counters.drops matches Some(before) && memory.drops < before),
    ensures
        row_for(state, previous, owners, sequence, completed_at, row).drop_interval is None,
{
}

/// What is kept of a socket for the next collection are its own counters and when it was
/// read; nothing is kept of one that cannot be found again.
pub proof fn sockets_keep_their_own_counters(
    state: Projection,
    previous: Map<SocketIdentity, PreviousObservation>,
    owners: Map<SocketIdentity, Seq<ProcessModel>>,
    sequence: u64,
    completed_at: Nanos,
    row: RawSocket,
)
    ensures
        ({
            let after = socket_table::with_row(
                state,
                previous,
                owners,
                sequence,
                completed_at,
                row,
            );
            let shown = row_for(state, previous, owners, sequence, completed_at, row);
            &&& row.identity.cookie is None ==> after.next == state.next
            &&& row.identity.cookie is Some ==> {
                let kept = after.next[row.identity];
                &&& after.next.contains_key(row.identity)
                &&& kept.completed_at == completed_at
                &&& kept.counters.receive_segments == shown.receive.segments
                &&& kept.counters.receive_bytes == shown.receive.bytes
                &&& kept.counters.send_segments == shown.send.segments
                &&& kept.counters.send_bytes == shown.send.bytes
                &&& kept.counters.drops == shown.drops
                &&& shown.tcp matches Some(tcp) ==> {
                    &&& kept.counters.total_retransmitted_segments == Some(
                        tcp.total_retransmitted_segments as u64,
                    )
                    &&& kept.counters.busy_micros == tcp.busy_time_micros
                    &&& kept.counters.rwnd_micros == tcp.receive_window_limited_micros
                    &&& kept.counters.sndbuf_micros == tcp.send_buffer_limited_micros
                }
                &&& forall|other: SocketIdentity|
                    other != row.identity ==> (#[trigger] after.next.contains_key(other)
                        <==> state.next.contains_key(other)) && after.next[other]
                        == state.next[other]
            }
            &&& after.completed == state.completed && after.errors == state.errors
        }),
{
}

/// Traffic is shown of TCP connections that report it: what came in is what was received,
/// and what went out is what was acknowledged.
pub proof fn traffic_is_what_a_connection_reports(
    state: Projection,
    previous: Map<SocketIdentity, PreviousObservation>,
    owners: Map<SocketIdentity, Seq<ProcessModel>>,
    sequence: u64,
    completed_at: Nanos,
    row: RawSocket,
)
    ensures
        ({
            let shown = row_for(state, previous, owners, sequence, completed_at, row);
            let connected = row.protocol == SocketProtocol::Tcp && row.state != 6 && row.state != 10
                && row.tcp_info is Some;
            &&& shown.tcp is Some <==> connected
            &&& !connected ==> {
                &&& shown.receive.bytes is None && shown.receive.segments is None
                &&& shown.send.bytes is None && shown.send.segments is None
                &&& shown.congestion_algorithm is None
                &&& shown.receive.byte_interval is None && shown.receive.segment_interval is None
                &&& shown.send.byte_interval is None && shown.send.segment_interval is None
            }
            &&& connected ==> (row.tcp_info matches Some(info) && {
                &&& shown.receive.bytes == info.bytes_received
                &&& shown.send.bytes == info.bytes_acked
                &&& shown.receive.segments is Some <==> info.segments_in is Some
                &&& shown.receive.segments matches Some(n) ==> n == info.segments_in->0
                &&& shown.send.segments is Some <==> info.segments_out is Some
                &&& shown.send.segments matches Some(n) ==> n == info.segments_out->0
                &&& shown.congestion_algorithm == text::optional_text(row.congestion_algorithm)
            })
        }),
{
}

/// Whether what is shown of a counter leads from its value before to its value now.
pub open spec fn leads(
    before: Option<u64>,
    now: Option<u64>,
    span: Option<crate::series::CounterSpan>,
    elapsed: int,
) -> bool {
    &&& span is Some <==> (before matches Some(a) && now matches Some(b) && a <= b && elapsed > 0)
    &&& span matches Some(span) ==> before matches Some(a) && now matches Some(b) && a + span.delta
        == b && span.elapsed == elapsed
}

/// A socket that was seen before shows for each of its counters what leads from its value
/// before to its value now, where both are known and it did not fall.
pub proof fn changes_lead_from_before_to_now(
    state: Projection,
    previous: Map<SocketIdentity, PreviousObservation>,
    owners: Map<SocketIdentity, Seq<ProcessModel>>,
    sequence: u64,
    completed_at: Nanos,
    row: RawSocket,
)
    requires
        row.identity.cookie is Some,
        previous.contains_key(row.identity),
        previous[row.identity].completed_at < completed_at,
    ensures
        ({
            let shown = row_for(state, previous, owners, sequence, completed_at, row);
            let before = previous[row.identity].counters;
            let elapsed = completed_at - previous[row.identity].completed_at;
            &&& leads(
                before.receive_bytes,
                shown.receive.bytes,
                shown.receive.byte_interval,
                elapsed,
            )
            &&& leads(
                before.receive_segments,
                shown.receive.segments,
                shown.receive.segment_interval,
                elapsed,
            )
            &&& leads(before.send_bytes, shown.send.bytes, shown.send.byte_interval, elapsed)
            &&& leads(
                before.send_segments,
                shown.send.segments,
                shown.send.segment_interval,
                elapsed,
            )
            &&& leads(before.drops, shown.drops, shown.drop_interval, elapsed)
            &&& shown.tcp matches Some(tcp) ==> {
                &&& leads(
                    before.total_retransmitted_segments,
                    Some(tcp.total_retransmitted_segments as u64),
                    tcp.total_retransmit_interval,
                    elapsed,
                )
                &&& tcp.limit_interval is Some <==> (before.busy_micros matches Some(a)
                    && tcp.busy_time_micros matches Some(b) && a <= b)
                &&& tcp.limit_interval matches Some(interval) ==> {
                    &&& interval.elapsed == elapsed
                    &&& before.busy_micros matches Some(a) && tcp.busy_time_micros matches Some(b)
                        && a + interval.busy_micros == b
                    &&& held_back(
                        before.rwnd_micros,
                        tcp.receive_window_limited_micros,
                        interval.rwnd_micros,
                        interval.busy_micros,
                    )
                    &&& held_back(
                        before.sndbuf_micros,
                        tcp.send_buffer_limited_micros,
                        interval.sndbuf_micros,
                        interval.busy_micros,
                    )
                }
            }
        }),
{
}

/// Whether a time that a connection was held back is what leads from before to now; it is
/// not known where it is longer than the connection was busy.
pub open spec fn held_back(
    before: Option<u64>,
    now: Option<u64>,
    shown: Option<u64>,
    busy: u64,
) -> bool {
    &&& shown is Some <==> (before matches Some(a) && now matches Some(b) && a <= b && b - a
        <= busy)
    &&& shown matches Some(time) ==> before matches Some(a) && now matches Some(b) && a + time == b
}

/// The diagnostics of a connection are what its TCP information says. Rates and times that
/// stand for none are left out.
pub proof fn diagnostics_say_what_tcp_says(
    state: Projection,
    previous: Map<SocketIdentity, PreviousObservation>,
    owners: Map<SocketIdentity, Seq<ProcessModel>>,
    sequence: u64,
    completed_at: Nanos,
    row: RawSocket,
)
    ensures
        row_for(state, previous, owners, sequence, completed_at, row).tcp matches Some(tcp) ==> (
        row.tcp_info matches Some(info) && {
                &&& tcp.state == info.state
                &&& tcp.congestion_state == info.congestion_state
                &&& tcp.retransmit_timeouts == info.retransmit_timeouts
                &&& tcp.probes == info.probes
                &&& tcp.backoff == info.backoff
                &&& tcp.options == info.options
                &&& tcp.send_window_scale == info.send_window_scale
                &&& tcp.receive_window_scale == info.receive_window_scale
                &&& tcp.delivery_rate_app_limited == info.delivery_rate_app_limited
                &&& tcp.retransmission_timeout_micros == info.retransmission_timeout_micros
                &&& tcp.ack_timeout_micros == info.ack_timeout_micros
                &&& tcp.send_mss_bytes == info.send_mss_bytes
                &&& tcp.receive_mss_bytes == info.receive_mss_bytes
                &&& tcp.unacked_segments == info.unacked_segments
                &&& tcp.sacked_segments == info.sacked_segments
                &&& tcp.lost_segments == info.lost_segments
                &&& tcp.retransmitted_segments == info.retransmitted_segments
                &&& tcp.fackets == info.fackets
                &&& tcp.last_data_sent_millis == info.last_data_sent_millis
                &&& tcp.last_ack_sent_millis == info.last_ack_sent_millis
                &&& tcp.last_data_received_millis == info.last_data_received_millis
                &&& tcp.last_ack_received_millis == info.last_ack_received_millis
                &&& tcp.path_mtu_bytes == info.path_mtu_bytes
                &&& tcp.receive_ssthresh_bytes == info.receive_ssthresh_bytes
                &&& tcp.rtt_micros == info.rtt_micros
                &&& tcp.rtt_variance_micros == info.rtt_variance_micros
                &&& tcp.send_ssthresh_segments == info.send_ssthresh_segments
                &&& tcp.send_cwnd_segments == info.send_cwnd_segments
                &&& tcp.advertised_mss_bytes == info.advertised_mss_bytes
                &&& tcp.reordering_segments == info.reordering_segments
                &&& tcp.receive_rtt_micros == info.receive_rtt_micros
                &&& tcp.receive_space_bytes == info.receive_space_bytes
                &&& tcp.total_retransmitted_segments == info.total_retransmitted_segments
                &&& tcp.notsent_bytes == info.notsent_bytes
                &&& tcp.data_segments_in == info.data_segments_in
                &&& tcp.data_segments_out == info.data_segments_out
                &&& tcp.busy_time_micros == info.busy_time_micros
                &&& tcp.receive_window_limited_micros == info.receive_window_limited_micros
                &&& tcp.send_buffer_limited_micros == info.send_buffer_limited_micros
                &&& tcp.send_window_bytes == info.send_window_bytes
                &&& tcp.receive_window_bytes == info.receive_window_bytes
                &&& tcp.pacing_rate_bytes_per_second is Some <==> info.pacing_rate_bytes_per_second
                    is Some && info.pacing_rate_bytes_per_second != Some(
                    0xffff_ffff_ffff_ffffu64,
                )
                &&& tcp.pacing_rate_bytes_per_second is Some ==> tcp.pacing_rate_bytes_per_second
                    == info.pacing_rate_bytes_per_second
                &&& tcp.max_pacing_rate_bytes_per_second is Some
                    <==> info.max_pacing_rate_bytes_per_second is Some
                    && info.max_pacing_rate_bytes_per_second != Some(0xffff_ffff_ffff_ffffu64)
                &&& tcp.max_pacing_rate_bytes_per_second is Some
                    ==> tcp.max_pacing_rate_bytes_per_second
                    == info.max_pacing_rate_bytes_per_second
                &&& tcp.min_rtt_micros is Some <==> info.min_rtt_micros is Some
                    && info.min_rtt_micros != Some(0xffff_ffffu32)
                &&& tcp.min_rtt_micros is Some ==> tcp.min_rtt_micros == info.min_rtt_micros
                &&& tcp.delivery_rate_bytes_per_second is Some
                    <==> info.delivery_rate_bytes_per_second is Some
                    && info.delivery_rate_bytes_per_second != Some(0u64)
                &&& tcp.delivery_rate_bytes_per_second is Some
                    ==> tcp.delivery_rate_bytes_per_second == info.delivery_rate_bytes_per_second
            }),
{
}

/// States have the names by which they are known, and a number where they have none.
pub proof fn states_have_their_names(state: u8)
    ensures
        sockets::state_name(SocketProtocol::Tcp, 1) == "ESTABLISHED"@,
        sockets::state_name(SocketProtocol::Tcp, 2) == "SYN_SENT"@,
        sockets::state_name(SocketProtocol::Tcp, 3) == "SYN_RECV"@,
        sockets::state_name(SocketProtocol::Tcp, 4) == "FIN_WAIT1"@,
        sockets::state_name(SocketProtocol::Tcp, 5) == "FIN_WAIT2"@,
        sockets::state_name(SocketProtocol::Tcp, 6) == "TIME_WAIT"@,
        sockets::state_name(SocketProtocol::Tcp, 7) == "CLOSE"@,
        sockets::state_name(SocketProtocol::Tcp, 8) == "CLOSE_WAIT"@,
        sockets::state_name(SocketProtocol::Tcp, 9) == "LAST_ACK"@,
        sockets::state_name(SocketProtocol::Tcp, 10) == "LISTEN"@,
        sockets::state_name(SocketProtocol::Tcp, 11) == "CLOSING"@,
        sockets::state_name(SocketProtocol::Tcp, 12) == "NEW_SYN_RECV"@,
        sockets::state_name(SocketProtocol::Udp, 1) == "CONNECTED"@,
        sockets::state_name(SocketProtocol::Udp, 7) == "UNCONN"@,
        state == 0 || state > 12 ==> sockets::state_name(SocketProtocol::Tcp, state) == "STATE#"@
            + text::decimal(state as nat),
        state != 1 && state != 7 ==> sockets::state_name(SocketProtocol::Udp, state) == "STATE#"@
            + text::decimal(state as nat),
{
}

/// Every row shows the name of the state that its socket is in.
pub proof fn rows_name_their_state(
    state: Projection,
    previous: Map<SocketIdentity, PreviousObservation>,
    owners: Map<SocketIdentity, Seq<ProcessModel>>,
    sequence: u64,
    completed_at: Nanos,
    row: RawSocket,
)
    ensures
        row_for(state, previous, owners, sequence, completed_at, row).state == sockets::state_name(
            row.protocol,
            row.state,
        ),
{
}

/// Whether a connection was held back for at least half of the time that it was busy.
pub open spec fn half_the_time(micros: Option<u64>, busy: u64) -> bool {
    micros matches Some(micros) && busy > 0 && micros + micros >= busy
}

/// What holds a connection back: windows and buffers that held it for half of the time that
/// it was busy come first, and what cannot be told is said to be unknown.
pub proof fn limits_follow_the_times(tcp: SocketTcpDiagnostics)
    ensures
        ({
            let word = sockets::reason_of(tcp).words().0;
            &&& tcp.limit_interval is None ==> word == "UNKNOWN"@
            &&& tcp.limit_interval matches Some(interval) ==> {
                let busy = interval.busy_micros;
                let window = half_the_time(interval.rwnd_micros, busy);
                let buffer = half_the_time(interval.sndbuf_micros, busy);
                let unsent = tcp.notsent_bytes;
                &&& window && buffer ==> word == "RWND + SNDBUF"@
                &&& window && !buffer ==> word == "RWND"@
                &&& !window && buffer ==> word == "SNDBUF"@
                &&& !window && !buffer ==> {
                    &&& interval.rwnd_micros is None || interval.sndbuf_micros is None ==> word
                        == "UNKNOWN"@
                    &&& interval.rwnd_micros is Some && interval.sndbuf_micros is Some ==> {
                        &&& busy == 0 && unsent == Some(0u32) && tcp.unacked_segments == 0 ==> word
                            == "IDLE"@
                        &&& busy == 0 && !(unsent == Some(0u32) && tcp.unacked_segments == 0)
                            ==> word == "UNKNOWN"@
                        &&& busy > 0 && nearly_full(tcp) ==> word == "CWND?"@
                        &&& busy > 0 && !nearly_full(tcp) && unsent == Some(0u32)
                            && tcp.delivery_rate_app_limited ==> word == "APP?"@
                        &&& busy > 0 && !nearly_full(tcp) && !(unsent == Some(0u32)
                            && tcp.delivery_rate_app_limited) ==> word == "ACTIVE"@
                    }
                }
            }
        }),
{
}

/// Whether data waits while at least nine tenths of an open congestion window are in flight
/// and the peer would take a whole one.
pub open spec fn nearly_full(tcp: SocketTcpDiagnostics) -> bool {
    &&& tcp.notsent_bytes matches Some(unsent) && unsent != 0
    &&& tcp.send_cwnd_segments != 0
    &&& tcp.congestion_state == 0
    &&& tcp.send_window_bytes matches Some(window) && tcp.send_cwnd_segments * tcp.send_mss_bytes
        <= window
    &&& tcp.sacked_segments + tcp.lost_segments <= tcp.unacked_segments
    &&& in_flight(tcp) <= u32::MAX
    &&& 9 * tcp.send_cwnd_segments <= 10 * in_flight(tcp)
}

/// What is in flight: what was sent and is neither acknowledged, nor received, nor lost, and
/// what was sent again.
pub open spec fn in_flight(tcp: SocketTcpDiagnostics) -> int {
    tcp.unacked_segments - tcp.sacked_segments - tcp.lost_segments + tcp.retransmitted_segments
}

/// Every reason has an explanation of its own, and only those that cannot be told share a
/// word.
pub proof fn limits_have_their_words()
    ensures
        LimitReason::NoBaseline.words().1 == "No valid adjacent TCP_INFO timing baseline"@,
        LimitReason::BothWindows.words().1
            == "Both counters reached 50% of busy time in this interval"@,
        LimitReason::ReceiveWindow.words().1
            == "rwnd_limited delta / busy delta >= 50% in this interval"@,
        LimitReason::SendBuffer.words().1
            == "sndbuf_limited delta / busy delta >= 50% in this interval"@,
        LimitReason::CounterMissing.words().1
            == "Limited-time counter missing, reset, or inconsistent with busy time"@,
        LimitReason::Idle.words().1
            == "No busy-time increase, no unsent data, and no unacked segments"@,
        LimitReason::NotBusy.words().1
            == "No busy-time increase; pending data or flight still present"@,
        LimitReason::CongestionWindow.words().1
            == "Snapshot estimate: unsent > 0, flight/cwnd >= 90%, CA Open, peer window >= cwnd bytes"@,
        LimitReason::Application.words().1
            == "No unsent data now; latest delivery-rate sample was app-limited"@,
        LimitReason::Active.words().1
            == "No dominant timed limit observed; other constraints remain possible"@,
{
}

/// What is in flight is known exactly if it fits together.
pub proof fn flight_is_what_was_not_answered(tcp: SocketTcpDiagnostics)
    ensures
        match sockets::flight_of(tcp) {
            Some(flight) => flight + tcp.sacked_segments + tcp.lost_segments
                == tcp.unacked_segments + tcp.retransmitted_segments && tcp.sacked_segments
                + tcp.lost_segments <= tcp.unacked_segments && 0 <= flight <= 0xffff_ffff,
            None => tcp.sacked_segments + tcp.lost_segments > tcp.unacked_segments
                || tcp.unacked_segments + tcp.retransmitted_segments - tcp.sacked_segments
                - tcp.lost_segments > 0xffff_ffff,
        },
        sockets::window_bytes(tcp) == tcp.send_cwnd_segments * tcp.send_mss_bytes,
{
}

/// Among sockets that moved as much, TCP comes before UDP, then IPv4 before IPv6, then the
/// lower local address and port, and then the lower remote ones.
pub proof fn equally_active_sockets_come_by_address(a: SocketModel, b: SocketModel)
    requires
        a.bytes_moved() == b.bytes_moved(),
        a.segments_moved() == b.segments_moved(),
    ensures
        ({
            let first = ordering::key_order::<InetSocketSnapshot>()(a, b);
            &&& a.protocol == SocketProtocol::Tcp && b.protocol == SocketProtocol::Udp ==> first
            &&& a.protocol == b.protocol ==> {
                &&& a.family == SocketFamily::Ipv4 && b.family == SocketFamily::Ipv6 ==> first
                &&& a.family == b.family && a.local.address.rank() == b.local.address.rank() ==> {
                    &&& a.local.address.number() < b.local.address.number() ==> first
                    &&& a.local.address == b.local.address ==> {
                        &&& a.local.port < b.local.port ==> first
                        &&& a.local.port == b.local.port && a.remote.address.rank()
                            == b.remote.address.rank() ==> {
                            &&& a.remote.address.number() < b.remote.address.number() ==> first
                            &&& a.remote.address == b.remote.address ==> {
                                &&& a.remote.port < b.remote.port ==> first
                                &&& a.remote.port == b.remote.port && a.sort_inode < b.sort_inode
                                    ==> first
                            }
                        }
                    }
                }
            }
        }),
{
    reveal_with_fuel(seqs::lex_before, 12);
    let x = InetSocketSnapshot::key(a);
    let y = InetSocketSnapshot::key(b);
    assert(x.len() == 11 && y.len() == 11);
    assert(x[0] == y[0] && x[1] == y[1]);
}

/// What a socket moved is what it received and what it sent.
pub proof fn activity_is_both_directions(socket: SocketModel)
    requires
        socket.receive.byte_interval matches Some(a) && socket.send.byte_interval matches Some(b)
            && a.delta + b.delta <= u64::MAX,
        socket.receive.segment_interval matches Some(a) && socket.send.segment_interval matches
            Some(b) && a.delta + b.delta <= u64::MAX,
    ensures
        socket.bytes_moved() == (socket.receive.byte_interval->0).delta + (
        socket.send.byte_interval->0).delta,
        socket.segments_moved() == (socket.receive.segment_interval->0).delta + (
        socket.send.segment_interval->0).delta,
{
}

/// At most as many sockets are shown as the table holds, and all of them if it holds them.
pub proof fn the_table_holds_its_sockets(all: Seq<SocketModel>)
    ensures
        all.len() <= 4096 ==> socket_table::displayed(all).to_multiset() == all.to_multiset(),
        all.len() > 4096 ==> socket_table::displayed(all).len() == 4096,
        seqs::sorted(
            socket_table::displayed(all),
            ordering::key_order::<InetSocketSnapshot>(),
        ),
{
    ordering::first_rows_come_first::<InetSocketSnapshot>(all, 4096);
    assert(socket_table::MAX_DISPLAYED_SOCKETS == 4096);
}

/// Failures keep their kind.
pub proof fn failures_keep_their_kind()
    ensures
        socket_table::error_code(CollectErrorKind::PermissionDenied)
            == MonitorErrorCode::PermissionDenied,
        socket_table::error_code(CollectErrorKind::Unsupported) == MonitorErrorCode::Unsupported,
        socket_table::error_code(CollectErrorKind::Io) == MonitorErrorCode::Io,
        socket_table::error_code(CollectErrorKind::Loss) == MonitorErrorCode::OutputLimit,
        socket_table::error_code(CollectErrorKind::Interrupted) == MonitorErrorCode::Timeout,
        socket_table::error_code(CollectErrorKind::Malformed) == MonitorErrorCode::SchemaMismatch,
{
}

/// Whether a failure matters more than another: malformed answers, then lost ones, then
/// interrupted ones, then denied ones, then broken ones, then those that are unsupported.
pub open spec fn matters_more(a: CollectErrorKind, b: CollectErrorKind) -> bool {
    match b {
        CollectErrorKind::Malformed => false,
        CollectErrorKind::Loss => a is Malformed,
        CollectErrorKind::Interrupted => a is Malformed || a is Loss,
        CollectErrorKind::PermissionDenied => a is Malformed || a is Loss || a is Interrupted,
        CollectErrorKind::Io => !(a is Io) && !(a is Unsupported),
        CollectErrorKind::Unsupported => !(a is Unsupported),
    }
}

/// The failure that is named is one that no other matters more than, and the last of those.
pub proof fn the_worst_failure_is_named(errors: Seq<(CollectErrorKind, Seq<char>)>, n: int)
    requires
        0 <= n <= errors.len(),
    ensures
        socket_table::primary_upto(errors, n) is Some <==> n > 0,
        socket_table::primary_upto(errors, n) matches Some(i) ==> {
            &&& 0 <= i < n
            &&& forall|j: int| 0 <= j < n ==> !matters_more((#[trigger] errors[j]).0, errors[i].0)
            &&& forall|j: int|
                i < j < n ==> matters_more(errors[i].0, (#[trigger] errors[j]).0)
        },
    decreases n,
{
    if n > 0 {
        the_worst_failure_is_named(errors, n - 1);
    }
}

/// A collection is complete if all four queries were answered, nothing was cut off and the
/// processes are known or being looked for. It is partial if some were answered, and failed
/// if none was.
pub proof fn health_says_how_the_collection_went(
    completed: nat,
    errors: Seq<(CollectErrorKind, Seq<char>)>,
    truncated: bool,
    coverage: SocketProcessCoverage,
)
    ensures
        ({
            let health = socket_table::health_of(completed, errors, truncated, coverage);
            let settled = coverage is Complete || coverage is Pending;
            &&& health is Fresh <==> completed == 4 && errors.len() == 0 && !truncated && settled
            &&& health is Partial <==> completed > 0 && !(health is Fresh)
            &&& completed == 0 && errors.len() > 0 && (forall|i: int|
                0 <= i < errors.len() ==> (#[trigger] errors[i]).0 is PermissionDenied)
                ==> health is PermissionDenied
            &&& completed == 0 && errors.len() > 0 && (forall|i: int|
                0 <= i < errors.len() ==> (#[trigger] errors[i]).0 is Unsupported)
                ==> health is Unsupported
            &&& health matches ProviderHealth::Partial { warning } ==> {
                &&& socket_table::primary_upto(errors, errors.len() as int) matches Some(i)
                    ==> warning.code == socket_table::error_code(errors[i].0)
                &&& errors.len() == 0 && truncated ==> warning.code
                    == MonitorErrorCode::CardinalityLimit
                &&& errors.len() == 0 && !truncated ==> match coverage {
                    SocketProcessCoverage::PermissionDenied => warning.code
                        == MonitorErrorCode::PermissionDenied,
                    SocketProcessCoverage::Unavailable => warning.code == MonitorErrorCode::Io,
                    SocketProcessCoverage::Partial {
                        permission_denied_processes,
                        truncated: cut,
                        ..
                    } => warning.code == if cut {
                        MonitorErrorCode::CardinalityLimit
                    } else if permission_denied_processes > 0 {
                        MonitorErrorCode::PermissionDenied
                    } else {
                        MonitorErrorCode::Io
                    },
                    _ => warning.code == MonitorErrorCode::Internal,
                }
                &&& warning.diagnostic == crate::diagnostics::shown_text(
                    "socket queries "@ + text::decimal(completed) + "/"@ + text::decimal(4)
                        + "; failed "@ + text::decimal(errors.len()) + "; truncated "@ + (
                    if truncated {
                        "yes"@
                    } else {
                        "no"@
                    }) + "; process map "@ + coverage.text() + (match socket_table::primary_upto(
                        errors,
                        errors.len() as int,
                    ) {
                        Some(i) => "; primary failure: "@ + errors[i].1,
                        None => Seq::empty(),
                    }),
                )
            }
        }),
{
    assert(socket_table::QUERY_COUNT == 4);
    lemma_primary(errors);
    if completed == 0 && errors.len() > 0 && (forall|i: int|
        0 <= i < errors.len() ==> (#[trigger] errors[i]).0 is Unsupported) {
        assert(errors[0].0 is Unsupported);
    }
}

proof fn lemma_primary(errors: Seq<(CollectErrorKind, Seq<char>)>)
    ensures
        socket_table::primary_upto(errors, errors.len() as int) is Some <==> errors.len() > 0,
{
    the_worst_failure_is_named(errors, errors.len() as int);
}

/// All queries together observed what each of them observed, and the table is cut off
/// exactly if one of them was or has more rows than are kept.
pub proof fn queries_add_up(queries: Seq<SocketQuery>, n: int)
    requires
        0 < n <= queries.len(),
    ensures
        socket_table::observed_upto(queries, n - 1) + queries[n - 1].observed_sockets <= usize::MAX
            ==> socket_table::observed_upto(queries, n) == socket_table::observed_upto(
            queries,
            n - 1,
        ) + queries[n - 1].observed_sockets,
        socket_table::observed_upto(queries, 0) == 0,
        socket_table::cut_upto(queries, n) <==> exists|i: int|
            0 <= i < n && ((#[trigger] queries[i]).truncated || (queries[i].outcome matches Ok(rows)
                && rows@.len() > 4096)),
    decreases n,
{
    assert(socket_table::MAX_RETAINED_PER_QUERY == 4096);
    if n > 1 {
        queries_add_up(queries, n - 1);
    } else {
        assert(!socket_table::cut_upto(queries, 0));
    }
    if socket_table::cut_upto(queries, n - 1) && n > 1 {
        let i = choose|i: int|
            0 <= i < n - 1 && ((#[trigger] queries[i]).truncated || (queries[i].outcome matches Ok(
                rows,
            ) && rows@.len() > 4096));
        assert(queries[i].truncated || socket_table::is_crowded(queries[i]));
    }
}

/// How far the processes are known follows from how the scan went.
pub proof fn coverage_follows_the_scan(status: ProcessScanStatus)
    ensures
        match sockets::coverage_of(status) {
            SocketProcessCoverage::Complete => status is Complete,
            SocketProcessCoverage::Partial { permission_denied_processes, io_errors, truncated } =>
                status == (ProcessScanStatus::Partial {
                permission_denied_processes,
                io_errors,
                truncated,
            }),
            SocketProcessCoverage::PermissionDenied => status is PermissionDenied,
            SocketProcessCoverage::Unavailable => status is Io,
            SocketProcessCoverage::Pending => false,
        },
        SocketProcessCoverage::Complete.word() == "complete"@,
        SocketProcessCoverage::Pending.word() == "pending"@,
        SocketProcessCoverage::PermissionDenied.word() == "permission-denied"@,
        SocketProcessCoverage::Unavailable.word() == "unavailable"@,
{
}

/// The coverage and the age of the process map are told in words.
pub proof fn process_maps_are_told_in_words(
    denied: usize,
    io: usize,
    truncated: bool,
    age: Seq<char>,
    coverage: SocketProcessCoverage,
)
    ensures
        (SocketProcessCoverage::Partial {
            permission_denied_processes: denied,
            io_errors: io,
            truncated,
        }).text() == "partial denied="@ + text::decimal(denied as nat) + " io="@ + text::decimal(
            io as nat,
        ) + " truncated="@ + (if truncated {
            "yes"@
        } else {
            "no"@
        }),
        sockets::process_map_text(coverage, None, false) == coverage.text(),
        sockets::process_map_text(coverage, None, true) == coverage.text() + " refreshing"@,
        sockets::process_map_text(coverage, Some(age), false) == coverage.text() + (" age "@ + age
            + "s"@),
        sockets::process_map_text(coverage, Some(age), true) == coverage.text() + (" age "@ + age
            + "s"@) + " refreshing"@,
        !(coverage is Partial) ==> coverage.text() == coverage.word(),
{
}

/// A scan finds the processes that hold an inode: those of the first place where it stands.
pub proof fn scans_find_processes_by_inode(scan: ProcessScan, inode: u32)
    ensures
        (exists|i: int|
            0 <= i < scan.found@.len() && (#[trigger] scan.found@[i]).0 == inode
                && scan.owners_of(inode) == scan.found@[i].1.deep_view() && forall|j: int|
                0 <= j < i ==> (#[trigger] scan.found@[j]).0 != inode) || (scan.owners_of(
            inode,
        ).len() == 0 && forall|i: int|
            0 <= i < scan.found@.len() ==> (#[trigger] scan.found@[i]).0 != inode),
{
    lemma_found(scan, inode, scan.found@.len() as int);
}

proof fn lemma_found(scan: ProcessScan, inode: u32, n: int)
    requires
        0 <= n <= scan.found@.len(),
    ensures
        match owners::found_upto(scan.found@, inode, n) {
            Some(processes) => exists|i: int|
                0 <= i < n && (#[trigger] scan.found@[i]).0 == inode && processes
                    == scan.found@[i].1.deep_view() && forall|j: int|
                    0 <= j < i ==> (#[trigger] scan.found@[j]).0 != inode,
            None => forall|i: int| 0 <= i < n ==> (#[trigger] scan.found@[i]).0 != inode,
        },
    decreases n,
{
    if n > 0 {
        lemma_found(scan, inode, n - 1);
        if let Some(processes) = owners::found_upto(scan.found@, inode, n - 1) {
            let i = choose|i: int|
                0 <= i < n - 1 && (#[trigger] scan.found@[i]).0 == inode && processes
                    == scan.found@[i].1.deep_view() && forall|j: int|
                    0 <= j < i ==> (#[trigger] scan.found@[j]).0 != inode;
            assert(scan.found@[i].0 == inode);
        } else if scan.found@[n - 1].0 == inode {
            assert(scan.found@[n - 1].0 == inode);
        }
    }
}

/// What a scan found for a socket that was asked for and is still there is what stands under
/// its inode.
pub proof fn accepted_processes_are_those_of_the_inode(
    targets: Seq<SocketIdentity>,
    scan: ProcessScan,
    current: Seq<SocketIdentity>,
    identity: SocketIdentity,
)
    requires
        targets.contains(identity),
        current.contains(identity),
    ensures
        owners::processes_of(owners::accepted(targets, scan, current), identity) == scan.owners_of(
            identity.inode,
        ),
{
}

/// What was found is kept for sockets that stay, and forgotten after twenty seconds. A scan
/// is due after ten seconds, after two if a socket is unknown, and at once at first; it is
/// never due where there is no socket.
pub proof fn scans_are_due_in_time(
    cache: OwnerCache,
    current: Seq<SocketIdentity>,
    now: Nanos,
)
    ensures
        ({
            let unknown = exists|i: int|
                0 <= i < current.len() && !cache.entries@.contains_key(#[trigger] current[i]);
            &&& current.len() == 0 ==> !cache.is_due(current, now)
            &&& current.len() > 0 && cache.last_request is None ==> cache.is_due(current, now)
            &&& current.len() > 0 && (cache.last_request matches Some(last) && last <= now) ==> (
            cache.is_due(current, now) <==> now - cache.last_request->0 >= 10_000_000_000 || (
            unknown && now - cache.last_request->0 >= 2_000_000_000))
            &&& cache.observed_at is None ==> !cache.expired(now)
            &&& (cache.observed_at matches Some(at) && at <= now) ==> (cache.expired(now) <==> now
                - cache.observed_at->0 >= 20_000_000_000)
            &&& cache.shown_coverage(current) == (if current.len() == 0 {
                SocketProcessCoverage::Complete
            } else if cache.coverage is Complete && unknown {
                SocketProcessCoverage::Pending
            } else {
                cache.coverage
            })
        }),
{
}

/// A filter asks for a host, a port or a protocol, each at most once; anything else is
/// refused with its reason, and a term leaves the others as they were.
pub proof fn filter_terms_say_what_they_ask_for(terms: FilterTerms, value: Seq<char>)
    ensures
        ({
            let host = socket_table::with_term(terms, "host="@ + value);
            let port = socket_table::with_term(terms, "port="@ + value);
            let protocol = socket_table::with_term(terms, "proto="@ + value);
            let twice = Err::<FilterTerms, Seq<char>>("filter term was specified more than once"@);
            &&& terms.host is Some ==> host == twice
            &&& terms.host is None ==> match addresses::address_in(value) {
                Some(address) => host == Ok::<FilterTerms, Seq<char>>(
                    FilterTerms { host: Some(address), port: terms.port, protocol: terms.protocol },
                ),
                None => host == Err::<FilterTerms, Seq<char>>(
                    "host must be an IPv4 or IPv6 address"@,
                ),
            }
            &&& terms.port is Some ==> port == twice
            &&& terms.port is None ==> match addresses::number_in(value, false, 65_535) {
                Some(number) => port == Ok::<FilterTerms, Seq<char>>(
                    FilterTerms {
                        host: terms.host,
                        port: Some(number as u16),
                        protocol: terms.protocol,
                    },
                ),
                None => port == Err::<FilterTerms, Seq<char>>("port must be between 0 and 65535"@),
            }
            &&& terms.protocol is Some ==> protocol == twice
            &&& terms.protocol is None ==> {
                &&& value == "tcp"@ ==> protocol == Ok::<FilterTerms, Seq<char>>(
                    FilterTerms {
                        host: terms.host,
                        port: terms.port,
                        protocol: Some(SocketProtocol::Tcp),
                    },
                )
                &&& value == "udp"@ ==> protocol == Ok::<FilterTerms, Seq<char>>(
                    FilterTerms {
                        host: terms.host,
                        port: terms.port,
                        protocol: Some(SocketProtocol::Udp),
                    },
                )
                &&& value != "tcp"@ && value != "udp"@ ==> protocol == Err::<
                    FilterTerms,
                    Seq<char>,
                >("proto must be tcp or udp"@)
            }
        }),
{
    reveal_strlit("host=");
    reveal_strlit("port=");
    reveal_strlit("proto=");
    reveal_strlit("tcp");
    reveal_strlit("udp");
    assert("tcp"@[0] == 't' && "udp"@[0] == 'u');
    let host = "host="@ + value;
    let port = "port="@ + value;
    let protocol = "proto="@ + value;
    assert(host.take(5) =~= "host="@ && host.skip(5) =~= value);
    assert(port.take(5) =~= "port="@ && port.skip(5) =~= value);
    assert(protocol.take(6) =~= "proto="@ && protocol.skip(6) =~= value);
    assert(port[0] == 'p' && protocol[0] == 'p' && port.take(5)[0] == 'p');
    assert("host="@[0] == 'h');
    assert(port.take(5)[0] != "host="@[0]);
    assert(protocol.take(5)[0] != "host="@[0]);
    assert(protocol.take(5)[1] == 'r' && "port="@[1] == 'o');
}

/// A filter lets an end through that has the host and the port that it asks for.
pub proof fn filters_ask_for_one_end(terms: FilterTerms, end: sockets::SocketEndpoint)
    ensures
        socket_table::end_fits(terms, end) <==> (terms.host is None || terms.host == Some(
            end.address,
        )) && (terms.port is None || terms.port == Some(end.port)),
{
}

/// Every query that was answered counts as completed, and every other one as a failure, in
/// the order of the queries; every socket of an answer has a row.
pub proof fn answers_and_failures_are_counted(
    previous: Map<SocketIdentity, PreviousObservation>,
    owners: Map<SocketIdentity, Seq<ProcessModel>>,
    sequence: u64,
    queries: Seq<SocketQuery>,
    n: int,
)
    requires
        0 < n <= queries.len(),
    ensures
        ({
            let before = socket_table::projected_upto(previous, owners, sequence, queries, n - 1);
            let after = socket_table::projected_upto(previous, owners, sequence, queries, n);
            match queries[n - 1].outcome {
                Ok(rows) => {
                    &&& after.completed == before.completed + 1
                    &&& after.errors == before.errors
                    &&& after.sockets.len() == before.sockets.len() + rows@.len()
                    &&& after.sockets.take(before.sockets.len() as int) == before.sockets
                },
                Err(error) => {
                    &&& after.completed == before.completed
                    &&& after.errors == before.errors.push(error.deep_view())
                    &&& after.sockets == before.sockets
                    &&& after.next == before.next
                },
            }
        }),
        socket_table::projected_upto(previous, owners, sequence, queries, 0).completed == 0,
        socket_table::projected_upto(previous, owners, sequence, queries, 0).errors.len() == 0,
        socket_table::projected_upto(previous, owners, sequence, queries, 0).sockets.len() == 0,
{
    let before = socket_table::projected_upto(previous, owners, sequence, queries, n - 1);
    if let Ok(rows) = queries[n - 1].outcome {
        let state = Projection { completed: before.completed + 1, ..before };
        lemma_rows_added(
            state,
            previous,
            owners,
            sequence,
            queries[n - 1].completed_at,
            rows@,
            rows@.len() as int,
        );
    }
}

proof fn lemma_rows_added(
    state: Projection,
    previous: Map<SocketIdentity, PreviousObservation>,
    owners: Map<SocketIdentity, Seq<ProcessModel>>,
    sequence: u64,
    completed_at: Nanos,
    rows: Seq<RawSocket>,
    n: int,
)
    requires
        0 <= n <= rows.len(),
    ensures
        ({
            let after = socket_table::with_rows(
                state,
                previous,
                owners,
                sequence,
                completed_at,
                rows,
                n,
            );
            &&& after.completed == state.completed
            &&& after.errors == state.errors
            &&& after.sockets.len() == state.sockets.len() + n
            &&& after.sockets.take(state.sockets.len() as int) == state.sockets
        }),
    decreases n,
{
    if n > 0 {
        lemma_rows_added(state, previous, owners, sequence, completed_at, rows, n - 1);
        let before = socket_table::with_rows(
            state,
            previous,
            owners,
            sequence,
            completed_at,
            rows,
            n - 1,
        );
        let after = socket_table::with_rows(
            state,
            previous,
            owners,
            sequence,
            completed_at,
            rows,
            n,
        );
        assert(after.sockets.take(state.sockets.len() as int) =~= before.sockets.take(
            state.sockets.len() as int,
        ));
    } else {
        assert(state.sockets.take(state.sockets.len() as int) =~= state.sockets);
    }
}

/// A query that is cut to what is kept keeps its first sockets, and everything else of it.
pub proof fn cut_queries_keep_their_first_sockets(query: SocketQuery, bounded: SocketQuery)
    requires
        socket_table::is_bounded(query, bounded),
    ensures
        bounded.completed_at == query.completed_at,
        bounded.truncated == query.truncated,
        bounded.observed_sockets == query.observed_sockets,
        query.outcome is Ok <==> bounded.outcome is Ok,
        query.outcome matches Ok(rows) ==> (bounded.outcome matches Ok(kept) ==> kept@.is_prefix_of(
            rows@,
        ) && kept@.len() <= socket_table::MAX_RETAINED_PER_QUERY && (rows@.len()
            <= socket_table::MAX_RETAINED_PER_QUERY ==> kept@ == rows@) && (rows@.len()
            > socket_table::MAX_RETAINED_PER_QUERY ==> kept@.len()
            == socket_table::MAX_RETAINED_PER_QUERY)),
{
}

/// A row is found by its key.
pub proof fn rows_are_found_by_key(snapshot: SocketTableSnapshot, key: SocketRowKey)
    ensures
        snapshot.row(key) matches Some(found) ==> found.row_key == key
            && snapshot.sockets.deep_view().contains(found),
        snapshot.row(key) is None ==> forall|i: int|
            0 <= i < snapshot.sockets.deep_view().len() ==> (
            #[trigger] snapshot.sockets.deep_view()[i]).row_key != key,
{
    let all = snapshot.sockets.deep_view();
    seqs::lemma_first_where(all, socket_table::has_key(key), all.len() as int);
    match snapshot.row(key) {
        Some(found) => {},
        None => {
            assert forall|i: int| 0 <= i < all.len() implies (#[trigger] all[i]).row_key != key by {
                assert(!socket_table::has_key(key)(all[i]));
            }
        },
    }
}

/// The later of two times is one of them and before neither; TCP comes before UDP, and IPv4
/// before IPv6.
pub proof fn later_times_and_ranks(a: Nanos, b: Nanos)
    ensures
        socket_table::later(a, b) >= a && socket_table::later(a, b) >= b,
        socket_table::later(a, b) == a || socket_table::later(a, b) == b,
        socket_table::protocol_rank(SocketProtocol::Tcp) < socket_table::protocol_rank(
            SocketProtocol::Udp,
        ),
        socket_table::family_rank(SocketFamily::Ipv4) < socket_table::family_rank(
            SocketFamily::Ipv6,
        ),
{
}

/// The terms of a filter are taken in their order; the first that is wrong is told.
pub proof fn terms_are_taken_in_order(words: Seq<Seq<char>>, n: int)
    requires
        0 < n <= words.len(),
    ensures
        socket_table::terms_upto(words, 0) == Ok::<FilterTerms, Seq<char>>(
            FilterTerms { host: None, port: None, protocol: None },
        ),
        socket_table::terms_upto(words, n - 1) is Err ==> socket_table::terms_upto(words, n)
            == socket_table::terms_upto(words, n - 1),
        socket_table::terms_upto(words, n - 1) matches Ok(terms) ==> socket_table::terms_upto(
            words,
            n,
        ) == socket_table::with_term(terms, words[n - 1]),
{
}

/// Processes are scanned for only if a scan is due, can be made, and is not under way.
pub proof fn scans_are_made_one_at_a_time(
    service: owners::OwnerService,
    current: Seq<SocketIdentity>,
    now: Nanos,
)
    ensures
        service.wants_scan(current, now) <==> service.available && !service.in_flight
            && service.cache.is_due(current, now),
{
}

/// A socket has a past only if it can be told from others and was seen before.
pub proof fn sockets_have_a_past_if_they_were_seen(
    previous: Map<SocketIdentity, PreviousObservation>,
    identity: SocketIdentity,
)
    ensures
        socket_table::observation_before(previous, identity) is Some <==> identity.cookie is Some
            && previous.contains_key(identity),
        socket_table::observation_before(previous, identity) matches Some(before) ==> before
            == previous[identity],
{
}

/// Time has passed only if it went on.
pub proof fn time_passes_forward(before: Option<PreviousObservation>, completed_at: Nanos)
    ensures
        match socket_table::time_since(before, completed_at) {
            Some(passed) => passed > 0 && (before matches Some(seen) && seen.completed_at
                + passed == completed_at),
            None => before matches Some(seen) ==> completed_at <= seen.completed_at,
        },
{
}

/// A map of processes is told with how old it is, if that is known.
pub proof fn process_maps_say_how_old_they_are(map: ProcessMap, seconds: Seq<char>)
    ensures
        map.age is None && !map.refreshing ==> map.text(seconds) == map.coverage.text(),
        map.age is Some && !map.refreshing ==> map.text(seconds) == map.coverage.text() + (" age "@
            + seconds + "s"@),
        map.age is None && map.refreshing ==> map.text(seconds) == map.coverage.text()
            + " refreshing"@,
{
}

/// A collection of which no query was answered fails for what all failures have in common, or
/// else for the worst of them.
pub proof fn failed_collections_say_why(
    errors: Seq<(CollectErrorKind, Seq<char>)>,
    truncated: bool,
    coverage: SocketProcessCoverage,
    i: int,
    j: int,
)
    requires
        0 <= i < errors.len(),
        0 <= j < errors.len(),
        !(errors[i].0 is PermissionDenied),
        !(errors[j].0 is Unsupported),
    ensures
        socket_table::primary_upto(errors, errors.len() as int) matches Some(worst)
            && socket_table::failed_code(errors, truncated, coverage) == socket_table::error_code(
            errors[worst].0,
        ),
{
    the_worst_failure_is_named(errors, errors.len() as int);
    assert(!socket_table::all_are(
        errors,
        CollectErrorKind::PermissionDenied,
        errors.len() as int,
    )) by {
        assert(errors[i].0 != CollectErrorKind::PermissionDenied);
    }
    assert(!socket_table::all_are(errors, CollectErrorKind::Unsupported, errors.len() as int)) by {
        assert(errors[j].0 != CollectErrorKind::Unsupported);
    }
}

/// A count of which nothing is known adds nothing to how active a socket is.
pub proof fn unknown_counts_add_nothing(span: Option<CounterSpan>)
    ensures
        span is None ==> sockets::delta_of(span) == 0,
        span matches Some(known) ==> sockets::delta_of(span) == known.delta,
{
}

/// Processes are kept of the sockets that were asked about and are still there, and of no
/// other.
pub proof fn processes_are_kept_of_sockets_that_stay(
    targets: Seq<SocketIdentity>,
    scan: ProcessScan,
    current: Seq<SocketIdentity>,
    identity: SocketIdentity,
)
    ensures
        owners::accepted(targets, scan, current).contains_key(identity) <==> targets.contains(
            identity,
        ) && current.contains(identity),
{
}

} // verus!
