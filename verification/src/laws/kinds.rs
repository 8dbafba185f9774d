//! In which order kinds of events come.
use crate::evidence::{
    Direction, Disposition, EvidenceDescriptor, EvidenceForm, EvidenceRole, Layer, MeasurementBound,
    MeasurementScope, MeasurementUnit, Observation, PathRole, Signal, SubjectRef,
};
use crate::kinds;
use crate::kinds::Kind;
use crate::output;
use crate::seqs;
use crate::text;
use vstd::prelude::*;

verus! {

/// Layers come from the socket down to the card; what has none comes first.
pub proof fn layers_come_from_the_socket_down()
    ensures
        kinds::layer_rank(None) < kinds::layer_rank(Some(Layer::Socket)) < kinds::layer_rank(
            Some(Layer::Transport),
        ) < kinds::layer_rank(Some(Layer::Network)) < kinds::layer_rank(Some(Layer::Netfilter))
            < kinds::layer_rank(Some(Layer::Route)) < kinds::layer_rank(Some(Layer::Xfrm))
            < kinds::layer_rank(Some(Layer::VirtualDevice)) < kinds::layer_rank(Some(Layer::Tc))
            < kinds::layer_rank(Some(Layer::Netdevice)) < kinds::layer_rank(Some(Layer::Xdp))
            < kinds::layer_rank(Some(Layer::Driver)) < kinds::layer_rank(Some(Layer::Nic)),
{
}

/// What describes an event is ordered part by part; a part that is not known comes first.
pub proof fn parts_come_in_order()
    ensures
        kinds::direction_rank(None) < kinds::direction_rank(Some(Direction::Ingress))
            < kinds::direction_rank(Some(Direction::Egress)),
        kinds::path_rank(None) < kinds::path_rank(Some(PathRole::Local)) < kinds::path_rank(
            Some(PathRole::Forwarded),
        ) < kinds::path_rank(Some(PathRole::Tunnel)) < kinds::path_rank(Some(PathRole::Bridge)),
        kinds::disposition_rank(None) < kinds::disposition_rank(Some(Disposition::Dropped))
            < kinds::disposition_rank(Some(Disposition::Rejected)) < kinds::disposition_rank(
            Some(Disposition::Consumed),
        ) < kinds::disposition_rank(Some(Disposition::Passed)) < kinds::disposition_rank(
            Some(Disposition::Redirected),
        ) < kinds::disposition_rank(Some(Disposition::Queued)),
        kinds::signal_rank(None) < kinds::signal_rank(Some(Signal::Aborted)) < kinds::signal_rank(
            Some(Signal::RedirectFailed),
        ) < kinds::signal_rank(Some(Signal::Backpressure)) < kinds::signal_rank(
            Some(Signal::Congestion),
        ) < kinds::signal_rank(Some(Signal::Pressure)) < kinds::signal_rank(Some(Signal::Timeout))
            < kinds::signal_rank(Some(Signal::Retransmission)) < kinds::signal_rank(
            Some(Signal::Reset),
        ) < kinds::signal_rank(Some(Signal::Error)),
        kinds::role_rank(EvidenceRole::Causal) < kinds::role_rank(EvidenceRole::Symptom)
            < kinds::role_rank(EvidenceRole::Context) < kinds::role_rank(EvidenceRole::Telemetry),
        kinds::form_rank(EvidenceForm::CounterDelta) < kinds::form_rank(EvidenceForm::Event),
        kinds::unit_rank(MeasurementUnit::Packets) < kinds::unit_rank(MeasurementUnit::Bytes)
            < kinds::unit_rank(MeasurementUnit::Events) < kinds::unit_rank(
            MeasurementUnit::SourceUnits,
        ),
        kinds::scope_rank(None) < kinds::scope_rank(Some(MeasurementScope::Host))
            < kinds::scope_rank(Some(MeasurementScope::NetworkNamespace)) < kinds::scope_rank(
            Some(MeasurementScope::Interface),
        ) < kinds::scope_rank(Some(MeasurementScope::Queue)) < kinds::scope_rank(
            Some(MeasurementScope::Socket),
        ),
        kinds::bound_rank(None) < kinds::bound_rank(Some(MeasurementBound::Exact))
            < kinds::bound_rank(Some(MeasurementBound::LowerBound)) < kinds::bound_rank(
            Some(MeasurementBound::Estimate),
        ),
        forall|a: u32, b: u32|
            (#[trigger] kinds::number_rank(Some(a)) < #[trigger] kinds::number_rank(Some(b)) <==> a
                < b) && kinds::number_rank(None) < kinds::number_rank(Some(a)),
        forall|a: u8, b: u8|
            (#[trigger] kinds::byte_rank(Some(a)) < #[trigger] kinds::byte_rank(Some(b)) <==> a
                < b) && kinds::byte_rank(None) < kinds::byte_rank(Some(a)),
{
}

/// Descriptions are compared part by part: by direction first, and by protocol last.
pub proof fn descriptions_are_compared_part_by_part(a: EvidenceDescriptor<Seq<char>>)
    ensures
        ({
            let parts = kinds::descriptor_numbers(a);
            &&& parts.len() == 14
            &&& parts[0] == kinds::direction_rank(a.direction)
            &&& parts[1] == kinds::path_rank(a.path_role)
            &&& parts[2] == kinds::disposition_rank(a.outcome.disposition)
            &&& parts[3] == kinds::signal_rank(a.outcome.signal)
            &&& parts[4] == kinds::role_rank(a.role)
            &&& parts[5] == kinds::form_rank(a.form)
            &&& parts[6] == kinds::unit_rank(a.measurement.unit)
            &&& parts[7] == kinds::scope_rank(a.measurement.scope)
            &&& parts[8] == kinds::bound_rank(a.measurement.bound)
            &&& parts[9] == kinds::number_rank(a.context.ingress_ifindex)
            &&& parts[10] == kinds::number_rank(a.context.egress_ifindex)
            &&& parts[11] == kinds::number_rank(a.context.queue_id)
            &&& parts[12] == kinds::number_rank(a.context.cpu)
            &&& parts[13] == kinds::byte_rank(a.context.protocol)
        }),
{
}

/// A list of numbers comes by the first number at which it differs.
pub proof fn lists_come_by_their_first_difference(a: Seq<int>, b: Seq<int>, from: int, i: int)
    requires
        a.len() == b.len(),
        0 <= from <= i < a.len(),
        forall|j: int| from <= j < i ==> #[trigger] a[j] == b[j],
    ensures
        a[i] < b[i] ==> seqs::lex_before(a, b, from),
        a[i] > b[i] ==> !seqs::lex_before(a, b, from),
    decreases i - from,
{
    if from < i {
        assert(a[from] == b[from]);
        lists_come_by_their_first_difference(a, b, from + 1, i);
    }
}

/// References come by their role first and by their id next.
pub proof fn references_come_by_role_and_id(a: SubjectRef<Seq<char>>, b: SubjectRef<Seq<char>>)
    ensures
        output::role_rank(a.role) < output::role_rank(b.role) ==> kinds::reference_before(a, b),
        a.role == b.role ==> (kinds::reference_before(a, b) <==> text::text_before(a.id, b.id)),
        output::role_rank(a.role) == output::role_rank(b.role) <==> a.role == b.role,
{
}

/// Kinds come by who saw them, by their layer, their domain, their transition, their stage,
/// their description, what they are about, and what they say, in this order.
pub proof fn kinds_come_in_order(a: Kind, b: Kind)
    ensures
        text::text_before(a.provider, b.provider) ==> kinds::kind_before(a, b),
        a.provider == b.provider && a.layer < b.layer ==> kinds::kind_before(a, b),
        a.provider == b.provider && a.layer == b.layer ==> {
            &&& kinds::option_before(a.execution_domain, b.execution_domain)
                ==> kinds::kind_before(a, b)
            &&& a.execution_domain == b.execution_domain ==> {
                &&& kinds::option_before(a.transition, b.transition) ==> kinds::kind_before(a, b)
                &&& a.transition == b.transition ==> {
                    &&& kinds::option_before(a.stage, b.stage) ==> kinds::kind_before(a, b)
                    &&& a.stage == b.stage ==> {
                        &&& a.numbers != b.numbers ==> (kinds::kind_before(a, b)
                            <==> seqs::lex_before(a.numbers, b.numbers, 0))
                        &&& a.numbers == b.numbers && a.references == b.references ==> (
                        kinds::kind_before(a, b) <==> text::text_before(a.evidence, b.evidence))
                    }
                }
            }
        },
        kinds::option_before(None, Some(a.provider)),
        !kinds::option_before(Some(a.provider), None),
        kinds::option_before(Some(a.provider), Some(b.provider)) <==> text::text_before(
            a.provider,
            b.provider,
        ),
{
    text::text_order_is_strict_and_total(a.provider, b.provider, a.provider);
    lemma_options(a.execution_domain);
    lemma_options(a.transition);
    lemma_options(a.stage);
}

proof fn lemma_options(a: Option<Seq<char>>)
    ensures
        !kinds::option_before(a, a),
{
    if let Some(word) = a {
        text::text_order_is_strict_and_total(word, word, word);
    }
}

/// The kind of an event is what is shown of it.
pub proof fn kinds_are_of_their_event(event: Observation)
    ensures
        ({
            let kind = kinds::kind_of(event);
            &&& kind.provider == event.meta.provider@
            &&& kind.layer == kinds::layer_rank(event.meta.layer)
            &&& kind.execution_domain is Some <==> event.meta.execution_domain is Some
            &&& event.meta.execution_domain matches Some(word) ==> kind.execution_domain == Some(
                word@,
            )
            &&& kind.transition is Some <==> event.meta.transition is Some
            &&& event.meta.transition matches Some(word) ==> kind.transition == Some(word@)
            &&& kind.stage is Some <==> event.meta.descriptor.stage is Some
            &&& event.meta.descriptor.stage matches Some(word) ==> kind.stage == Some(word@)
            &&& kind.evidence == output::event_text(event)
        }),
{
}

/// Every event is of a kind that is shown, and no two kinds that are shown are alike.
pub proof fn every_kind_is_shown_once(events: Seq<Observation>, n: int, i: int)
    requires
        0 <= i < n <= events.len(),
    ensures
        exists|k: int|
            0 <= k < output::kinds_upto(events, n).len() && output::alike(
                events[#[trigger] output::kinds_upto(events, n)[k]],
                events[i],
            ),
        forall|p: int, q: int|
            0 <= p < q < output::kinds_upto(events, n).len() ==> !output::alike(
                events[#[trigger] output::kinds_upto(events, n)[p]],
                events[#[trigger] output::kinds_upto(events, n)[q]],
            ),
    decreases n,
{
    let all = output::kinds_upto(events, n);
    let before = output::kinds_upto(events, n - 1);
    kinds::lemma_kinds_unlike(events, n);
    let like = output::is_like(events[n - 1]);
    seqs::lemma_first_where(events, like, n - 1);
    let found = seqs::first_where(events, like, n - 1);
    if i < n - 1 || found is Some {
        let e = if i < n - 1 {
            i
        } else {
            found->0
        };
        every_kind_is_shown_once(events, n - 1, e);
        let k = choose|k: int|
            0 <= k < before.len() && output::alike(events[#[trigger] before[k]], events[e]);
        assert(all[k] == before[k]);
        if i == n - 1 {
            assert(output::alike(events[e], events[i]));
        }
        assert(output::alike(events[all[k]], events[i]));
    } else {
        assert(all[before.len() as int] == n - 1);
        assert(output::alike(events[all[before.len() as int]], events[i]));
    }
}

} // verus!
