//! Kinds of events: what makes events alike, and the order in which kinds are taken.
use crate::evidence::{
    Direction, Disposition, EvidenceDescriptor, EvidenceForm, EvidenceRole, Layer,
    MeasurementBound, MeasurementScope, MeasurementUnit, Observation, PathRole, Signal, SubjectRef,
};
use crate::ordering;
use crate::ordering::numbers_come_first;
use crate::output;
use crate::output::{describe_event, role_position};
use crate::seqs;
use crate::text;
use crate::text::{comes_before, owned, same_option, same_text};
use vstd::prelude::*;

verus! {

/// The place of a layer in the order of events; what has no layer comes first.
pub open spec fn layer_rank(layer: Option<Layer>) -> int {
    match layer {
        None => 0,
        Some(layer) => match layer {
            Layer::Socket => 1,
            Layer::Transport => 2,
            Layer::Network => 3,
            Layer::Netfilter => 4,
            Layer::Route => 5,
            Layer::Xfrm => 6,
            Layer::VirtualDevice => 7,
            Layer::Tc => 8,
            Layer::Netdevice => 9,
            Layer::Xdp => 10,
            Layer::Driver => 11,
            Layer::Nic => 12,
        },
    }
}

fn layer_position(layer: Option<Layer>) -> (position: u128)
    ensures
        position == layer_rank(layer),
{
    match layer {
        None => 0,
        Some(layer) => match layer {
            Layer::Socket => 1,
            Layer::Transport => 2,
            Layer::Network => 3,
            Layer::Netfilter => 4,
            Layer::Route => 5,
            Layer::Xfrm => 6,
            Layer::VirtualDevice => 7,
            Layer::Tc => 8,
            Layer::Netdevice => 9,
            Layer::Xdp => 10,
            Layer::Driver => 11,
            Layer::Nic => 12,
        },
    }
}

pub open spec fn direction_rank(value: Option<Direction>) -> int {
    match value {
        None => 0,
        Some(Direction::Ingress) => 1,
        Some(Direction::Egress) => 2,
    }
}

fn direction_position(value: Option<Direction>) -> (position: u128)
    ensures
        position == direction_rank(value),
{
    match value {
        None => 0,
        Some(Direction::Ingress) => 1,
        Some(Direction::Egress) => 2,
    }
}

pub open spec fn path_rank(value: Option<PathRole>) -> int {
    match value {
        None => 0,
        Some(PathRole::Local) => 1,
        Some(PathRole::Forwarded) => 2,
        Some(PathRole::Tunnel) => 3,
        Some(PathRole::Bridge) => 4,
    }
}

fn path_position(value: Option<PathRole>) -> (position: u128)
    ensures
        position == path_rank(value),
{
    match value {
        None => 0,
        Some(PathRole::Local) => 1,
        Some(PathRole::Forwarded) => 2,
        Some(PathRole::Tunnel) => 3,
        Some(PathRole::Bridge) => 4,
    }
}

pub open spec fn disposition_rank(value: Option<Disposition>) -> int {
    match value {
        None => 0,
        Some(Disposition::Dropped) => 1,
        Some(Disposition::Rejected) => 2,
        Some(Disposition::Consumed) => 3,
        Some(Disposition::Passed) => 4,
        Some(Disposition::Redirected) => 5,
        Some(Disposition::Queued) => 6,
    }
}

fn disposition_position(value: Option<Disposition>) -> (position: u128)
    ensures
        position == disposition_rank(value),
{
    match value {
        None => 0,
        Some(Disposition::Dropped) => 1,
        Some(Disposition::Rejected) => 2,
        Some(Disposition::Consumed) => 3,
        Some(Disposition::Passed) => 4,
        Some(Disposition::Redirected) => 5,
        Some(Disposition::Queued) => 6,
    }
}

pub open spec fn signal_rank(value: Option<Signal>) -> int {
    match value {
        None => 0,
        Some(Signal::Aborted) => 1,
        Some(Signal::RedirectFailed) => 2,
        Some(Signal::Backpressure) => 3,
        Some(Signal::Congestion) => 4,
        Some(Signal::Pressure) => 5,
        Some(Signal::Timeout) => 6,
        Some(Signal::Retransmission) => 7,
        Some(Signal::Reset) => 8,
        Some(Signal::Error) => 9,
    }
}

fn signal_position(value: Option<Signal>) -> (position: u128)
    ensures
        position == signal_rank(value),
{
    match value {
        None => 0,
        Some(Signal::Aborted) => 1,
        Some(Signal::RedirectFailed) => 2,
        Some(Signal::Backpressure) => 3,
        Some(Signal::Congestion) => 4,
        Some(Signal::Pressure) => 5,
        Some(Signal::Timeout) => 6,
        Some(Signal::Retransmission) => 7,
        Some(Signal::Reset) => 8,
        Some(Signal::Error) => 9,
    }
}

pub open spec fn role_rank(value: EvidenceRole) -> int {
    match value {
        EvidenceRole::Causal => 0,
        EvidenceRole::Symptom => 1,
        EvidenceRole::Context => 2,
        EvidenceRole::Telemetry => 3,
    }
}

fn role_position_in(value: EvidenceRole) -> (position: u128)
    ensures
        position == role_rank(value),
{
    match value {
        EvidenceRole::Causal => 0,
        EvidenceRole::Symptom => 1,
        EvidenceRole::Context => 2,
        EvidenceRole::Telemetry => 3,
    }
}

pub open spec fn form_rank(value: EvidenceForm) -> int {
    match value {
        EvidenceForm::CounterDelta => 0,
        EvidenceForm::Event => 1,
    }
}

fn form_position(value: EvidenceForm) -> (position: u128)
    ensures
        position == form_rank(value),
{
    match value {
        EvidenceForm::CounterDelta => 0,
        EvidenceForm::Event => 1,
    }
}

pub open spec fn unit_rank(value: MeasurementUnit) -> int {
    match value {
        MeasurementUnit::Packets => 0,
        MeasurementUnit::Bytes => 1,
        MeasurementUnit::Events => 2,
        MeasurementUnit::SourceUnits => 3,
    }
}

fn unit_position(value: MeasurementUnit) -> (position: u128)
    ensures
        position == unit_rank(value),
{
    match value {
        MeasurementUnit::Packets => 0,
        MeasurementUnit::Bytes => 1,
        MeasurementUnit::Events => 2,
        MeasurementUnit::SourceUnits => 3,
    }
}

pub open spec fn scope_rank(value: Option<MeasurementScope>) -> int {
    match value {
        None => 0,
        Some(MeasurementScope::Host) => 1,
        Some(MeasurementScope::NetworkNamespace) => 2,
        Some(MeasurementScope::Interface) => 3,
        Some(MeasurementScope::Queue) => 4,
        Some(MeasurementScope::Socket) => 5,
    }
}

fn scope_position(value: Option<MeasurementScope>) -> (position: u128)
    ensures
        position == scope_rank(value),
{
    match value {
        None => 0,
        Some(MeasurementScope::Host) => 1,
        Some(MeasurementScope::NetworkNamespace) => 2,
        Some(MeasurementScope::Interface) => 3,
        Some(MeasurementScope::Queue) => 4,
        Some(MeasurementScope::Socket) => 5,
    }
}

pub open spec fn bound_rank(value: Option<MeasurementBound>) -> int {
    match value {
        None => 0,
        Some(MeasurementBound::Exact) => 1,
        Some(MeasurementBound::LowerBound) => 2,
        Some(MeasurementBound::Estimate) => 3,
    }
}

fn bound_position(value: Option<MeasurementBound>) -> (position: u128)
    ensures
        position == bound_rank(value),
{
    match value {
        None => 0,
        Some(MeasurementBound::Exact) => 1,
        Some(MeasurementBound::LowerBound) => 2,
        Some(MeasurementBound::Estimate) => 3,
    }
}

/// A number that may be missing; a missing one comes first.
pub open spec fn number_rank(value: Option<u32>) -> int {
    match value {
        None => 0,
        Some(n) => n + 1,
    }
}

fn number_position(value: Option<u32>) -> (position: u128)
    ensures
        position == number_rank(value),
{
    match value {
        None => 0,
        Some(n) => n as u128 + 1,
    }
}

pub open spec fn byte_rank(value: Option<u8>) -> int {
    match value {
        None => 0,
        Some(n) => n + 1,
    }
}

fn byte_position(value: Option<u8>) -> (position: u128)
    ensures
        position == byte_rank(value),
{
    match value {
        None => 0,
        Some(n) => n as u128 + 1,
    }
}

/// What orders descriptors of one stage: the first number that differs.
pub open spec fn descriptor_numbers(descriptor: EvidenceDescriptor<Seq<char>>) -> Seq<int> {
    seq![
        direction_rank(descriptor.direction),
        path_rank(descriptor.path_role),
        disposition_rank(descriptor.outcome.disposition),
        signal_rank(descriptor.outcome.signal),
        role_rank(descriptor.role),
        form_rank(descriptor.form),
        unit_rank(descriptor.measurement.unit),
        scope_rank(descriptor.measurement.scope),
        bound_rank(descriptor.measurement.bound),
        number_rank(descriptor.context.ingress_ifindex),
        number_rank(descriptor.context.egress_ifindex),
        number_rank(descriptor.context.queue_id),
        number_rank(descriptor.context.cpu),
        byte_rank(descriptor.context.protocol),
    ]
}

fn numbers_of(descriptor: &EvidenceDescriptor<String>) -> (numbers: Vec<u128>)
    ensures
        ordering::ints(numbers@) == descriptor_numbers(descriptor.deep_view()),
{
    let numbers: Vec<u128> = vec![
        direction_position(descriptor.direction),
        path_position(descriptor.path_role),
        disposition_position(descriptor.outcome.disposition),
        signal_position(descriptor.outcome.signal),
        role_position_in(descriptor.role),
        form_position(descriptor.form),
        unit_position(descriptor.measurement.unit),
        scope_position(descriptor.measurement.scope),
        bound_position(descriptor.measurement.bound),
        number_position(descriptor.context.ingress_ifindex),
        number_position(descriptor.context.egress_ifindex),
        number_position(descriptor.context.queue_id),
        number_position(descriptor.context.cpu),
        byte_position(descriptor.context.protocol),
    ];
    assert(ordering::ints(numbers@) =~= descriptor_numbers(descriptor.deep_view()));
    numbers
}

/// Whether a text that may be missing comes before another; a missing one comes first.
pub open spec fn option_before(a: Option<Seq<char>>, b: Option<Seq<char>>) -> bool {
    match (a, b) {
        (None, Some(_)) => true,
        (Some(a), Some(b)) => text::text_before(a, b),
        _ => false,
    }
}

fn option_comes_before(a: &Option<String>, b: &Option<String>) -> (before: bool)
    ensures
        before == option_before(text::optional_text(*a), text::optional_text(*b)),
{
    match (a, b) {
        (None, Some(_)) => true,
        (Some(a), Some(b)) => comes_before(a.as_str(), b.as_str()),
        _ => false,
    }
}

type Reference = SubjectRef<Seq<char>>;

/// The order of references: by role, and by the subject that they lead to.
pub open spec fn reference_before(a: Reference, b: Reference) -> bool {
    if a.role != b.role {
        output::role_rank(a.role) < output::role_rank(b.role)
    } else {
        text::text_before(a.id, b.id)
    }
}

pub open spec fn reference_order() -> spec_fn(Reference, Reference) -> bool {
    |a: Reference, b: Reference| reference_before(a, b)
}

fn reference_comes_before(a: &SubjectRef<String>, b: &SubjectRef<String>) -> (before: bool)
    ensures
        before == reference_before(a.deep_view(), b.deep_view()),
{
    if a.role != b.role {
        role_position(a.role) < role_position(b.role)
    } else {
        comes_before(a.id.as_str(), b.id.as_str())
    }
}

/// The first `n` references in order, each once.
pub open spec fn references_upto(refs: Seq<Reference>, n: int) -> Seq<Reference>
    decreases n,
{
    if n <= 0 {
        Seq::empty()
    } else {
        let before = references_upto(refs, n - 1);
        if before.contains(refs[n - 1]) {
            before
        } else {
            before.insert(
                seqs::place_of(before, reference_order(), refs[n - 1], before.len() as int),
                refs[n - 1],
            )
        }
    }
}

/// The references in order, each once.
pub open spec fn reference_list(refs: Seq<Reference>) -> Seq<Reference> {
    references_upto(refs, refs.len() as int)
}

fn list_references(refs: &Vec<SubjectRef<String>>) -> (list: Vec<SubjectRef<String>>)
    ensures
        list.deep_view() == reference_list(refs.deep_view()),
{
    let ghost all = refs.deep_view();
    let ghost order = reference_order();
    assert(all.len() == refs@.len());
    let mut list: Vec<SubjectRef<String>> = Vec::new();
    assert(list.deep_view() =~= Seq::<Reference>::empty());
    for i in 0..refs.len()
        invariant
            all == refs.deep_view(),
            all.len() == refs@.len(),
            order == reference_order(),
            list.deep_view() == references_upto(all, i as int),
    {
        assert(all[i as int] == refs@[i as int].deep_view());
        if !output::contains_reference(&list, &refs[i]) {
            let ghost before = list.deep_view();
            assert(before.len() == list@.len());
            let mut at: usize = list.len();
            while at > 0 && reference_comes_before(&refs[i], &list[at - 1])
                invariant
                    at <= list@.len(),
                    i < refs@.len(),
                    before == list.deep_view(),
                    before.len() == list@.len(),
                    order == reference_order(),
                    all[i as int] == refs@[i as int].deep_view(),
                    seqs::place_of(before, order, all[i as int], at as int) == seqs::place_of(
                        before,
                        order,
                        all[i as int],
                        before.len() as int,
                    ),
                decreases at,
            {
                assert(before[at - 1] == list@[at - 1].deep_view());
                at -= 1;
            }
            if at > 0 {
                assert(before[at - 1] == list@[at - 1].deep_view());
            }
            let reference = SubjectRef { role: refs[i].role, id: owned(refs[i].id.as_str()) };
            list.insert(at, reference);
            assert(list.deep_view() =~= before.insert(at as int, all[i as int]));
        }
    }
    list
}

/// Whether a list of references comes before another, from its place `i` on.
pub open spec fn list_before(a: Seq<Reference>, b: Seq<Reference>, i: int) -> bool
    decreases b.len() - i,
{
    if i >= b.len() {
        false
    } else if i >= a.len() {
        true
    } else if a[i] == b[i] {
        list_before(a, b, i + 1)
    } else {
        reference_before(a[i], b[i])
    }
}

fn list_comes_before(a: &Vec<SubjectRef<String>>, b: &Vec<SubjectRef<String>>) -> (before: bool)
    ensures
        before == list_before(a.deep_view(), b.deep_view(), 0),
{
    let ghost x = a.deep_view();
    let ghost y = b.deep_view();
    let mut i: usize = 0;
    while i < b.len()
        invariant
            i <= b@.len(),
            i <= a@.len(),
            x == a.deep_view(),
            y == b.deep_view(),
            x.len() == a@.len(),
            y.len() == b@.len(),
            list_before(x, y, 0) == list_before(x, y, i as int),
        decreases b@.len() - i,
    {
        if i >= a.len() {
            return true;
        }
        assert(x[i as int] == a@[i as int].deep_view());
        assert(y[i as int] == b@[i as int].deep_view());
        if a[i].role != b[i].role || !same_text(a[i].id.as_str(), b[i].id.as_str()) {
            return reference_comes_before(&a[i], &b[i]);
        }
        i += 1;
    }
    false
}

/// What makes events alike.
#[verifier::ext_equal]
pub struct Kind {
    pub provider: Seq<char>,
    pub layer: int,
    pub execution_domain: Option<Seq<char>>,
    pub transition: Option<Seq<char>>,
    pub stage: Option<Seq<char>>,
    pub numbers: Seq<int>,
    pub references: Seq<Reference>,
    pub evidence: Seq<char>,
}

pub open spec fn kind_of(observation: Observation) -> Kind {
    let meta = observation.meta;
    Kind {
        provider: meta.provider@,
        layer: layer_rank(meta.layer),
        execution_domain: text::optional_text(meta.execution_domain),
        transition: text::optional_text(meta.transition),
        stage: text::optional_text(meta.descriptor.stage),
        numbers: descriptor_numbers(meta.descriptor.deep_view()),
        references: reference_list(meta.subjects.deep_view()),
        evidence: output::event_text(observation),
    }
}

/// The order of kinds: by provider, layer, domain, transition, descriptor, subjects and
/// words.
pub open spec fn kind_before(a: Kind, b: Kind) -> bool {
    if a.provider != b.provider {
        text::text_before(a.provider, b.provider)
    } else if a.layer != b.layer {
        a.layer < b.layer
    } else if a.execution_domain != b.execution_domain {
        option_before(a.execution_domain, b.execution_domain)
    } else if a.transition != b.transition {
        option_before(a.transition, b.transition)
    } else if a.stage != b.stage {
        option_before(a.stage, b.stage)
    } else if a.numbers != b.numbers {
        seqs::lex_before(a.numbers, b.numbers, 0)
    } else if a.references != b.references {
        list_before(a.references, b.references, 0)
    } else {
        text::text_before(a.evidence, b.evidence)
    }
}

/// Whether the kind of an event comes before that of another.
pub open spec fn precedes(a: Observation, b: Observation) -> bool {
    kind_before(kind_of(a), kind_of(b))
}

fn same_list(a: &Vec<SubjectRef<String>>, b: &Vec<SubjectRef<String>>) -> (same: bool)
    ensures
        same == (a.deep_view() == b.deep_view()),
{
    let ghost x = a.deep_view();
    let ghost y = b.deep_view();
    assert(x.len() == a@.len() && y.len() == b@.len());
    if a.len() != b.len() {
        return false;
    }
    let mut i: usize = 0;
    while i < a.len()
        invariant
            i <= a@.len(),
            x == a.deep_view(),
            y == b.deep_view(),
            x.len() == a@.len(),
            y.len() == b@.len(),
            a@.len() == b@.len(),
            forall|j: int| 0 <= j < i ==> x[j] == y[j],
        decreases a@.len() - i,
    {
        assert(x[i as int] == a@[i as int].deep_view());
        assert(y[i as int] == b@[i as int].deep_view());
        if a[i].role != b[i].role || !same_text(a[i].id.as_str(), b[i].id.as_str()) {
            return false;
        }
        i += 1;
    }
    assert(x =~= y);
    true
}

pub(crate) fn comes_first(a: &Observation, b: &Observation) -> (first: bool)
    ensures
        first == precedes(*a, *b),
{
    let x = &a.meta;
    let y = &b.meta;
    if !same_text(x.provider.as_str(), y.provider.as_str()) {
        return comes_before(x.provider.as_str(), y.provider.as_str());
    }
    if layer_position(x.layer) != layer_position(y.layer) {
        return layer_position(x.layer) < layer_position(y.layer);
    }
    if !same_option(&x.execution_domain, &y.execution_domain) {
        return option_comes_before(&x.execution_domain, &y.execution_domain);
    }
    if !same_option(&x.transition, &y.transition) {
        return option_comes_before(&x.transition, &y.transition);
    }
    if !same_option(&x.descriptor.stage, &y.descriptor.stage) {
        return option_comes_before(&x.descriptor.stage, &y.descriptor.stage);
    }
    let p = numbers_of(&x.descriptor);
    let q = numbers_of(&y.descriptor);
    let ghost m = ordering::ints(p@);
    let ghost n = ordering::ints(q@);
    assert(p@.len() == m.len() && q@.len() == n.len());
    proof {
        lemma_numbers_ordered(m, n, 0);
    }
    if numbers_come_first(&p, &q) {
        proof {
            lemma_irreflexive(m, 0);
        }
        return true;
    }
    if numbers_come_first(&q, &p) {
        proof {
            lemma_irreflexive(m, 0);
        }
        return false;
    }
    assert(m =~= n);
    let s = list_references(&x.subjects);
    let t = list_references(&y.subjects);
    if !same_list(&s, &t) {
        return list_comes_before(&s, &t);
    }
    let left = describe_event(a);
    let right = describe_event(b);
    comes_before(left.as_str(), right.as_str())
}

proof fn lemma_irreflexive(a: Seq<int>, i: int)
    requires
        0 <= i,
    ensures
        !seqs::lex_before(a, a, i),
    decreases a.len() - i,
{
    if i < a.len() {
        lemma_irreflexive(a, i + 1);
    }
}

/// Of two lists of numbers of one length, one comes first or they are the same.
proof fn lemma_numbers_ordered(a: Seq<int>, b: Seq<int>, i: int)
    requires
        a.len() == b.len(),
        0 <= i,
    ensures
        seqs::lex_before(a, b, i) ==> !seqs::lex_before(b, a, i),
        !seqs::lex_before(a, b, i) && !seqs::lex_before(b, a, i) ==> forall|j: int|
            i <= j < a.len() ==> #[trigger] a[j] == b[j],
    decreases a.len() - i,
{
    if i < a.len() {
        lemma_numbers_ordered(a, b, i + 1);
    }
}

proof fn lemma_numbers_chain(a: Seq<int>, b: Seq<int>, c: Seq<int>, i: int)
    requires
        a.len() == b.len() == c.len(),
        0 <= i,
    ensures
        seqs::lex_before(a, b, i) && seqs::lex_before(b, c, i) ==> seqs::lex_before(a, c, i),
    decreases a.len() - i,
{
    if i < a.len() {
        lemma_numbers_chain(a, b, c, i + 1);
    }
}

pub proof fn lemma_references_ordered(a: Reference, b: Reference, c: Reference)
    ensures
        a != b ==> (reference_before(a, b) <==> !reference_before(b, a)),
        !reference_before(a, a),
        reference_before(a, b) && reference_before(b, c) ==> reference_before(a, c),
{
    text::text_order_is_strict_and_total(a.id, b.id, c.id);
    text::text_order_is_strict_and_total(a.id, b.id, a.id);
}

proof fn lemma_options_ordered(a: Option<Seq<char>>, b: Option<Seq<char>>, c: Option<Seq<char>>)
    ensures
        a != b ==> (option_before(a, b) <==> !option_before(b, a)),
        !option_before(a, a),
        option_before(a, b) && option_before(b, c) ==> option_before(a, c),
{
    let x = a.unwrap_or(Seq::empty());
    let y = b.unwrap_or(Seq::empty());
    let z = c.unwrap_or(Seq::empty());
    text::text_order_is_strict_and_total(x, y, z);
    text::text_order_is_strict_and_total(x, y, x);
}

proof fn lemma_texts_ordered(a: Seq<char>, b: Seq<char>, c: Seq<char>)
    ensures
        a != b ==> (text::text_before(a, b) <==> !text::text_before(b, a)),
        !text::text_before(a, a),
        text::text_before(a, b) && text::text_before(b, c) ==> text::text_before(a, c),
{
    text::text_order_is_strict_and_total(a, b, c);
    text::text_order_is_strict_and_total(a, b, a);
}

proof fn lemma_lists_ordered(a: Seq<Reference>, b: Seq<Reference>, c: Seq<Reference>, i: int)
    requires
        0 <= i <= a.len(),
        i <= b.len(),
        i <= c.len(),
    ensures
        list_before(a, b, i) ==> !list_before(b, a, i),
        !list_before(a, b, i) && !list_before(b, a, i) ==> a.len() == b.len() && forall|j: int|
            i <= j < a.len() ==> #[trigger] a[j] == b[j],
        !list_before(a, a, i),
        list_before(a, b, i) && list_before(b, c, i) ==> list_before(a, c, i),
    decreases a.len() - i,
{
    if i < a.len() {
        if i < b.len() {
            if i < c.len() {
                lemma_references_ordered(a[i], b[i], c[i]);
                lemma_lists_ordered(a, b, c, i + 1);
            } else {
                lemma_references_ordered(a[i], b[i], a[i]);
                lemma_lists_ordered(a, b, a, i + 1);
            }
        } else {
            lemma_lists_ordered(a, a, a, i + 1);
        }
    }
}

/// Two kinds, and how their parts stand to each other.
pub proof fn lemma_parts_ordered(a: Kind, b: Kind, c: Kind)
    requires
        a.numbers.len() == b.numbers.len() == c.numbers.len(),
    ensures
        a != b ==> (kind_before(a, b) <==> !kind_before(b, a)),
        !kind_before(a, a),
        kind_before(a, b) && kind_before(b, c) ==> kind_before(a, c),
{
    lemma_texts_ordered(a.provider, b.provider, c.provider);
    lemma_options_ordered(a.execution_domain, b.execution_domain, c.execution_domain);
    lemma_options_ordered(a.transition, b.transition, c.transition);
    lemma_options_ordered(a.stage, b.stage, c.stage);
    lemma_numbers_ordered(a.numbers, b.numbers, 0);
    lemma_numbers_ordered(a.numbers, c.numbers, 0);
    lemma_numbers_ordered(b.numbers, c.numbers, 0);
    lemma_numbers_chain(a.numbers, b.numbers, c.numbers, 0);
    if !seqs::lex_before(a.numbers, b.numbers, 0) && !seqs::lex_before(b.numbers, a.numbers, 0) {
        assert(a.numbers =~= b.numbers);
    }
    lemma_lists_ordered(a.references, b.references, c.references, 0);
    if !list_before(a.references, b.references, 0) && !list_before(b.references, a.references, 0) {
        assert(a.references =~= b.references);
    }
    lemma_texts_ordered(a.evidence, b.evidence, c.evidence);
    lemma_texts_ordered(b.provider, c.provider, a.provider);
    lemma_options_ordered(b.execution_domain, c.execution_domain, a.execution_domain);
    lemma_options_ordered(b.transition, c.transition, a.transition);
    lemma_options_ordered(b.stage, c.stage, a.stage);
    lemma_lists_ordered(b.references, c.references, a.references, 0);
    lemma_texts_ordered(b.evidence, c.evidence, a.evidence);
}

/// The list of references holds the references, each once.
pub proof fn lemma_references_held(refs: Seq<Reference>, n: int)
    requires
        0 <= n <= refs.len(),
    ensures
        references_upto(refs, n).to_set() == refs.take(n).to_set(),
    decreases n,
{
    let list = references_upto(refs, n);
    if n > 0 {
        lemma_references_held(refs, n - 1);
        let before = references_upto(refs, n - 1);
        let new = refs[n - 1];
        let at = seqs::place_of(before, reference_order(), new, before.len() as int);
        seqs::lemma_place_of(before, reference_order(), new, before.len() as int);
        seqs::lemma_take_push(refs, n - 1);
        assert forall|r: Reference| list.to_set().contains(r) <==> (before.to_set().contains(r)
            || r == new) by {
            if before.contains(new) {
            } else {
                assert(list[at] == new);
                if before.contains(r) {
                    let k = choose|k: int| 0 <= k < before.len() && before[k] == r;
                    if k < at {
                        assert(list[k] == r);
                    } else {
                        assert(list[k + 1] == r);
                    }
                }
                if list.contains(r) && r != new {
                    let k = choose|k: int| 0 <= k < list.len() && list[k] == r;
                    if k < at {
                        assert(before[k] == r);
                    } else {
                        assert(before[k - 1] == r);
                    }
                }
            }
        }
        assert forall|r: Reference| refs.take(n).to_set().contains(r) <==> (refs.take(
            n - 1,
        ).to_set().contains(r) || r == new) by {
            let before = refs.take(n - 1);
            let after = refs.take(n);
            assert(after[n - 1] == new);
            if before.contains(r) {
                let k = choose|k: int| 0 <= k < before.len() && before[k] == r;
                assert(after[k] == r);
            }
            if after.contains(r) && r != new {
                let k = choose|k: int| 0 <= k < after.len() && after[k] == r;
                assert(before[k] == r);
            }
        }
    }
    assert(list.to_set() =~= refs.take(n).to_set());
}

/// Descriptors with the same stage and the same numbers are the same.
proof fn lemma_descriptors_told(
    a: EvidenceDescriptor<Seq<char>>,
    b: EvidenceDescriptor<Seq<char>>,
)
    requires
        a.stage == b.stage,
        descriptor_numbers(a) == descriptor_numbers(b),
    ensures
        a == b,
{
    let x = descriptor_numbers(a);
    let y = descriptor_numbers(b);
    assert(x[0] == y[0] && x[1] == y[1] && x[2] == y[2] && x[3] == y[3] && x[4] == y[4]);
    assert(x[5] == y[5] && x[6] == y[6] && x[7] == y[7] && x[8] == y[8] && x[9] == y[9]);
    assert(x[10] == y[10] && x[11] == y[11] && x[12] == y[12] && x[13] == y[13]);
}

/// Events of one kind are alike.
pub proof fn lemma_one_kind(a: Observation, b: Observation)
    requires
        kind_of(a) == kind_of(b),
    ensures
        output::alike(a, b),
{
    let x = a.meta;
    let y = b.meta;
    lemma_descriptors_told(x.descriptor.deep_view(), y.descriptor.deep_view());
    let p = x.subjects.deep_view();
    let q = y.subjects.deep_view();
    lemma_references_held(p, p.len() as int);
    lemma_references_held(q, q.len() as int);
    seqs::lemma_take_all(p);
    seqs::lemma_take_all(q);
    assert(x.layer == y.layer);
}

/// Kinds of events are ordered, and every two of them: which of two events that are not
/// alike comes first does not depend on which of them was seen first.
pub proof fn kinds_are_told_apart(a: Observation, b: Observation, c: Observation)
    ensures
        precedes(a, b) ==> !precedes(b, a),
        precedes(a, b) && precedes(b, c) ==> precedes(a, c),
        !output::alike(a, b) ==> precedes(a, b) || precedes(b, a),
{
    lemma_parts_ordered(kind_of(a), kind_of(b), kind_of(c));
    if kind_of(a) == kind_of(b) {
        lemma_one_kind(a, b);
    }
}

/// The order of kinds is an order of the events that stand for them.
pub proof fn lemma_kind_order(observations: Seq<Observation>)
    ensures
        seqs::is_order(output::kind_order(observations)),
{
    let order = output::kind_order(observations);
    assert forall|i: int, j: int| #[trigger] order(i, j) implies !order(j, i) by {
        kinds_are_told_apart(observations[i], observations[j], observations[i]);
    }
    assert forall|i: int, j: int, k: int|
        !#[trigger] order(j, i) && !#[trigger] order(k, j) implies !order(k, i) by {
        let x = kind_of(observations[i]);
        let y = kind_of(observations[j]);
        let z = kind_of(observations[k]);
        lemma_parts_ordered(x, y, z);
        lemma_parts_ordered(y, z, x);
        lemma_parts_ordered(z, x, y);
        lemma_parts_ordered(z, y, x);
        lemma_parts_ordered(x, z, y);
    }
}

pub proof fn lemma_kinds_unlike(observations: Seq<Observation>, n: int)
    requires
        0 <= n <= observations.len(),
    ensures
        forall|p: int|
            0 <= p < output::kinds_upto(observations, n).len() ==> 0 <= (
            #[trigger] output::kinds_upto(observations, n)[p]) < n,
        forall|p: int, q: int|
            0 <= p < q < output::kinds_upto(observations, n).len() ==> !output::alike(
                observations[#[trigger] output::kinds_upto(observations, n)[p]],
                observations[#[trigger] output::kinds_upto(observations, n)[q]],
            ),
    decreases n,
{
    if n > 0 {
        lemma_kinds_unlike(observations, n - 1);
        let before = output::kinds_upto(observations, n - 1);
        let after = output::kinds_upto(observations, n);
        let wanted = output::is_like(observations[n - 1]);
        seqs::lemma_first_where(observations, wanted, n - 1);
        if after.len() > before.len() {
            assert forall|p: int, q: int| 0 <= p < q < after.len() implies !output::alike(
                observations[#[trigger] after[p]],
                observations[#[trigger] after[q]],
            ) by {
                assert(after[p] == before[p]);
                if q < before.len() {
                    assert(after[q] == before[q]);
                } else {
                    assert(after[q] == n - 1);
                    assert(!wanted(observations[before[p]]));
                }
            }
            assert forall|p: int| 0 <= p < after.len() implies 0 <= (#[trigger] after[p]) < n by {
                if p < before.len() {
                    assert(after[p] == before[p]);
                }
            }
        }
    }
}

/// The kinds of events of a report stand in strict order: no two stand as they were seen.
pub proof fn kinds_stand_in_order(observations: Seq<Observation>, p: int, q: int)
    requires
        0 <= p < q < output::kinds_of(observations).len(),
    ensures
        precedes(
            observations[output::kinds_of(observations)[p]],
            observations[output::kinds_of(observations)[q]],
        ),
{
    let n = observations.len() as int;
    let found = output::kinds_upto(observations, n);
    let kinds = output::kinds_of(observations);
    let order = output::kind_order(observations);
    lemma_kinds_unlike(observations, n);
    lemma_kind_order(observations);
    seqs::ordering_sorts(found, order, found.len() as int);
    seqs::lemma_take_all(found);
    assert(!order(kinds[q], kinds[p]));
    assert(found.no_duplicates()) by {
        assert forall|i: int, j: int| 0 <= i < found.len() && 0 <= j < found.len() && i != j implies
            found[i] != found[j] by {
            let a = if i < j {
                i
            } else {
                j
            };
            let b = if i < j {
                j
            } else {
                i
            };
            assert(!output::alike(observations[found[a]], observations[found[b]]));
        }
    }
    found.to_multiset_ensures();
    kinds.to_multiset_ensures();
    found.lemma_multiset_has_no_duplicates();
    assert forall|x: int| kinds.to_multiset().contains(x) implies kinds.to_multiset().count(x)
        == 1 by {
        assert(found.to_multiset().contains(x));
    }
    kinds.lemma_multiset_has_no_duplicates_conv();
    assert(kinds.contains(kinds[p]) && kinds.contains(kinds[q]));
    assert(kinds.to_multiset().count(kinds[p]) > 0 && kinds.to_multiset().count(kinds[q]) > 0);
    assert(found.contains(kinds[p]) && found.contains(kinds[q]));
    let i = choose|i: int| 0 <= i < found.len() && found[i] == kinds[p];
    let j = choose|j: int| 0 <= j < found.len() && found[j] == kinds[q];
    assert(kinds[p] != kinds[q]);
    let a = observations[kinds[p]];
    let b = observations[kinds[q]];
    if i < j {
        assert(!output::alike(observations[found[i]], observations[found[j]]));
        kinds_are_told_apart(a, b, a);
    } else {
        assert(!output::alike(observations[found[j]], observations[found[i]]));
        kinds_are_told_apart(b, a, b);
    }
}

} // verus!
