//! The order in which events arrive, which a report does not show.
use crate::evidence::{Observation, Subject, SubjectRef};
use crate::kinds;
use crate::output;
use crate::output::Endpoint;
use crate::report::Report;
use crate::seqs;
use crate::text;
use vstd::prelude::*;
use vstd::relations::{sorted_by, total_ordering};

verus! {

type Reference = SubjectRef<Seq<char>>;

type Place = Endpoint<Seq<char>>;

/// How many elements satisfy `p` is how often `p` is true of them.
proof fn lemma_counted<A>(s: Seq<A>, p: spec_fn(A) -> bool, n: int)
    requires
        0 <= n <= s.len(),
    ensures
        seqs::count_where(s, p, n) == s.map_values(p).take(n).to_multiset().count(true),
    decreases n,
{
    broadcast use vstd::seq_lib::group_to_multiset_ensures;

    let found = s.map_values(p);
    if n > 0 {
        lemma_counted(s, p, n - 1);
        assert(found.take(n) =~= found.take(n - 1).push(p(s[n - 1])));
        vstd::seq_lib::to_multiset_build(found.take(n - 1), p(s[n - 1]));
    } else {
        assert(found.take(0) =~= Seq::<bool>::empty());
    }
}

/// As many elements satisfy `p`, in whatever order they stand.
proof fn lemma_counts_agree<A>(a: Seq<A>, b: Seq<A>, p: spec_fn(A) -> bool)
    requires
        a.to_multiset() == b.to_multiset(),
    ensures
        seqs::count_where(a, p, a.len() as int) == seqs::count_where(b, p, b.len() as int),
{
    lemma_counted(a, p, a.len() as int);
    lemma_counted(b, p, b.len() as int);
    seqs::lemma_map_keeps_multisets(a, b, p);
    seqs::lemma_take_all(a.map_values(p));
    seqs::lemma_take_all(b.map_values(p));
}

proof fn lemma_same_elements<A>(a: Seq<A>, b: Seq<A>, x: A)
    requires
        a.to_multiset() == b.to_multiset(),
    ensures
        a.contains(x) <==> b.contains(x),
{
    broadcast use vstd::seq_lib::group_to_multiset_ensures;

    assert(a.to_multiset().count(x) == b.to_multiset().count(x));
    assert(a.contains(x) <==> a.to_multiset().count(x) > 0);
    assert(b.contains(x) <==> b.to_multiset().count(x) > 0);
}

/// References in order are in strict order.
proof fn lemma_list_is_strict(refs: Seq<Reference>, n: int)
    requires
        0 <= n <= refs.len(),
    ensures
        forall|i: int, j: int|
            0 <= i < j < kinds::references_upto(refs, n).len() ==> kinds::reference_before(
                #[trigger] kinds::references_upto(refs, n)[i],
                #[trigger] kinds::references_upto(refs, n)[j],
            ),
    decreases n,
{
    if n > 0 {
        lemma_list_is_strict(refs, n - 1);
        let before = kinds::references_upto(refs, n - 1);
        let after = kinds::references_upto(refs, n);
        let new = refs[n - 1];
        let order = kinds::reference_order();
        if !before.contains(new) {
            assert forall|a: Reference, b: Reference| #[trigger] order(a, b) implies !order(
                b,
                a,
            ) by {
                kinds::lemma_references_ordered(a, b, a);
            }
            assert forall|a: Reference, b: Reference, c: Reference|
                !#[trigger] order(b, a) && !#[trigger] order(c, b) implies !order(c, a) by {
                kinds::lemma_references_ordered(a, b, c);
                kinds::lemma_references_ordered(c, a, b);
                kinds::lemma_references_ordered(b, c, a);
            }
            assert forall|i: int, j: int| 0 <= i < j < before.len() implies !order(
                #[trigger] before[j],
                #[trigger] before[i],
            ) by {
                kinds::lemma_references_ordered(before[i], before[j], before[i]);
            }
            let at = seqs::place_of(before, order, new, before.len() as int);
            seqs::lemma_place_of(before, order, new, before.len() as int);
            seqs::lemma_place_splits(before, order, new, before.len() as int);
            assert forall|i: int, j: int|
                0 <= i < j < after.len() implies kinds::reference_before(
                #[trigger] after[i],
                #[trigger] after[j],
            ) by {
                if j == at {
                    assert(after[i] == before[i]);
                    assert(!order(new, before[i]));
                    assert(before[i] != new);
                    kinds::lemma_references_ordered(before[i], new, new);
                } else if i == at {
                    assert(after[j] == before[j - 1]);
                    assert(order(new, before[j - 1]));
                } else {
                    let k = if i < at {
                        i
                    } else {
                        i - 1
                    };
                    let l = if j < at {
                        j
                    } else {
                        j - 1
                    };
                    assert(after[i] == before[k] && after[j] == before[l]);
                }
            }
        }
    }
}

/// References to the same subjects have one list.
proof fn lemma_one_list(a: Seq<Reference>, b: Seq<Reference>)
    requires
        a.to_set() == b.to_set(),
    ensures
        kinds::reference_list(a) == kinds::reference_list(b),
{
    let x = kinds::reference_list(a);
    let y = kinds::reference_list(b);
    let order = kinds::reference_order();
    lemma_list_is_strict(a, a.len() as int);
    lemma_list_is_strict(b, b.len() as int);
    kinds::lemma_references_held(a, a.len() as int);
    kinds::lemma_references_held(b, b.len() as int);
    seqs::lemma_take_all(a);
    seqs::lemma_take_all(b);
    assert forall|p: Reference, q: Reference| #[trigger] order(p, q) implies !order(q, p) by {
        kinds::lemma_references_ordered(p, q, p);
    }
    assert forall|r: Reference| #[trigger] x.contains(r) <==> y.contains(r) by {
        assert(x.to_set().contains(r) <==> y.to_set().contains(r));
    }
    assert forall|i: int, j: int| 0 <= i < j < x.len() implies order(
        #[trigger] x[i],
        #[trigger] x[j],
    ) by {
        assert(kinds::reference_before(x[i], x[j]));
    }
    assert forall|i: int, j: int| 0 <= i < j < y.len() implies order(
        #[trigger] y[i],
        #[trigger] y[j],
    ) by {
        assert(kinds::reference_before(y[i], y[j]));
    }
    seqs::lemma_strict_order_is_unique(x, y, order);
}

/// Events are alike exactly if they are of one kind.
pub proof fn alike_events_are_of_one_kind(a: Observation, b: Observation)
    ensures
        output::alike(a, b) <==> kinds::kind_of(a) == kinds::kind_of(b),
{
    if output::alike(a, b) {
        lemma_one_list(a.meta.subjects.deep_view(), b.meta.subjects.deep_view());
        assert(a.meta.descriptor.deep_view().stage == b.meta.descriptor.deep_view().stage);
        assert(kinds::kind_of(a) =~= kinds::kind_of(b));
    }
    if kinds::kind_of(a) == kinds::kind_of(b) {
        kinds::lemma_one_kind(a, b);
    }
}

/// Every event is like one of the kinds.
proof fn lemma_kinds_cover(observations: Seq<Observation>, n: int, m: int)
    requires
        0 <= m < n <= observations.len(),
    ensures
        exists|p: int|
            0 <= p < output::kinds_upto(observations, n).len() && kinds::kind_of(
                observations[#[trigger] output::kinds_upto(observations, n)[p]],
            ) == kinds::kind_of(observations[m]),
    decreases n,
{
    let after = output::kinds_upto(observations, n);
    let before = output::kinds_upto(observations, n - 1);
    let wanted = output::is_like(observations[n - 1]);
    if m < n - 1 {
        lemma_kinds_cover(observations, n - 1, m);
        let p = choose|p: int|
            0 <= p < before.len() && kinds::kind_of(observations[#[trigger] before[p]])
                == kinds::kind_of(observations[m]);
        assert(after[p] == before[p]);
    } else {
        seqs::lemma_first_where(observations, wanted, n - 1);
        match seqs::first_where(observations, wanted, n - 1) {
            Some(i) => {
                alike_events_are_of_one_kind(observations[i], observations[m]);
                lemma_kinds_cover(observations, n - 1, i);
                let p = choose|p: int|
                    0 <= p < before.len() && kinds::kind_of(observations[#[trigger] before[p]])
                        == kinds::kind_of(observations[i]);
                assert(after[p] == before[p]);
            },
            None => {
                assert(after[after.len() - 1] == m);
            },
        }
    }
}

/// The kinds of events, in order.
pub open spec fn kinds_shown(observations: Seq<Observation>) -> Seq<kinds::Kind> {
    output::kinds_of(observations).map_values(|i: int| kinds::kind_of(observations[i]))
}

/// The kinds are those of the events.
proof fn lemma_kinds_shown(observations: Seq<Observation>, kind: kinds::Kind)
    ensures
        kinds_shown(observations).contains(kind) <==> exists|m: int|
            0 <= m < observations.len() && kinds::kind_of(#[trigger] observations[m]) == kind,
        forall|p: int|
            0 <= p < output::kinds_of(observations).len() ==> 0
                <= #[trigger] output::kinds_of(observations)[p] < observations.len(),
{
    let n = observations.len() as int;
    let found = output::kinds_upto(observations, n);
    let ordered = output::kinds_of(observations);
    let shown = kinds_shown(observations);
    kinds::lemma_kinds_unlike(observations, n);
    kinds::lemma_kind_order(observations);
    seqs::ordering_sorts(found, output::kind_order(observations), found.len() as int);
    seqs::lemma_take_all(found);
    assert forall|p: int| 0 <= p < ordered.len() implies 0 <= #[trigger] ordered[p] < n by {
        lemma_same_elements(found, ordered, ordered[p]);
        assert(ordered.contains(ordered[p]));
        let q = choose|q: int| 0 <= q < found.len() && found[q] == ordered[p];
        assert(0 <= found[q] < n);
    }
    if shown.contains(kind) {
        let p = choose|p: int| 0 <= p < shown.len() && shown[p] == kind;
        assert(kinds::kind_of(observations[ordered[p]]) == kind);
    }
    if exists|m: int|
        0 <= m < observations.len() && kinds::kind_of(#[trigger] observations[m]) == kind {
        let m = choose|m: int|
            0 <= m < observations.len() && kinds::kind_of(#[trigger] observations[m]) == kind;
        lemma_kinds_cover(observations, n, m);
        let q = choose|q: int|
            0 <= q < found.len() && kinds::kind_of(observations[#[trigger] found[q]]) == kind;
        assert(found.contains(found[q]));
        lemma_same_elements(found, ordered, found[q]);
        let p = choose|p: int| 0 <= p < ordered.len() && ordered[p] == found[q];
        assert(shown[p] == kind);
    }
}

/// The order of kinds, as a relation between them.
pub open spec fn order_of_kinds() -> spec_fn(kinds::Kind, kinds::Kind) -> bool {
    |p: kinds::Kind, q: kinds::Kind|
        p.numbers.len() == q.numbers.len() && kinds::kind_before(p, q)
}

proof fn lemma_shown_in_order(observations: Seq<Observation>)
    ensures
        forall|i: int, j: int|
            0 <= i < j < kinds_shown(observations).len() ==> order_of_kinds()(
                #[trigger] kinds_shown(observations)[i],
                #[trigger] kinds_shown(observations)[j],
            ),
{
    let shown = kinds_shown(observations);
    assert forall|i: int, j: int| 0 <= i < j < shown.len() implies order_of_kinds()(
        #[trigger] shown[i],
        #[trigger] shown[j],
    ) by {
        kinds::kinds_stand_in_order(observations, i, j);
    }
}

/// A kind is shown wherever the events are the same.
proof fn lemma_kind_stays(a: Seq<Observation>, b: Seq<Observation>, kind: kinds::Kind)
    requires
        a.to_multiset() == b.to_multiset(),
        kinds_shown(a).contains(kind),
    ensures
        kinds_shown(b).contains(kind),
{
    lemma_kinds_shown(a, kind);
    lemma_kinds_shown(b, kind);
    let m = choose|m: int| 0 <= m < a.len() && kinds::kind_of(#[trigger] a[m]) == kind;
    assert(a.contains(a[m]));
    lemma_same_elements(a, b, a[m]);
    let k = choose|k: int| 0 <= k < b.len() && b[k] == a[m];
    assert(kinds::kind_of(b[k]) == kind);
}

/// Events show the same kinds in the same order, in whatever order they arrived.
pub proof fn kinds_do_not_show_arrival(a: Seq<Observation>, b: Seq<Observation>)
    requires
        a.to_multiset() == b.to_multiset(),
    ensures
        kinds_shown(a) == kinds_shown(b),
{
    let x = kinds_shown(a);
    let y = kinds_shown(b);
    let order = order_of_kinds();
    assert forall|p: kinds::Kind, q: kinds::Kind| #[trigger] order(p, q) implies !order(q, p) by {
        kinds::lemma_parts_ordered(p, q, p);
    }
    lemma_shown_in_order(a);
    lemma_shown_in_order(b);
    assert forall|kind: kinds::Kind| #[trigger] x.contains(kind) <==> y.contains(kind) by {
        if x.contains(kind) {
            lemma_kind_stays(a, b, kind);
        }
        if y.contains(kind) {
            lemma_kind_stays(b, a, kind);
        }
    }
    seqs::lemma_strict_order_is_unique(x, y, order);
}

/// The place on a path that a reference stands for.
pub open spec fn place_at(subjects: Seq<Subject>) -> spec_fn(SubjectRef<String>) -> Option<Place> {
    |reference: SubjectRef<String>| output::endpoint_of(subjects, reference)
}

/// The places of the first `n` references are those that they stand for.
proof fn lemma_places_counted(
    subjects: Seq<Subject>,
    refs: Seq<SubjectRef<String>>,
    n: int,
    place: Place,
)
    requires
        0 <= n <= refs.len(),
    ensures
        output::endpoints_upto(subjects, refs, n).to_multiset().count(place) == refs.map_values(
            place_at(subjects),
        ).take(n).to_multiset().count(Some(place)),
    decreases n,
{
    broadcast use vstd::seq_lib::group_to_multiset_ensures;

    let found = refs.map_values(place_at(subjects));
    if n > 0 {
        lemma_places_counted(subjects, refs, n - 1, place);
        assert(found.take(n) =~= found.take(n - 1).push(found[n - 1]));
        vstd::seq_lib::to_multiset_build(found.take(n - 1), found[n - 1]);
        let before = output::endpoints_upto(subjects, refs, n - 1);
        if let Some(next) = found[n - 1] {
            vstd::seq_lib::to_multiset_build(before, next);
        }
    } else {
        assert(found.take(0) =~= Seq::<Option<Place>>::empty());
    }
}

/// Two references that read alike stand for one place.
proof fn lemma_places_read(subjects: Seq<Subject>, refs: Seq<SubjectRef<String>>)
    ensures
        refs.map_values(place_at(subjects)) == refs.map_values(
            |r: SubjectRef<String>| r.deep_view(),
        ).map_values(read_place(subjects)),
{
    let a = refs.map_values(place_at(subjects));
    let b = refs.map_values(|r: SubjectRef<String>| r.deep_view()).map_values(
        read_place(subjects),
    );
    assert forall|i: int| 0 <= i < refs.len() implies #[trigger] a[i] == b[i] by {
        let r = refs[i].deep_view();
        let s = choose|s: SubjectRef<String>| s.deep_view() == r;
        assert(refs[i].deep_view() == r);
        assert(s.deep_view() == r);
        assert(s.role == refs[i].role && s.id@ == refs[i].id@);
    }
    assert(a =~= b);
}

/// The place that a reference stands for, by how it reads.
pub open spec fn read_place(subjects: Seq<Subject>) -> spec_fn(Reference) -> Option<Place> {
    |reference: Reference|
        output::endpoint_of(
            subjects,
            choose|s: SubjectRef<String>| s.deep_view() == reference,
        )
}

/// Places are in one order.
proof fn lemma_places_told(a: Place, b: Place, c: Place)
    ensures
        a != b ==> (output::endpoint_before(a, b) <==> !output::endpoint_before(b, a)),
        !output::endpoint_before(a, a),
        output::endpoint_before(a, b) && output::endpoint_before(b, c) ==> output::endpoint_before(
            a,
            c,
        ),
{
    text::text_order_is_strict_and_total(a.id, b.id, c.id);
    text::text_order_is_strict_and_total(a.id, b.id, a.id);
    text::text_order_is_strict_and_total(a.label, b.label, c.label);
    text::text_order_is_strict_and_total(a.label, b.label, a.label);
}

/// References to the same subjects, each as often, show the same places.
proof fn lemma_one_path(
    subjects: Seq<Subject>,
    a: Seq<SubjectRef<String>>,
    b: Seq<SubjectRef<String>>,
)
    requires
        a.map_values(|r: SubjectRef<String>| r.deep_view()).to_multiset() == b.map_values(
            |r: SubjectRef<String>| r.deep_view(),
        ).to_multiset(),
    ensures
        output::endpoints_of(subjects, a) == output::endpoints_of(subjects, b),
{
    let x = output::endpoints_upto(subjects, a, a.len() as int);
    let y = output::endpoints_upto(subjects, b, b.len() as int);
    let p = a.map_values(place_at(subjects));
    let q = b.map_values(place_at(subjects));
    lemma_places_read(subjects, a);
    lemma_places_read(subjects, b);
    seqs::lemma_map_keeps_multisets(
        a.map_values(|r: SubjectRef<String>| r.deep_view()),
        b.map_values(|r: SubjectRef<String>| r.deep_view()),
        read_place(subjects),
    );
    assert forall|place: Place| #[trigger] x.to_multiset().count(place) == y.to_multiset().count(
        place,
    ) by {
        lemma_places_counted(subjects, a, a.len() as int, place);
        lemma_places_counted(subjects, b, b.len() as int, place);
        seqs::lemma_take_all(p);
        seqs::lemma_take_all(q);
    }
    assert(x.to_multiset() =~= y.to_multiset());
    lemma_ordered_alike(x, y);
}

/// The same places come in one order.
proof fn lemma_ordered_alike(x: Seq<Place>, y: Seq<Place>)
    requires
        x.to_multiset() == y.to_multiset(),
    ensures
        seqs::ordered_upto(x, output::endpoint_order(), x.len() as int) == seqs::ordered_upto(
            y,
            output::endpoint_order(),
            y.len() as int,
        ),
{
    let order = output::endpoint_order();
    let leq = |a: Place, b: Place| !order(b, a);
    assert forall|a: Place, b: Place| #[trigger] order(a, b) implies !order(b, a) by {
        lemma_places_told(a, b, a);
    }
    assert forall|a: Place, b: Place, c: Place|
        !#[trigger] order(b, a) && !#[trigger] order(c, b) implies !order(c, a) by {
        lemma_places_told(a, b, c);
        lemma_places_told(c, a, b);
        lemma_places_told(b, c, a);
    }
    assert forall|a: Place, b: Place| #[trigger] leq(a, b) && #[trigger] leq(b, a) implies a
        == b by {
        lemma_places_told(a, b, a);
    }
    assert forall|a: Place, b: Place, c: Place| #[trigger]
        leq(a, b) && #[trigger] leq(b, c) implies leq(a, c) by {
        assert(!order(b, a) && !order(c, b));
    }
    assert forall|a: Place| #[trigger] leq(a, a) by {
        lemma_places_told(a, a, a);
    }
    assert(total_ordering(leq));
    seqs::ordering_sorts(x, order, x.len() as int);
    seqs::ordering_sorts(y, order, y.len() as int);
    seqs::lemma_take_all(x);
    seqs::lemma_take_all(y);
    let p = seqs::ordered_upto(x, order, x.len() as int);
    let q = seqs::ordered_upto(y, order, y.len() as int);
    assert(sorted_by(p, leq));
    assert(sorted_by(q, leq));
    vstd::seq_lib::lemma_sorted_unique(p, q, leq);
}

/// Whether events that are alike refer to each subject equally often.
pub open spec fn refers_alike(observations: Seq<Observation>) -> bool {
    forall|i: int, j: int|
        0 <= i < observations.len() && 0 <= j < observations.len() && output::alike(
            #[trigger] observations[i],
            #[trigger] observations[j],
        ) ==> observations[i].meta.subjects.deep_view().to_multiset()
            == observations[j].meta.subjects.deep_view().to_multiset()
}

/// Events of one kind are shown in one row.
proof fn lemma_one_row(
    subjects: Seq<Subject>,
    a: Seq<Observation>,
    b: Seq<Observation>,
    i: int,
    j: int,
)
    requires
        a.to_multiset() == b.to_multiset(),
        output::alike(a[i], b[j]),
        a[i].meta.subjects.deep_view().to_multiset()
            == b[j].meta.subjects.deep_view().to_multiset(),
    ensures
        output::event_row(subjects, a, i) == output::event_row(subjects, b, j),
{
    let x = a[i].meta;
    let y = b[j].meta;
    let read = |r: SubjectRef<String>| r.deep_view();
    assert(x.subjects.deep_view() =~= x.subjects@.map_values(read));
    assert(y.subjects.deep_view() =~= y.subjects@.map_values(read));
    lemma_one_path(subjects, x.subjects@, y.subjects@);
    assert(output::is_like(a[i]) =~= output::is_like(b[j]));
    lemma_counts_agree(a, b, output::is_like(a[i]));
    let p = x.descriptor.deep_view();
    let q = y.descriptor.deep_view();
    assert(p.stage == q.stage && p.direction == q.direction && p.measurement == q.measurement);
    assert(p.form == q.form && p.role == q.role && p.path_role == q.path_role);
}

/// The rows of events do not show the order in which the events arrived.
pub proof fn event_rows_do_not_show_arrival(
    subjects: Seq<Subject>,
    a: Seq<Observation>,
    b: Seq<Observation>,
)
    requires
        a.to_multiset() == b.to_multiset(),
        refers_alike(a),
    ensures
        output::event_rows(subjects, a) == output::event_rows(subjects, b),
{
    let x = output::kinds_of(a);
    let y = output::kinds_of(b);
    kinds_do_not_show_arrival(a, b);
    assert(kinds_shown(a).len() == x.len() && kinds_shown(b).len() == y.len());
    assert forall|k: int| 0 <= k < x.len() implies output::event_row(subjects, a, #[trigger] x[k])
        == output::event_row(subjects, b, y[k]) by {
        assert(kinds_shown(a)[k] == kinds_shown(b)[k]);
        lemma_kinds_shown(a, kinds_shown(a)[k]);
        lemma_kinds_shown(b, kinds_shown(b)[k]);
        let i = x[k];
        let j = y[k];
        alike_events_are_of_one_kind(a[i], b[j]);
        assert(b.contains(b[j]));
        lemma_same_elements(a, b, b[j]);
        let m = choose|m: int| 0 <= m < a.len() && a[m] == b[j];
        assert(output::alike(a[i], a[m]));
        lemma_one_row(subjects, a, b, i, j);
    }
    assert(output::event_rows(subjects, a) =~= output::event_rows(subjects, b));
}

/// A report has the same rows in the same order, in whatever order its events arrived.
pub proof fn reports_do_not_show_arrival(a: Report, b: Report)
    requires
        a.subjects@ == b.subjects@,
        a.metrics@ == b.metrics@,
        a.observations@.to_multiset() == b.observations@.to_multiset(),
        refers_alike(a.observations@),
    ensures
        output::report_rows(a) == output::report_rows(b),
{
    event_rows_do_not_show_arrival(a.subjects@, a.observations@, b.observations@);
}

} // verus!
