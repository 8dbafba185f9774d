//! What reports say: everything that was measured or seen, under its own name and in its own
//! place.
use crate::evidence;
use crate::evidence::{
    AttributeValue, AttributesModel, BoundedTotal, CounterStatus, Direction, EvidenceContext,
    EvidenceMeta, MeasurementBound, MetricDelta, Observation, Outcome, PathRole, ProviderTelemetry,
    SamplingComponent, SamplingTelemetry, Subject, SubjectKind, SubjectRef, SubjectRole, Telemetry,
};
use crate::output;
use crate::output::{Endpoint, RowModel, StageDirection};
use crate::provider::ProviderFilterSupport;
use crate::report::{
    CapabilityReport, EffectiveInterfaceScope, EffectiveNetworkNamespace, EffectiveScope, Finding,
    FlowFilter, InterfaceAnchor, InterfacePath, LayerCoverage, ProviderScope, Report, StageCoverage,
    TraceRecord,
};
use crate::seqs;
use crate::text;
use vstd::prelude::*;

verus! {

/// Whether a text says something right after a name.
pub open spec fn tells(text: Seq<char>, name: Seq<char>, value: Seq<char>) -> bool {
    exists|before: Seq<char>, after: Seq<char>|
        text == #[trigger] (before + name + value + after)
}

/// Whether a text holds a part.
pub open spec fn holds(text: Seq<char>, part: Seq<char>) -> bool {
    exists|before: Seq<char>, after: Seq<char>| text == #[trigger] (before + part + after)
}

proof fn lemma_told(before: Seq<char>, name: Seq<char>, value: Seq<char>)
    ensures
        tells(before + name + value, name, value),
{
    assert(before + name + value =~= before + name + value + Seq::<char>::empty());
}

proof fn lemma_still_told(text: Seq<char>, more: Seq<char>)
    ensures
        forall|name: Seq<char>, value: Seq<char>|
            tells(text, name, value) ==> #[trigger] tells(text + more, name, value),
{
    assert forall|name: Seq<char>, value: Seq<char>| tells(text, name, value) implies tells(
        text + more,
        name,
        value,
    ) by {
        let (before, after) = choose|before: Seq<char>, after: Seq<char>|
            text == #[trigger] (before + name + value + after);
        assert(text + more =~= before + name + value + (after + more));
    }
}

proof fn lemma_held(before: Seq<char>, part: Seq<char>, after: Seq<char>)
    ensures
        holds(before + part, part),
        holds(before + part + after, part),
{
    assert(before + part =~= before + part + Seq::<char>::empty());
}

proof fn lemma_still_held(text: Seq<char>, more: Seq<char>, part: Seq<char>)
    requires
        holds(text, part),
    ensures
        holds(text + more, part),
        holds(more + text, part),
{
    let (before, after) = choose|before: Seq<char>, after: Seq<char>|
        text == #[trigger] (before + part + after);
    assert(text + more =~= before + part + (after + more));
    assert(more + text =~= (more + before) + part + after);
}

pub open spec fn protocol_of(protocol: Option<u8>) -> Seq<char> {
    match protocol {
        Some(protocol) => text::decimal(protocol as nat),
        None => "any"@,
    }
}

pub open spec fn layout_of(report: CapabilityReport) -> Seq<char> {
    match report.kfree_skb.layout {
        Some(layout) => layout.word(),
        None => "unavailable"@,
    }
}

/// Where a cell of a row begins: after two blanks, and after every cell before it, which is
/// as wide as its column or wider, and one blank more.
pub open spec fn starts(cells: Seq<Seq<char>>, widths: Seq<usize>, k: int) -> int
    decreases k,
{
    if k <= 0 {
        2
    } else {
        starts(cells, widths, k - 1) + (if cells[k - 1].len() < widths[k - 1] {
            widths[k - 1] as int
        } else {
            cells[k - 1].len() as int
        }) + 1
    }
}

proof fn lemma_columns(cells: Seq<Seq<char>>, widths: Seq<usize>, n: int, k: int)
    requires
        0 <= k <= n <= widths.len(),
    ensures
        output::columns_upto(cells, widths, n).len() == starts(cells, widths, n),
        k < n ==> starts(cells, widths, k) + cells[k].len() <= starts(cells, widths, n),
        k < n ==> output::columns_upto(cells, widths, n).subrange(
            starts(cells, widths, k),
            starts(cells, widths, k) + cells[k].len(),
        ) == cells[k],
        2 <= starts(cells, widths, k),
    decreases n,
{
    reveal_strlit("  ");
    reveal_strlit(" ");
    let all = output::columns_upto(cells, widths, n);
    if n > 0 {
        let before = output::columns_upto(cells, widths, n - 1);
        lemma_columns(cells, widths, n - 1, if k < n {
            k
        } else {
            n - 1
        });
        lemma_columns(cells, widths, n - 1, n - 1);
        let at = starts(cells, widths, k);
        if k == n - 1 {
            assert(all.subrange(at, at + cells[k].len()) =~= cells[k]);
        } else if k < n - 1 {
            assert(all.subrange(at, at + cells[k].len()) =~= before.subrange(
                at,
                at + cells[k].len(),
            ));
        }
    }
}

/// Every cell of a row stands in its column, and a row is one line.
pub proof fn cells_stand_in_their_columns(cells: Seq<Seq<char>>, widths: Seq<usize>, k: int)
    requires
        cells.len() == widths.len() + 1,
        0 <= k < cells.len(),
    ensures
        ({
            let row = output::row_text(cells, widths);
            let at = starts(cells, widths, k);
            &&& 2 <= at
            &&& at + cells[k].len() < row.len()
            &&& row.subrange(at, at + cells[k].len()) == cells[k]
            &&& row.last() == '\n'
            &&& row.len() == starts(cells, widths, widths.len() as int)
                + cells[widths.len() as int].len() + 1
        }),
{
    reveal_strlit("\n");
    let n = widths.len() as int;
    let row = output::row_text(cells, widths);
    let at = starts(cells, widths, k);
    lemma_columns(cells, widths, n, k);
    if k < n {
        assert(row.subrange(at, at + cells[k].len()) =~= output::columns_upto(
            cells,
            widths,
            n,
        ).subrange(at, at + cells[k].len()));
    } else {
        assert(row.subrange(at, at + cells[k].len()) =~= cells[k]);
    }
}

/// A cell that is narrower than its column is filled with blanks; a wider one is not cut.
pub proof fn narrow_cells_are_filled(cell: Seq<char>, width: nat, i: int)
    requires
        0 <= i < output::padded(cell, width).len(),
    ensures
        output::padded(cell, width).len() >= width,
        cell.len() >= width ==> output::padded(cell, width) == cell,
        cell.len() < width ==> output::padded(cell, width).len() == width,
        i < cell.len() ==> output::padded(cell, width)[i] == cell[i],
        i >= cell.len() ==> output::padded(cell, width)[i] == ' ',
{
}

/// Texts are joined in their order, with the separator between two of them and nowhere else.
pub proof fn joined_texts_stand_apart(texts: Seq<Seq<char>>, separator: Seq<char>, n: int)
    requires
        0 <= n < texts.len(),
    ensures
        output::joined_upto(texts, separator, 0).len() == 0,
        output::joined_upto(texts, separator, 1) == texts[0],
        n > 0 ==> output::joined_upto(texts, separator, n + 1) == output::joined_upto(
            texts,
            separator,
            n,
        ) + separator + texts[n],
        output::joined(texts, separator) == output::joined_upto(
            texts,
            separator,
            texts.len() as int,
        ),
{
}

/// Short words say what they are for.
pub proof fn short_words_say_what_they_are(
    value: bool,
    direction: Option<Direction>,
    role: Option<PathRole>,
    text: Option<String>,
    port: Option<u16>,
    other: Seq<char>,
)
    ensures
        output::yes_or_no(value) == if value {
            "yes"@
        } else {
            "no"@
        },
        direction == Some(Direction::Ingress) <==> output::short_direction(direction) == "RX"@,
        direction == Some(Direction::Egress) <==> output::short_direction(direction) == "TX"@,
        direction is None <==> output::short_direction(direction) == "--"@,
        direction is None ==> output::any_direction(direction) == "any"@,
        direction matches Some(known) ==> output::any_direction(direction) == known.word(),
        role is None ==> output::path_role_word(role) == "-"@,
        role matches Some(known) ==> output::path_role_word(role) == known.word(),
        text matches Some(known) ==> output::text_or(text, other) == known@,
        text is None ==> output::text_or(text, other) == other,
        port matches Some(known) ==> output::port_text(port) == text::decimal(known as nat),
        port is None ==> output::port_text(port) == "any"@,
        output::layer_word(None) == "unclassified"@,
        forall|layer: evidence::Layer| #[trigger] output::layer_word(Some(layer)) == layer.word(),
        other.len() > 0 ==> output::or_dash(other) == other,
        other.len() == 0 ==> output::or_dash(other) == "-"@,
{
    reveal_strlit("RX");
    reveal_strlit("TX");
    reveal_strlit("--");
    assert("RX"@[0] == 'R' && "TX"@[0] == 'T' && "--"@[0] == '-');
}

/// What happened to a packet is told before what was seen of it.
pub proof fn outcomes_are_told(outcome: Outcome)
    ensures
        outcome.disposition matches Some(fate) ==> output::outcome_word(outcome) == fate.word(),
        outcome.disposition is None ==> (outcome.signal matches Some(signal)
            ==> output::outcome_word(outcome) == signal.word()),
        outcome.disposition is None && outcome.signal is None ==> output::outcome_word(outcome)
            == "unknown"@,
{
}

/// A reason is told by its name, or by its number if it has none.
pub proof fn reasons_are_told(attributes: AttributesModel)
    ensures
        ({
            let name = evidence::attribute(attributes, "linux.skb.reason_name"@);
            let code = evidence::attribute(attributes, "linux.skb.reason_code"@);
            &&& name matches Some(AttributeValue::Text(word)) ==> output::reason_of(attributes)
                == Some(word)
            &&& name is None ==> (code matches Some(AttributeValue::Unsigned(number)) ==> (
            output::reason_of(attributes) matches Some(told) && told == "raw:"@ + text::decimal(
                number as nat,
            )))
            &&& name is None && code is None ==> output::reason_of(attributes) is None
            &&& output::reason_of(attributes) matches Some(told) ==> output::trace_reason_of(
                attributes,
            ) == told
            &&& output::reason_of(attributes) is None ==> output::trace_reason_of(attributes)
                == "-"@
        }),
{
}

/// A record of a trace shows each of its parts under its heading.
pub proof fn records_stand_under_their_headings(record: TraceRecord)
    ensures
        ({
            let heads = output::trace_header();
            let cells = output::trace_cells(record);
            &&& heads.len() == 7 && cells.len() == 7 && output::trace_widths().len() == 6
            &&& heads[0] == "SEQ"@ && cells[0] == text::decimal(record.sequence as nat)
            &&& heads[1] == "DIR"@ && cells[1] == output::short_direction(
                record.descriptor.direction,
            )
            &&& heads[2] == "STAGE"@ && (record.descriptor.stage matches Some(stage) ==> cells[2]
                == stage@) && (record.descriptor.stage is None ==> cells[2] == "unclassified"@)
            &&& heads[3] == "LAYER"@ && cells[3] == output::layer_word(record.layer)
            &&& heads[4] == "EVENT"@ && cells[4] == record.event_type@
            &&& heads[5] == "OUTCOME"@ && cells[5] == output::outcome_word(
                record.descriptor.outcome,
            )
            &&& heads[6] == "REASON"@ && cells[6] == output::trace_reason_of(
                record.attributes.deep_view(),
            )
        }),
{
}

/// A trace shows every record in its row, after the headings.
pub proof fn traces_show_every_record(records: Seq<TraceRecord>, n: int, i: int)
    requires
        0 <= i < n <= records.len(),
    ensures
        holds(
            output::trace_upto(records, n),
            output::row_text(output::trace_cells(records[i]), output::trace_widths()),
        ),
        holds(
            output::trace_upto(records, n),
            output::row_text(output::trace_header(), output::trace_widths()),
        ),
    decreases n,
{
    let before = output::trace_upto(records, n - 1);
    let row = output::row_text(output::trace_cells(records[n - 1]), output::trace_widths());
    let heads = output::row_text(output::trace_header(), output::trace_widths());
    lemma_held(before, row, Seq::empty());
    if i < n - 1 {
        traces_show_every_record(records, n - 1, i);
        lemma_still_held(
            before,
            row,
            output::row_text(output::trace_cells(records[i]), output::trace_widths()),
        );
        lemma_still_held(before, row, heads);
    } else if n > 1 {
        traces_show_every_record(records, n - 1, 0);
        lemma_still_held(before, row, heads);
    } else {
        lemma_held("Events\n"@, heads, row);
    }
}

/// The coverage of a layer shows each of its parts.
pub proof fn layers_show_their_coverage(coverage: LayerCoverage)
    ensures
        ({
            let cells = output::coverage_cells(coverage);
            &&& cells.len() == 7 && output::coverage_widths().len() == 6
            &&& cells[0] == coverage.layer.word()
            &&& cells[1] == coverage.availability.word()
            &&& cells[2] == coverage.visibility.word()
            &&& cells[3] == coverage.filter_support.word()
            &&& cells[4] == coverage.integrity.word()
            &&& coverage.forms@.len() == 0 ==> cells[5] == "-"@
            &&& coverage.forms@.len() > 0 ==> cells[5] == output::joined(
                output::form_words(coverage.forms@),
                ","@,
            )
            &&& coverage.sources@.len() == 0 ==> cells[6] == "-"@
            &&& coverage.sources@.len() > 0 ==> cells[6] == output::joined(
                coverage.sources.deep_view(),
                ","@,
            )
        }),
{
}

/// The coverage of a stage shows each of its parts under its heading.
pub proof fn stages_stand_under_their_headings(coverage: StageCoverage)
    ensures
        ({
            let heads = output::stage_header();
            let cells = output::stage_cells(coverage);
            &&& heads.len() == 9 && cells.len() == 9 && output::stage_widths().len() == 8
            &&& heads[0] == "PROVIDER"@ && cells[0] == coverage.provider@
            &&& heads[1] == "STAGE"@ && cells[1] == coverage.stage@
            &&& heads[2] == "LAYER"@ && cells[2] == coverage.layer.word()
            &&& heads[3] == "DOMAIN"@ && (coverage.execution_domain matches Some(domain)
                ==> cells[3] == domain@) && (coverage.execution_domain is None ==> cells[3]
                == "-"@)
            &&& heads[4] == "STATE"@ && cells[4] == coverage.availability.word()
            &&& heads[5] == "VISIBILITY"@ && cells[5] == coverage.visibility.word()
            &&& heads[6] == "FORMS"@ && cells[6] == output::or_dash(
                output::joined(output::form_words(coverage.forms@), ","@),
            )
            &&& heads[7] == "FILTER"@ && cells[7] == coverage.filter_support.word()
            &&& heads[8] == "INTEGRITY"@ && cells[8] == coverage.integrity.word()
        }),
{
}

/// The rows of a report show each of their parts under its heading, whether they stand on a
/// path or not.
pub proof fn rows_stand_under_their_headings(row: RowModel)
    ensures
        ({
            let heads = output::layer_header();
            let cells = output::layer_cells(row);
            &&& heads.len() == 9 && cells.len() == 9 && output::layer_widths().len() == 8
            &&& heads[0] == "LAYER"@ && cells[0] == output::layer_word(row.layer)
            &&& heads[1] == "STAGE"@ && cells[1] == row.stage
            &&& heads[2] == "PATH ROLE"@ && cells[2] == output::path_role_word(row.path_role)
            &&& heads[3] == "DOMAIN"@ && cells[3] == row.execution_domain
            &&& heads[4] == "EVIDENCE"@ && cells[4] == row.evidence
            &&& heads[5] == "VALUE"@ && cells[5] == row.value
            &&& heads[6] == "UNIT"@ && cells[6] == row.unit.word()
            &&& heads[7] == "FORM"@ && cells[7] == row.form.word()
            &&& heads[8] == "ROLE"@ && cells[8] == row.role.word()
        }),
        ({
            let heads = output::graph_header();
            let cells = output::graph_cells(row);
            &&& heads.len() == 11 && cells.len() == 11 && output::graph_widths().len() == 10
            &&& heads[0] == "PATH ROLE"@ && cells[0] == output::path_role_word(row.path_role)
            &&& heads[1] == "ENDPOINTS"@ && cells[1] == output::endpoints_text(row.endpoints)
            &&& heads[2] == "DOMAIN"@ && cells[2] == row.execution_domain
            &&& heads[3] == "TRANSITION"@ && cells[3] == row.transition
            &&& heads[4] == "STAGE"@ && cells[4] == row.stage
            &&& heads[5] == "LAYER"@ && cells[5] == output::layer_word(row.layer)
            &&& heads[6] == "EVIDENCE"@ && cells[6] == row.evidence
            &&& heads[7] == "VALUE"@ && cells[7] == row.value
            &&& heads[8] == "UNIT"@ && cells[8] == row.unit.word()
            &&& heads[9] == "FORM"@ && cells[9] == row.form.word()
            &&& heads[10] == "ROLE"@ && cells[10] == row.role.word()
        }),
{
}

/// A row says what its evidence says of itself.
pub proof fn rows_say_what_their_evidence_says(
    subjects: Seq<Subject>,
    meta: EvidenceMeta,
    evidence: Seq<char>,
    value: Seq<char>,
)
    ensures
        ({
            let row = output::row_of(subjects, meta, evidence, value);
            &&& row.direction is Rx <==> meta.descriptor.direction == Some(Direction::Ingress)
            &&& row.direction is Tx <==> meta.descriptor.direction == Some(Direction::Egress)
            &&& row.direction is Unresolved <==> meta.descriptor.direction is None
            &&& row.layer == meta.layer
            &&& row.evidence == evidence
            &&& row.value == value
            &&& row.unit == meta.descriptor.measurement.unit
            &&& row.form == meta.descriptor.form
            &&& row.role == meta.descriptor.role
            &&& row.path_role == meta.descriptor.path_role
            &&& meta.descriptor.stage matches Some(stage) ==> row.stage == stage@
            &&& meta.descriptor.stage is None ==> row.stage == "unclassified"@
            &&& meta.execution_domain matches Some(domain) ==> row.execution_domain == domain@
            &&& meta.execution_domain is None ==> row.execution_domain == "-"@
            &&& meta.transition matches Some(transition) ==> row.transition == transition@
            &&& meta.transition is None ==> row.transition == "-"@ && !output::on_path(row)
            &&& output::on_path(row) <==> row.transition != "-"@
        }),
{
}

/// Numbers say how sure they are.
pub proof fn numbers_say_how_sure_they_are(value: u64, bound: Option<MeasurementBound>)
    ensures
        ({
            let shown = output::measured(value, bound);
            let number = text::decimal(value as nat);
            &&& bound is None ==> shown == "+"@ + number
            &&& bound == Some(MeasurementBound::Exact) ==> shown == "+"@ + number + " (exact)"@
            &&& bound == Some(MeasurementBound::LowerBound) ==> shown == ">="@ + number
                + " (lower_bound)"@
            &&& bound == Some(MeasurementBound::Estimate) ==> shown == "~"@ + number
                + " (estimate)"@
        }),
{
}

/// Counts and totals are told by their number, or it is told that there is none.
pub proof fn counts_are_told(status: CounterStatus, total: BoundedTotal, count: nat)
    ensures
        status matches CounterStatus::Measured { value } ==> output::status_text(status)
            == text::decimal(value as nat),
        status is NotApplicable ==> output::status_text(status) == "n/a"@,
        status is Unknown ==> output::status_text(status) == "unknown"@,
        total.bound is Exact ==> output::total_text(total) == text::decimal(total.value as nat)
            + " (exact)"@,
        total.bound is LowerBound ==> output::total_text(total) == ">="@ + text::decimal(
            total.value as nat,
        ) + " (lower_bound)"@,
        output::count_text(1) == "1 event"@,
        count != 1 ==> output::count_text(count) == text::decimal(count) + " events"@,
{
}

/// A change is shown if there was one; a counter that was reset says so, and one of which
/// nothing is known says that.
pub proof fn changes_are_shown(metric: MetricDelta)
    ensures
        metric.values.delta == Some(0u64) <==> output::change_text(metric) is None,
        metric.values.delta matches Some(delta) ==> (delta > 0 ==> (output::change_text(
            metric,
        ) matches Some(shown) && shown == output::measured(
            delta,
            metric.meta.descriptor.measurement.bound,
        ))),
        metric.values.delta is None ==> (output::change_text(metric) matches Some(shown) && shown
            == if metric.values.reset {
            "reset"@
        } else {
            "unknown"@
        }),
{
}

/// Every metric that changed has a row, with its name, where it was measured, and its change.
pub proof fn changed_metrics_have_rows(
    subjects: Seq<Subject>,
    metrics: Seq<MetricDelta>,
    n: int,
    i: int,
)
    requires
        0 <= i < n <= metrics.len(),
        metrics[i].values.delta != Some(0u64),
    ensures
        exists|r: int|
            0 <= r < output::metric_rows_upto(subjects, metrics, n).len()
                && #[trigger] output::metric_rows_upto(subjects, metrics, n)[r] == output::row_of(
                subjects,
                metrics[i].meta,
                metrics[i].metric_type@ + output::context_text(
                    metrics[i].meta.descriptor.context,
                ),
                output::change_text(metrics[i])->0,
            ),
    decreases n,
{
    let all = output::metric_rows_upto(subjects, metrics, n);
    let before = output::metric_rows_upto(subjects, metrics, n - 1);
    let row = output::row_of(
        subjects,
        metrics[i].meta,
        metrics[i].metric_type@ + output::context_text(metrics[i].meta.descriptor.context),
        output::change_text(metrics[i])->0,
    );
    if i < n - 1 {
        changed_metrics_have_rows(subjects, metrics, n - 1, i);
        let r = choose|r: int| 0 <= r < before.len() && #[trigger] before[r] == row;
        assert(all[r] == before[r]);
    } else {
        assert(all[before.len() as int] == row);
    }
}

/// No metric that did not change has one.
pub proof fn rows_are_of_changed_metrics(
    subjects: Seq<Subject>,
    metrics: Seq<MetricDelta>,
    n: int,
    r: int,
)
    requires
        0 <= n <= metrics.len(),
        0 <= r < output::metric_rows_upto(subjects, metrics, n).len(),
    ensures
        exists|i: int|
            0 <= i < n && (#[trigger] metrics[i]).values.delta != Some(0u64)
                && output::metric_rows_upto(subjects, metrics, n)[r] == output::row_of(
                subjects,
                metrics[i].meta,
                metrics[i].metric_type@ + output::context_text(
                    metrics[i].meta.descriptor.context,
                ),
                output::change_text(metrics[i])->0,
            ),
    decreases n,
{
    let before = output::metric_rows_upto(subjects, metrics, n - 1);
    if n > 0 && r < before.len() {
        rows_are_of_changed_metrics(subjects, metrics, n - 1, r);
    }
}

/// An event is told by its name, by why it happened, and by where.
pub proof fn events_are_told(observation: Observation)
    ensures
        ({
            let told = output::event_text(observation);
            let reason = output::reason_of(observation.attributes.deep_view());
            let place = output::context_text(observation.meta.descriptor.context);
            &&& observation.event_type@.is_prefix_of(told)
            &&& place.is_suffix_of(told)
            &&& reason matches Some(reason) ==> told == observation.event_type@ + " reason="@
                + reason + place
            &&& reason is None ==> told == observation.event_type@ + place
        }),
{
    let told = output::event_text(observation);
    let place = output::context_text(observation.meta.descriptor.context);
    match output::reason_of(observation.attributes.deep_view()) {
        Some(reason) => {
            assert(told =~= observation.event_type@ + " reason="@ + reason + place);
        },
        None => {
            assert(told =~= observation.event_type@ + place);
        },
    }
}

/// Events are of one kind exactly if nothing that is shown of them differs: who saw them,
/// where, how they are described, what they are about, in whatever order, and what they say.
pub proof fn events_of_one_kind_do_not_differ(a: Observation, b: Observation)
    ensures
        output::alike(a, b) ==> {
            &&& a.meta.provider@ == b.meta.provider@
            &&& a.meta.layer == b.meta.layer
            &&& a.meta.execution_domain is Some <==> b.meta.execution_domain is Some
            &&& a.meta.execution_domain matches Some(x) ==> (b.meta.execution_domain matches Some(
                y,
            ) ==> x@ == y@)
            &&& a.meta.transition is Some <==> b.meta.transition is Some
            &&& a.meta.transition matches Some(x) ==> (b.meta.transition matches Some(y) ==> x@
                == y@)
            &&& a.meta.descriptor.deep_view() == b.meta.descriptor.deep_view()
            &&& output::event_text(a) == output::event_text(b)
            &&& forall|subject: SubjectRef<Seq<char>>|
                #[trigger] a.meta.subjects.deep_view().contains(subject)
                    <==> b.meta.subjects.deep_view().contains(subject)
        },
        a.meta.provider@ == b.meta.provider@ && a.meta.layer == b.meta.layer
            && a.meta.execution_domain == b.meta.execution_domain && a.meta.transition
            == b.meta.transition && a.meta.descriptor.deep_view() == b.meta.descriptor.deep_view()
            && output::event_text(a) == output::event_text(b)
            && a.meta.subjects.deep_view().to_set() == b.meta.subjects.deep_view().to_set()
            ==> output::alike(a, b),
{
    if output::alike(a, b) {
        let x = a.meta.subjects.deep_view();
        let y = b.meta.subjects.deep_view();
        assert forall|subject: SubjectRef<Seq<char>>|
            #[trigger] x.contains(subject) <==> y.contains(subject) by {
            assert(x.to_set().contains(subject) <==> y.to_set().contains(subject));
        }
    }
}

/// The row of an event says how many of its kind there were.
pub proof fn event_rows_say_how_many(
    subjects: Seq<Subject>,
    observations: Seq<Observation>,
    at: int,
)
    requires
        0 <= at < observations.len(),
    ensures
        ({
            let row = output::event_row(subjects, observations, at);
            let many = seqs::count_where(
                observations,
                |other: Observation| output::alike(other, observations[at]),
                observations.len() as int,
            );
            &&& row.evidence == output::event_text(observations[at])
            &&& many == 1 ==> row.value == "1 event"@
            &&& many != 1 ==> row.value == text::decimal(many) + " events"@
            &&& row.layer == observations[at].meta.layer
            &&& row.unit == observations[at].meta.descriptor.measurement.unit
        }),
{
    assert(output::is_like(observations[at]) =~= |other: Observation|
        output::alike(other, observations[at]));
}

/// Where something was measured is told by each number that is known, in one order.
pub proof fn places_are_told(context: EvidenceContext)
    ensures
        ({
            let words = output::context_words(context);
            let known = |number: bool|
                if number {
                    1int
                } else {
                    0
                };
            let a = known(context.ingress_ifindex is Some);
            let b = a + known(context.egress_ifindex is Some);
            let c = b + known(context.queue_id is Some);
            let d = c + known(context.cpu is Some);
            &&& words.len() == d + known(context.protocol is Some)
            &&& context.ingress_ifindex matches Some(number) ==> words[0] == "ifindex="@
                + text::decimal(number as nat)
            &&& context.egress_ifindex matches Some(number) ==> words[a] == "ifindex="@
                + text::decimal(number as nat)
            &&& context.queue_id matches Some(number) ==> words[b] == "queue="@ + text::decimal(
                number as nat,
            )
            &&& context.cpu matches Some(number) ==> words[c] == "cpu="@ + text::decimal(
                number as nat,
            )
            &&& context.protocol matches Some(number) ==> words[d] == "protocol="@ + text::decimal(
                number as nat,
            )
            &&& words.len() == 0 <==> output::context_text(context).len() == 0
            &&& words.len() > 0 ==> output::context_text(context) == " ["@ + output::joined(
                words,
                ","@,
            ) + "]"@
        }),
{
    reveal_strlit(" [");
}

/// Where a path begins, which namespace was covered and which interfaces, are told by what
/// is known of them.
pub proof fn anchors_and_scopes_are_told(
    anchor: InterfaceAnchor,
    namespace: EffectiveNetworkNamespace,
    interfaces: EffectiveInterfaceScope,
)
    ensures
        anchor matches InterfaceAnchor::Name { name } ==> output::anchor_text(anchor) == "name:"@
            + name@,
        anchor matches InterfaceAnchor::Ifindex { ifindex } ==> output::anchor_text(anchor)
            == "ifindex:"@ + text::decimal(ifindex as nat),
        output::interface_text(None) == "all visible"@,
        namespace matches EffectiveNetworkNamespace::Current { identity } ==> (identity matches Some(
            identity,
        ) ==> output::namespace_text(namespace) == "current:"@ + identity@) && (identity is None
            ==> output::namespace_text(namespace) == "current"@),
        namespace is HostWide ==> output::namespace_text(namespace) == "host_wide"@,
        namespace is Unknown ==> output::namespace_text(namespace) == "unknown"@,
        interfaces is AllVisible ==> output::interface_scope_text(interfaces) == "all_visible"@,
        interfaces is Unknown ==> output::interface_scope_text(interfaces) == "unknown"@,
        interfaces matches EffectiveInterfaceScope::Path { path } ==> tells(
            output::interface_scope_text(interfaces),
            "path:["@,
            output::joined(output::number_words(path.visible_ifindices@), ","@),
        ),
        output::effective_text(None) == "unavailable"@,
{
    if let EffectiveInterfaceScope::Path { path } = interfaces {
        let numbers = output::joined(output::number_words(path.visible_ifindices@), ","@);
        lemma_told(Seq::empty(), "path:["@, numbers);
        assert(Seq::<char>::empty() + "path:["@ =~= "path:["@);
        lemma_still_told("path:["@ + numbers, "]"@);
    }
}

/// Samples are told by what part of the whole they are, how it was taken, and of what.
pub proof fn samples_are_told(component: SamplingComponent, sampling: SamplingTelemetry)
    ensures
        component matches SamplingComponent::Whole { scope } ==> output::component_text(component)
            == "none over "@ + scope.word(),
        component matches SamplingComponent::Sampled {
            method,
            scope,
            effective_numerator,
            effective_denominator,
        } ==> output::component_text(component) == text::decimal(effective_numerator as nat)
            + "/"@ + text::decimal(effective_denominator as nat) + " via "@ + method.word()
            + " over "@ + scope.word(),
        sampling is Whole ==> output::sampling_text(sampling) == "none"@,
        sampling matches SamplingTelemetry::Sampled {
            method,
            scope,
            effective_numerator,
            effective_denominator,
        } ==> output::sampling_text(sampling) == "sampled "@ + text::decimal(
            effective_numerator as nat,
        ) + "/"@ + text::decimal(effective_denominator as nat) + " via "@ + method.word()
            + " over "@ + scope.word(),
        sampling matches SamplingTelemetry::Mixed { components } ==> output::sampling_text(sampling)
            == "mixed ["@ + output::joined(output::component_texts(components@), ", "@) + "]"@,
{
}

/// Something that evidence is about is an end of a path if it is a hop with a place, or a
/// flow before or after a change.
pub proof fn ends_of_paths_are_found(subjects: Seq<Subject>, reference: SubjectRef<String>)
    ensures
        ({
            let found = output::subject_of(subjects, reference.id@, subjects.len() as int);
            let end = output::endpoint_of(subjects, reference);
            &&& found is None ==> end is None
            &&& found matches Some(subject) ==> {
                &&& end is Some ==> subject.kind == SubjectKind::Hop || (subject.kind
                    == SubjectKind::FlowDomain && (reference.role == SubjectRole::Before
                    || reference.role == SubjectRole::After))
                &&& subject.kind == SubjectKind::FlowDomain && (reference.role
                    == SubjectRole::Before || reference.role == SubjectRole::After) ==> end is Some
                &&& end matches Some(place) ==> place.role == reference.role && place.id
                    == subject.id@
                &&& subject.kind == SubjectKind::Hop ==> (evidence::attribute(
                    subject.attributes.deep_view(),
                    "linux.path.hop_ordinal"@,
                ) matches Some(AttributeValue::Unsigned(ordinal)) ==> (end matches Some(place)
                    && place.ordinal == ordinal && place.label == "hop#"@ + text::decimal(
                    ordinal as nat,
                )))
                &&& subject.kind == SubjectKind::FlowDomain ==> (end matches Some(place) ==> (
                place.ordinal == u64::MAX && place.label == "flow"@))
            }
        }),
{
}

/// A subject is found by its id.
pub proof fn subjects_are_found_by_id(subjects: Seq<Subject>, id: Seq<char>, n: int)
    requires
        0 <= n <= subjects.len(),
    ensures
        output::subject_of(subjects, id, n) matches Some(subject) ==> subject.id@ == id
            && subjects.take(n).contains(subject),
        output::subject_of(subjects, id, n) is None ==> forall|i: int|
            0 <= i < n ==> (#[trigger] subjects[i]).id@ != id,
    decreases n,
{
    if n > 0 {
        subjects_are_found_by_id(subjects, id, n - 1);
        let all = subjects.take(n);
        if subjects[n - 1].id@ == id {
            assert(all[n - 1] == subjects[n - 1]);
        } else if let Some(subject) = output::subject_of(subjects, id, n - 1) {
            let before = subjects.take(n - 1);
            let k = choose|k: int| 0 <= k < before.len() && before[k] == subject;
            assert(all[k] == before[k]);
        }
    }
}

/// The ends of a path come by their place, by their role next, and by their id after that.
pub proof fn ends_of_paths_come_in_order(a: Endpoint<Seq<char>>, b: Endpoint<Seq<char>>)
    ensures
        a.ordinal < b.ordinal ==> output::endpoint_before(a, b),
        a.ordinal > b.ordinal ==> !output::endpoint_before(a, b),
        a.ordinal == b.ordinal && output::role_rank(a.role) < output::role_rank(b.role)
            ==> output::endpoint_before(a, b),
        a.ordinal == b.ordinal && output::role_rank(a.role) > output::role_rank(b.role)
            ==> !output::endpoint_before(a, b),
        a.ordinal == b.ordinal && a.role == b.role && text::text_before(a.id, b.id)
            ==> output::endpoint_before(a, b),
        a.ordinal == b.ordinal && a.role == b.role && a.id == b.id ==> (output::endpoint_before(
            a,
            b,
        ) <==> text::text_before(a.label, b.label)),
        output::role_rank(SubjectRole::Primary) < output::role_rank(SubjectRole::Ingress)
            < output::role_rank(SubjectRole::Egress) < output::role_rank(SubjectRole::Owner)
            < output::role_rank(SubjectRole::Peer) < output::role_rank(SubjectRole::Before)
            < output::role_rank(SubjectRole::After),
{
    if a.id == b.id {
        text::text_order_is_strict_and_total(a.id, b.id, a.id);
    }
}

/// The ends of a path are told by their role, their name and their id.
pub proof fn ends_of_paths_are_told(ends: Seq<Endpoint<Seq<char>>>, i: int)
    requires
        0 <= i < ends.len(),
    ensures
        output::endpoint_texts(ends)[i] == ends[i].role.word() + ":"@ + ends[i].label + "@"@
            + ends[i].id,
        output::endpoint_texts(ends).len() == ends.len(),
        output::endpoints_text(ends) == output::joined(output::endpoint_texts(ends), ","@),
        output::endpoints_text(Seq::empty()) == "-"@,
{
}

/// Rows come by their direction: what was received first, what was sent next, and what is
/// not known last. Of one direction, what does not stand on a path comes first.
pub proof fn rows_come_by_direction_and_path(a: RowModel, b: RowModel)
    ensures
        a.direction is Rx && b.direction is Tx ==> output::row_before(a, b),
        a.direction is Tx && b.direction is Unresolved ==> output::row_before(a, b),
        a.direction is Rx && b.direction is Unresolved ==> output::row_before(a, b),
        a.direction == b.direction && !output::on_path(a) && output::on_path(b)
            ==> output::row_before(a, b) && !output::row_before(b, a),
        a.direction != b.direction ==> (output::row_before(a, b) <==> !output::row_before(b, a)),
{
}

/// Rows that stand on no path come by their layer, their stage, their domain and their
/// evidence, in this order.
pub proof fn rows_come_by_layer_and_stage(a: RowModel, b: RowModel)
    requires
        a.direction == b.direction,
        !output::on_path(a),
        !output::on_path(b),
    ensures
        ({
            let x = output::layer_word(a.layer);
            let y = output::layer_word(b.layer);
            &&& text::text_before(x, y) ==> output::row_before(a, b)
            &&& x == y && text::text_before(a.stage, b.stage) ==> output::row_before(a, b)
            &&& x == y && a.stage == b.stage && text::text_before(
                a.execution_domain,
                b.execution_domain,
            ) ==> output::row_before(a, b)
            &&& x == y && a.stage == b.stage && a.execution_domain == b.execution_domain ==> (
            output::row_before(a, b) <==> text::text_before(a.evidence, b.evidence))
        }),
{
    text::text_order_is_strict_and_total(
        output::layer_word(a.layer),
        output::layer_word(b.layer),
        a.stage,
    );
    text::text_order_is_strict_and_total(a.stage, b.stage, a.stage);
    text::text_order_is_strict_and_total(
        a.execution_domain,
        b.execution_domain,
        a.execution_domain,
    );
}

/// Rows that stand on a path come by their role on it, by its ends, and by their transition,
/// their domain, their stage and their evidence, in this order; rows without ends come last.
pub proof fn rows_come_along_their_path(a: RowModel, b: RowModel)
    requires
        a.direction == b.direction,
        output::on_path(a),
        output::on_path(b),
    ensures
        output::path_rank(a.path_role) < output::path_rank(b.path_role) ==> output::row_before(
            a,
            b,
        ),
        a.path_role == b.path_role && a.endpoints.len() > 0 && b.endpoints.len() == 0
            ==> output::row_before(a, b) && !output::row_before(b, a),
        a.path_role == b.path_role && a.endpoints == b.endpoints && text::text_before(
            a.transition,
            b.transition,
        ) ==> output::row_before(a, b),
        a.path_role == b.path_role && a.endpoints == b.endpoints && a.transition == b.transition
            && text::text_before(a.execution_domain, b.execution_domain) ==> output::row_before(
            a,
            b,
        ),
        a.path_role == b.path_role && a.endpoints == b.endpoints && a.transition == b.transition
            && a.execution_domain == b.execution_domain && text::text_before(a.stage, b.stage)
            ==> output::row_before(a, b),
        a.path_role == b.path_role && a.endpoints == b.endpoints && a.transition == b.transition
            && a.execution_domain == b.execution_domain && a.stage == b.stage ==> (
        output::row_before(a, b) <==> text::text_before(a.evidence, b.evidence)),
        output::path_rank(Some(PathRole::Local)) < output::path_rank(Some(PathRole::Forwarded))
            < output::path_rank(Some(PathRole::Tunnel)) < output::path_rank(Some(PathRole::Bridge))
            < output::path_rank(None),
{
    text::text_order_is_strict_and_total(a.transition, b.transition, a.transition);
    text::text_order_is_strict_and_total(
        a.execution_domain,
        b.execution_domain,
        a.execution_domain,
    );
    text::text_order_is_strict_and_total(a.stage, b.stage, a.stage);
    if a.endpoints == b.endpoints {
        assert(output::same_path(a.endpoints, b.endpoints));
    }
}

/// A path comes by the first end at which it differs; one that ends there comes first.
pub proof fn paths_come_by_their_first_difference(
    a: Seq<Endpoint<Seq<char>>>,
    b: Seq<Endpoint<Seq<char>>>,
    from: int,
    i: int,
)
    requires
        0 <= from <= i,
        i <= a.len(),
        i < b.len(),
        forall|j: int| 0 <= j < i ==> output::same_place(#[trigger] a[j], b[j]),
    ensures
        i == a.len() ==> output::path_before(a, b, from),
        i < a.len() && !output::same_place(a[i], b[i]) ==> (output::path_before(a, b, from)
            <==> output::endpoint_before(a[i], b[i])),
    decreases i - from,
{
    if from < i {
        assert(output::same_place(a[from], b[from]));
        paths_come_by_their_first_difference(a, b, from + 1, i);
    }
}

proof fn lemma_layer_rows(rows: Seq<RowModel>, direction: StageDirection, n: int, i: int)
    requires
        0 <= i < n <= rows.len(),
        rows[i].direction == direction,
        !output::on_path(rows[i]),
    ensures
        holds(
            output::layer_rows_upto(rows, direction, n),
            output::row_text(output::layer_cells(rows[i]), output::layer_widths()),
        ),
    decreases n,
{
    let before = output::layer_rows_upto(rows, direction, n - 1);
    let row = output::row_text(output::layer_cells(rows[i]), output::layer_widths());
    let last = output::row_text(output::layer_cells(rows[n - 1]), output::layer_widths());
    if i < n - 1 {
        lemma_layer_rows(rows, direction, n - 1, i);
        lemma_still_held(before, last, row);
    } else {
        lemma_held(before, row, Seq::empty());
    }
}

proof fn lemma_graph_rows(rows: Seq<RowModel>, direction: StageDirection, n: int, i: int)
    requires
        0 <= i < n <= rows.len(),
        rows[i].direction == direction,
        output::on_path(rows[i]),
    ensures
        holds(
            output::graph_rows_upto(rows, direction, n),
            output::row_text(output::graph_cells(rows[i]), output::graph_widths()),
        ),
    decreases n,
{
    let before = output::graph_rows_upto(rows, direction, n - 1);
    let row = output::row_text(output::graph_cells(rows[i]), output::graph_widths());
    let last = output::row_text(output::graph_cells(rows[n - 1]), output::graph_widths());
    if i < n - 1 {
        lemma_graph_rows(rows, direction, n - 1, i);
        lemma_still_held(before, last, row);
    } else {
        lemma_held(before, row, Seq::empty());
    }
}

/// Every row of evidence stands in the part of its direction: among the layers, or along the
/// path if it stands on one.
pub proof fn evidence_shows_every_row(rows: Seq<RowModel>, i: int)
    requires
        0 <= i < rows.len(),
    ensures
        holds(
            output::direction_text(rows, rows[i].direction),
            if output::on_path(rows[i]) {
                output::row_text(output::graph_cells(rows[i]), output::graph_widths())
            } else {
                output::row_text(output::layer_cells(rows[i]), output::layer_widths())
            },
        ),
        holds(output::evidence_text(rows), output::direction_text(rows, rows[i].direction)),
{
    let n = rows.len() as int;
    let direction = rows[i].direction;
    let heading = "\n"@ + direction.evidence_words() + "\n"@;
    let none = "  No stored layer-scoped evidence in this window.\n"@;
    let layered = output::layer_rows_upto(rows, direction, n);
    let first = seqs::first_where(rows, output::is_layer_row(direction), n);
    seqs::lemma_first_where(rows, output::is_layer_row(direction), n);
    seqs::lemma_first_where(rows, output::is_graph_row(direction), n);
    let layers = heading + if first is None {
        none
    } else {
        layered
    };
    let graph = output::graph_rows_upto(rows, direction, n);
    if output::on_path(rows[i]) {
        let row = output::row_text(output::graph_cells(rows[i]), output::graph_widths());
        assert(output::is_graph_row(direction)(rows[i]));
        lemma_graph_rows(rows, direction, n, i);
        lemma_still_held(graph, layers + "\n"@ + direction.path_words() + "\n"@, row);
    } else {
        let row = output::row_text(output::layer_cells(rows[i]), output::layer_widths());
        assert(output::is_layer_row(direction)(rows[i]));
        lemma_layer_rows(rows, direction, n, i);
        lemma_still_held(layered, heading, row);
        lemma_still_held(layers, "\n"@, row);
        lemma_still_held(layers + "\n"@, direction.path_words(), row);
        lemma_still_held(layers + "\n"@ + direction.path_words(), "\n"@, row);
        lemma_still_held(layers + "\n"@ + direction.path_words() + "\n"@, graph, row);
    }
    let rx = output::direction_text(rows, StageDirection::Rx);
    let tx = output::direction_text(rows, StageDirection::Tx);
    let rest = output::direction_text(rows, StageDirection::Unresolved);
    match direction {
        StageDirection::Rx => {
            lemma_held(Seq::empty(), rx, tx + rest);
            assert(Seq::<char>::empty() + rx + (tx + rest) =~= rx + tx + rest);
        },
        StageDirection::Tx => {
            lemma_held(rx, tx, rest);
        },
        StageDirection::Unresolved => {
            lemma_held(rx + tx, rest, Seq::empty());
        },
    }
}

/// Headings say of which direction the rows below them are.
pub proof fn headings_say_the_direction(rows: Seq<RowModel>, direction: StageDirection)
    ensures
        holds(output::direction_text(rows, direction), direction.evidence_words()),
        direction is Rx ==> direction.evidence_words() == "RX evidence by layer"@
            && direction.path_words() == "RX path evidence"@,
        direction is Tx ==> direction.evidence_words() == "TX evidence by layer"@
            && direction.path_words() == "TX path evidence"@,
        direction is Unresolved ==> direction.evidence_words()
            == "Unresolved-direction evidence by layer"@ && direction.path_words()
            == "Unresolved-direction path evidence"@,
{
    let n = rows.len() as int;
    let words = direction.evidence_words();
    let body = if seqs::first_where(rows, output::is_layer_row(direction), n) is None {
        "  No stored layer-scoped evidence in this window.\n"@
    } else {
        output::layer_rows_upto(rows, direction, n)
    };
    let graph = output::graph_rows_upto(rows, direction, n);
    lemma_held("\n"@, words, "\n"@);
    lemma_still_held("\n"@ + words + "\n"@, body, words);
    let layers = "\n"@ + words + "\n"@ + body;
    lemma_still_held(layers, "\n"@, words);
    lemma_still_held(layers + "\n"@, direction.path_words(), words);
    lemma_still_held(layers + "\n"@ + direction.path_words(), "\n"@, words);
    lemma_still_held(layers + "\n"@ + direction.path_words() + "\n"@, graph, words);
}

/// Every note stands on a line of its own.
pub proof fn notes_are_shown(notes: Seq<String>, indent: Seq<char>, n: int, i: int)
    requires
        0 <= i < n <= notes.len(),
    ensures
        holds(output::notes_upto(notes, indent, n), indent + notes[i]@ + "\n"@),
    decreases n,
{
    let before = output::notes_upto(notes, indent, n - 1);
    let last = indent + notes[n - 1]@ + "\n"@;
    if i < n - 1 {
        notes_are_shown(notes, indent, n - 1, i);
        lemma_still_held(before, last, indent + notes[i]@ + "\n"@);
    } else {
        lemma_held(before, last, Seq::empty());
    }
}

/// Every layer is shown with its coverage and its notes.
pub proof fn every_layer_is_shown(coverage: Seq<LayerCoverage>, n: int, i: int)
    requires
        0 <= i < n <= coverage.len(),
    ensures
        holds(
            output::layers_upto(coverage, n),
            output::row_text(output::coverage_cells(coverage[i]), output::coverage_widths()),
        ),
        holds(
            output::layers_upto(coverage, n),
            output::notes_upto(
                coverage[i].limitations@,
                output::layer_note(),
                coverage[i].limitations@.len() as int,
            ),
        ),
    decreases n,
{
    let before = output::layers_upto(coverage, n - 1);
    let last = coverage[n - 1];
    let row = output::row_text(output::coverage_cells(last), output::coverage_widths());
    let notes = output::notes_upto(
        last.limitations@,
        output::layer_note(),
        last.limitations@.len() as int,
    );
    if i < n - 1 {
        every_layer_is_shown(coverage, n - 1, i);
        let own = output::row_text(
            output::coverage_cells(coverage[i]),
            output::coverage_widths(),
        );
        let own_notes = output::notes_upto(
            coverage[i].limitations@,
            output::layer_note(),
            coverage[i].limitations@.len() as int,
        );
        lemma_still_held(before, row, own);
        lemma_still_held(before + row, notes, own);
        lemma_still_held(before, row, own_notes);
        lemma_still_held(before + row, notes, own_notes);
    } else {
        lemma_held(before, row, notes);
        lemma_held(before + row, notes, Seq::empty());
    }
}

/// Every stage is shown with its coverage and its notes.
pub proof fn every_stage_is_shown(coverage: Seq<StageCoverage>, n: int, i: int)
    requires
        0 <= i < n <= coverage.len(),
    ensures
        holds(
            output::stages_upto(coverage, n),
            output::row_text(output::stage_cells(coverage[i]), output::stage_widths()),
        ),
        holds(
            output::stages_upto(coverage, n),
            output::notes_upto(
                coverage[i].limitations@,
                output::stage_note(),
                coverage[i].limitations@.len() as int,
            ),
        ),
    decreases n,
{
    let before = output::stages_upto(coverage, n - 1);
    let last = coverage[n - 1];
    let row = output::row_text(output::stage_cells(last), output::stage_widths());
    let notes = output::notes_upto(
        last.limitations@,
        output::stage_note(),
        last.limitations@.len() as int,
    );
    if i < n - 1 {
        every_stage_is_shown(coverage, n - 1, i);
        let own = output::row_text(output::stage_cells(coverage[i]), output::stage_widths());
        let own_notes = output::notes_upto(
            coverage[i].limitations@,
            output::stage_note(),
            coverage[i].limitations@.len() as int,
        );
        lemma_still_held(before, row, own);
        lemma_still_held(before + row, notes, own);
        lemma_still_held(before, row, own_notes);
        lemma_still_held(before + row, notes, own_notes);
    } else {
        lemma_held(before, row, notes);
        lemma_held(before + row, notes, Seq::empty());
    }
}

/// Every provider is shown by its name, its state and what is said of it.
pub proof fn every_provider_is_shown(report: CapabilityReport, n: int, i: int)
    requires
        0 <= i < n <= report.providers@.len(),
    ensures
        holds(
            output::doctor_upto(report, n),
            output::row_text(
                seq![
                    report.providers@[i].name@,
                    report.providers@[i].state.word(),
                    report.providers@[i].detail@,
                ],
                output::provider_widths(),
            ),
        ),
        output::provider_widths().len() == 2,
    decreases n,
{
    let before = output::doctor_upto(report, n - 1);
    let cells = |k: int|
        seq![
            report.providers@[k].name@,
            report.providers@[k].state.word(),
            report.providers@[k].detail@,
        ];
    let own = output::row_text(cells(i), output::provider_widths());
    let last = output::row_text(cells(n - 1), output::provider_widths());
    if i < n - 1 {
        every_provider_is_shown(report, n - 1, i);
        lemma_still_held(before, last, own);
    } else {
        lemma_held(before, last, Seq::empty());
    }
}

/// Every finding is shown; where there is none, that is said.
pub proof fn every_finding_is_shown(findings: Seq<Finding>, n: int, i: int)
    requires
        0 <= i < n <= findings.len(),
    ensures
        holds(output::findings_upto(findings, n), output::finding_text(findings[i])),
        output::findings_text(findings) == output::findings_upto(findings, findings.len() as int),
        holds(
            output::findings_text(Seq::empty()),
            "  No anomaly counters increased in the covered sources.\n"@,
        ),
    decreases n,
{
    let before = output::findings_upto(findings, n - 1);
    let last = output::finding_text(findings[n - 1]);
    lemma_held(
        "\nFindings\n"@,
        "  No anomaly counters increased in the covered sources.\n"@,
        Seq::empty(),
    );
    if i < n - 1 {
        every_finding_is_shown(findings, n - 1, i);
        lemma_still_held(before, last, output::finding_text(findings[i]));
    } else {
        lemma_held(before, last, Seq::empty());
    }
}

/// Every provider is shown with its scope, after what was asked for.
pub proof fn every_scope_is_shown(report: Report, n: int, i: int)
    requires
        0 <= i < n <= report.scope.providers@.len(),
    ensures
        holds(output::scopes_upto(report, n), output::scope_text(report.scope.providers@[i])),
        holds(output::scopes_upto(report, n), output::request_text(report)),
    decreases n,
{
    let before = output::scopes_upto(report, n - 1);
    let last = output::scope_text(report.scope.providers@[n - 1]);
    if i < n - 1 {
        every_scope_is_shown(report, n - 1, i);
        lemma_still_held(before, last, output::scope_text(report.scope.providers@[i]));
        lemma_still_held(before, last, output::request_text(report));
    } else {
        lemma_held(before, last, Seq::empty());
        if n > 1 {
            every_scope_is_shown(report, n - 1, 0);
            lemma_still_held(before, last, output::request_text(report));
        } else {
            lemma_held(Seq::empty(), output::request_text(report), last);
            assert(Seq::<char>::empty() + output::request_text(report) =~= output::request_text(
                report,
            ));
        }
    }
}

/// What every provider counted is shown.
pub proof fn every_count_is_shown(telemetry: Telemetry, n: int, i: int)
    requires
        0 <= i < n <= telemetry.providers@.len(),
    ensures
        holds(
            output::telemetry_upto(telemetry, n),
            output::provider_telemetry_text(telemetry.providers@[i]),
        ),
    decreases n,
{
    let before = output::telemetry_upto(telemetry, n - 1);
    let last = output::provider_telemetry_text(telemetry.providers@[n - 1]);
    if i < n - 1 {
        every_count_is_shown(telemetry, n - 1, i);
        lemma_still_held(
            before,
            last,
            output::provider_telemetry_text(telemetry.providers@[i]),
        );
    } else {
        lemma_held(before, last, Seq::empty());
    }
}

/// Every failure to collect is shown with who failed and what was said, after the counts.
pub proof fn every_failure_is_shown(telemetry: Telemetry, n: int, i: int)
    requires
        0 <= i < n <= telemetry.collection_errors@.len(),
    ensures
        holds(
            output::errors_upto(telemetry, n),
            "  collector "@ + telemetry.collection_errors@[i].provider@ + ": "@
                + telemetry.collection_errors@[i].message@ + "\n"@,
        ),
        holds(
            output::errors_upto(telemetry, n),
            output::telemetry_upto(telemetry, telemetry.providers@.len() as int),
        ),
    decreases n,
{
    let before = output::errors_upto(telemetry, n - 1);
    let line = |k: int|
        "  collector "@ + telemetry.collection_errors@[k].provider@ + ": "@
            + telemetry.collection_errors@[k].message@ + "\n"@;
    let counts = output::telemetry_upto(telemetry, telemetry.providers@.len() as int);
    if i < n - 1 {
        every_failure_is_shown(telemetry, n - 1, i);
        lemma_still_held(before, line(n - 1), line(i));
        lemma_still_held(before, line(n - 1), counts);
    } else {
        lemma_held(before, line(n - 1), Seq::empty());
        if n > 1 {
            every_failure_is_shown(telemetry, n - 1, 0);
            lemma_still_held(before, line(n - 1), counts);
        } else {
            lemma_held(Seq::empty(), counts, line(n - 1));
            assert(Seq::<char>::empty() + counts =~= counts);
        }
    }
}

/// A report holds its scopes, its evidence, its findings, how much was seen, its coverage and
/// its counts.
pub proof fn reports_hold_their_parts(report: Report)
    ensures
        ({
            let all = output::report_text(report);
            &&& holds(
                all,
                output::scopes_upto(report, report.scope.providers@.len() as int),
            )
            &&& holds(all, output::evidence_text(output::report_rows(report)))
            &&& holds(all, output::findings_text(report.findings@))
            &&& holds(
                all,
                "\nObservations: "@ + text::decimal(report.observations@.len()) + " stored\n"@,
            )
            &&& holds(all, output::coverage_text(report.capabilities))
            &&& holds(
                all,
                output::errors_upto(
                    report.telemetry,
                    report.telemetry.collection_errors@.len() as int,
                ),
            )
        }),
{
    let a = output::scopes_upto(report, report.scope.providers@.len() as int);
    let b = output::evidence_text(output::report_rows(report));
    let c = output::findings_text(report.findings@);
    let d = "\nObservations: "@ + text::decimal(report.observations@.len()) + " stored\n"@;
    let e = output::coverage_text(report.capabilities);
    let f = output::errors_upto(
        report.telemetry,
        report.telemetry.collection_errors@.len() as int,
    );
    lemma_held(Seq::empty(), a, b);
    assert(Seq::<char>::empty() + a =~= a);
    lemma_held(a, b, c);
    lemma_still_held(a + b, c, a);
    lemma_held(a + b, c, d);
    lemma_still_held(a + b + c, d, a);
    lemma_still_held(a + b + c, d, b);
    lemma_held(a + b + c, d, e);
    lemma_still_held(a + b + c + d, e, a);
    lemma_still_held(a + b + c + d, e, b);
    lemma_still_held(a + b + c + d, e, c);
    lemma_held(a + b + c + d, e, f);
    lemma_still_held(a + b + c + d + e, f, a);
    lemma_still_held(a + b + c + d + e, f, b);
    lemma_still_held(a + b + c + d + e, f, c);
    lemma_still_held(a + b + c + d + e, f, d);
    lemma_held(a + b + c + d + e, f, Seq::empty());
}

/// A flow is told by its protocol, and by the address and the port of each of its ends.
pub proof fn flows_are_told_by_their_ends(flow: FlowFilter)
    ensures
        tells(output::flow_text(flow), "protocol="@, protocol_of(flow.protocol)),
        tells(output::flow_text(flow), " src="@, output::text_or(flow.source_address, "any"@)),
        tells(output::flow_text(flow), " dst="@, output::text_or(flow.destination_address, "any"@)),
{
    let t0 = Seq::<char>::empty();
    lemma_told(t0, "protocol="@, protocol_of(flow.protocol));
    assert(t0 + "protocol="@ =~= "protocol="@);
    let t0 = "protocol="@;
    let t1 = t0 + protocol_of(flow.protocol);
    lemma_still_told(t0, protocol_of(flow.protocol));
    let t2 = t1 + " src="@;
    lemma_still_told(t1, " src="@);
    let t3 = t2 + output::text_or(flow.source_address, "any"@);
    lemma_told(t1, " src="@, output::text_or(flow.source_address, "any"@));
    lemma_still_told(t2, output::text_or(flow.source_address, "any"@));
    let t4 = t3 + ":"@;
    lemma_still_told(t3, ":"@);
    let t5 = t4 + output::port_text(flow.source_port);
    lemma_still_told(t4, output::port_text(flow.source_port));
    let t6 = t5 + " dst="@;
    lemma_still_told(t5, " dst="@);
    let t7 = t6 + output::text_or(flow.destination_address, "any"@);
    lemma_told(t5, " dst="@, output::text_or(flow.destination_address, "any"@));
    lemma_still_told(t6, output::text_or(flow.destination_address, "any"@));
    let t8 = t7 + ":"@;
    lemma_still_told(t7, ":"@);
    let t9 = t8 + output::port_text(flow.destination_port);
    lemma_still_told(t8, output::port_text(flow.destination_port));
    assert(output::flow_text(flow) == t9);
}

/// What a provider can filter by is told for each filter.
pub proof fn support_is_told_for_each_filter(support: ProviderFilterSupport)
    ensures
        tells(output::support_text(support), "layers="@, support.layers.word()),
        tells(output::support_text(support), " namespace="@, support.network_namespace.word()),
        tells(output::support_text(support), " interface="@, support.interface_path.word()),
        tells(output::support_text(support), " direction="@, support.direction.word()),
        tells(output::support_text(support), " protocol="@, support.protocol.word()),
        tells(output::support_text(support), " src_addr="@, support.source_address.word()),
        tells(output::support_text(support), " dst_addr="@, support.destination_address.word()),
        tells(output::support_text(support), " src_port="@, support.source_port.word()),
        tells(output::support_text(support), " dst_port="@, support.destination_port.word()),
{
    let t0 = Seq::<char>::empty();
    lemma_told(t0, "layers="@, support.layers.word());
    assert(t0 + "layers="@ =~= "layers="@);
    let t0 = "layers="@;
    let t1 = t0 + support.layers.word();
    lemma_still_told(t0, support.layers.word());
    let t2 = t1 + " namespace="@;
    lemma_still_told(t1, " namespace="@);
    let t3 = t2 + support.network_namespace.word();
    lemma_told(t1, " namespace="@, support.network_namespace.word());
    lemma_still_told(t2, support.network_namespace.word());
    let t4 = t3 + " interface="@;
    lemma_still_told(t3, " interface="@);
    let t5 = t4 + support.interface_path.word();
    lemma_told(t3, " interface="@, support.interface_path.word());
    lemma_still_told(t4, support.interface_path.word());
    let t6 = t5 + " direction="@;
    lemma_still_told(t5, " direction="@);
    let t7 = t6 + support.direction.word();
    lemma_told(t5, " direction="@, support.direction.word());
    lemma_still_told(t6, support.direction.word());
    let t8 = t7 + " protocol="@;
    lemma_still_told(t7, " protocol="@);
    let t9 = t8 + support.protocol.word();
    lemma_told(t7, " protocol="@, support.protocol.word());
    lemma_still_told(t8, support.protocol.word());
    let t10 = t9 + " src_addr="@;
    lemma_still_told(t9, " src_addr="@);
    let t11 = t10 + support.source_address.word();
    lemma_told(t9, " src_addr="@, support.source_address.word());
    lemma_still_told(t10, support.source_address.word());
    let t12 = t11 + " dst_addr="@;
    lemma_still_told(t11, " dst_addr="@);
    let t13 = t12 + support.destination_address.word();
    lemma_told(t11, " dst_addr="@, support.destination_address.word());
    lemma_still_told(t12, support.destination_address.word());
    let t14 = t13 + " src_port="@;
    lemma_still_told(t13, " src_port="@);
    let t15 = t14 + support.source_port.word();
    lemma_told(t13, " src_port="@, support.source_port.word());
    lemma_still_told(t14, support.source_port.word());
    let t16 = t15 + " dst_port="@;
    lemma_still_told(t15, " dst_port="@);
    let t17 = t16 + support.destination_port.word();
    lemma_told(t15, " dst_port="@, support.destination_port.word());
    lemma_still_told(t16, support.destination_port.word());
    assert(output::support_text(support) == t17);
}

/// A path of interfaces is told by where it begins, what can be seen of it, and what is missing.
pub proof fn anchored_paths_are_told(path: InterfacePath)
    ensures
        tells(
            output::interface_text(Some(path)),
            " closure=["@,
            output::joined(output::number_words(path.visible_ifindices@), ","@),
        ),
        tells(
            output::interface_text(Some(path)),
            "] gaps=["@,
            output::joined(output::gap_words(path), ","@),
        ),
{
    let t0 = output::anchor_text(path.anchor);
    let t1 = t0 + " closure=["@;
    lemma_still_told(t0, " closure=["@);
    let t2 = t1 + output::joined(output::number_words(path.visible_ifindices@), ","@);
    lemma_told(
        t0,
        " closure=["@,
        output::joined(output::number_words(path.visible_ifindices@), ","@),
    );
    lemma_still_told(t1, output::joined(output::number_words(path.visible_ifindices@), ","@));
    let t3 = t2 + "] gaps=["@;
    lemma_still_told(t2, "] gaps=["@);
    let t4 = t3 + output::joined(output::gap_words(path), ","@);
    lemma_told(t2, "] gaps=["@, output::joined(output::gap_words(path), ","@));
    lemma_still_told(t3, output::joined(output::gap_words(path), ","@));
    let t5 = t4 + "]"@;
    lemma_still_told(t4, "]"@);
    assert(output::interface_text(Some(path)) == t5);
}

/// What a provider covered is told by its layers, its namespace, its interfaces, its direction and
/// its flow.
pub proof fn scopes_are_told(scope: EffectiveScope)
    ensures
        tells(
            output::effective_text(Some(scope)),
            "layers="@,
            output::joined(output::layer_words(scope.layers@), ","@),
        ),
        tells(
            output::effective_text(Some(scope)),
            " namespace="@,
            output::namespace_text(scope.network_namespace),
        ),
        tells(
            output::effective_text(Some(scope)),
            " interface="@,
            output::interface_scope_text(scope.interface_scope),
        ),
        tells(
            output::effective_text(Some(scope)),
            " direction="@,
            output::any_direction(scope.direction),
        ),
        tells(output::effective_text(Some(scope)), " flow="@, output::flow_text(scope.flow)),
{
    let t0 = Seq::<char>::empty();
    lemma_told(t0, "layers="@, output::joined(output::layer_words(scope.layers@), ","@));
    assert(t0 + "layers="@ =~= "layers="@);
    let t0 = "layers="@;
    let t1 = t0 + output::joined(output::layer_words(scope.layers@), ","@);
    lemma_still_told(t0, output::joined(output::layer_words(scope.layers@), ","@));
    let t2 = t1 + " namespace="@;
    lemma_still_told(t1, " namespace="@);
    let t3 = t2 + output::namespace_text(scope.network_namespace);
    lemma_told(t1, " namespace="@, output::namespace_text(scope.network_namespace));
    lemma_still_told(t2, output::namespace_text(scope.network_namespace));
    let t4 = t3 + " interface="@;
    lemma_still_told(t3, " interface="@);
    let t5 = t4 + output::interface_scope_text(scope.interface_scope);
    lemma_told(t3, " interface="@, output::interface_scope_text(scope.interface_scope));
    lemma_still_told(t4, output::interface_scope_text(scope.interface_scope));
    let t6 = t5 + " direction="@;
    lemma_still_told(t5, " direction="@);
    let t7 = t6 + output::any_direction(scope.direction);
    lemma_told(t5, " direction="@, output::any_direction(scope.direction));
    lemma_still_told(t6, output::any_direction(scope.direction));
    let t8 = t7 + " flow="@;
    lemma_still_told(t7, " flow="@);
    let t9 = t8 + output::flow_text(scope.flow);
    lemma_told(t7, " flow="@, output::flow_text(scope.flow));
    lemma_still_told(t8, output::flow_text(scope.flow));
    assert(output::effective_text(Some(scope)) == t9);
}

/// A provider is told with what it covered and what it can filter by.
pub proof fn providers_are_told_with_their_scope(provider: ProviderScope)
    ensures
        tells(output::scope_text(provider), "  "@, provider.provider@),
        tells(
            output::scope_text(provider),
            "  effective: "@,
            output::effective_text(provider.effective),
        ),
        tells(
            output::scope_text(provider),
            "  support: "@,
            output::support_text(provider.filter_support),
        ),
{
    let t0 = Seq::<char>::empty();
    lemma_told(t0, "  "@, provider.provider@);
    assert(t0 + "  "@ =~= "  "@);
    let t0 = "  "@;
    let t1 = t0 + provider.provider@;
    lemma_still_told(t0, provider.provider@);
    let t2 = t1 + "  effective: "@;
    lemma_still_told(t1, "  effective: "@);
    let t3 = t2 + output::effective_text(provider.effective);
    lemma_told(t1, "  effective: "@, output::effective_text(provider.effective));
    lemma_still_told(t2, output::effective_text(provider.effective));
    let t4 = t3 + "  support: "@;
    lemma_still_told(t3, "  support: "@);
    let t5 = t4 + output::support_text(provider.filter_support);
    lemma_told(t3, "  support: "@, output::support_text(provider.filter_support));
    lemma_still_told(t4, output::support_text(provider.filter_support));
    let t6 = t5 + "\n"@;
    lemma_still_told(t5, "\n"@);
    assert(output::scope_text(provider) == t6);
}

/// A report begins with what was asked for: how long, on which interfaces, in which namespace and
/// direction, for which layers and which flow.
pub proof fn requests_are_told(report: Report)
    ensures
        tells(output::request_text(report), "Window: "@, text::decimal(report.duration_ms as nat)),
        tells(
            output::request_text(report),
            " ms  Interface anchor: "@,
            output::interface_text(report.scope.requested.interface_path),
        ),
        tells(
            output::request_text(report),
            "  Namespace: "@,
            output::text_or(
                report.scope.requested.network_namespace,
                "current (identity unknown)"@,
            ),
        ),
        tells(
            output::request_text(report),
            "  Direction: "@,
            output::any_direction(report.scope.requested.direction),
        ),
        tells(
            output::request_text(report),
            "Layers: "@,
            output::joined(output::layer_words(report.scope.requested.layers@), ","@),
        ),
        tells(
            output::request_text(report),
            "  Flow: "@,
            output::flow_text(report.scope.requested.flow),
        ),
{
    let t0 = Seq::<char>::empty();
    lemma_told(t0, "Window: "@, text::decimal(report.duration_ms as nat));
    assert(t0 + "Window: "@ =~= "Window: "@);
    let t0 = "Window: "@;
    let t1 = t0 + text::decimal(report.duration_ms as nat);
    lemma_still_told(t0, text::decimal(report.duration_ms as nat));
    let t2 = t1 + " ms  Interface anchor: "@;
    lemma_still_told(t1, " ms  Interface anchor: "@);
    let t3 = t2 + output::interface_text(report.scope.requested.interface_path);
    lemma_told(
        t1,
        " ms  Interface anchor: "@,
        output::interface_text(report.scope.requested.interface_path),
    );
    lemma_still_told(t2, output::interface_text(report.scope.requested.interface_path));
    let t4 = t3 + "  Namespace: "@;
    lemma_still_told(t3, "  Namespace: "@);
    let t5 = t4 + output::text_or(
        report.scope.requested.network_namespace,
        "current (identity unknown)"@,
    );
    lemma_told(
        t3,
        "  Namespace: "@,
        output::text_or(report.scope.requested.network_namespace, "current (identity unknown)"@),
    );
    lemma_still_told(
        t4,
        output::text_or(report.scope.requested.network_namespace, "current (identity unknown)"@),
    );
    let t6 = t5 + "  Direction: "@;
    lemma_still_told(t5, "  Direction: "@);
    let t7 = t6 + output::any_direction(report.scope.requested.direction);
    lemma_told(t5, "  Direction: "@, output::any_direction(report.scope.requested.direction));
    lemma_still_told(t6, output::any_direction(report.scope.requested.direction));
    let t8 = t7 + "\n"@;
    lemma_still_told(t7, "\n"@);
    let t9 = t8 + "Layers: "@;
    lemma_still_told(t8, "Layers: "@);
    let t10 = t9 + output::joined(output::layer_words(report.scope.requested.layers@), ","@);
    lemma_told(
        t8,
        "Layers: "@,
        output::joined(output::layer_words(report.scope.requested.layers@), ","@),
    );
    lemma_still_told(t9, output::joined(output::layer_words(report.scope.requested.layers@), ","@));
    let t11 = t10 + "  Flow: "@;
    lemma_still_told(t10, "  Flow: "@);
    let t12 = t11 + output::flow_text(report.scope.requested.flow);
    lemma_told(t10, "  Flow: "@, output::flow_text(report.scope.requested.flow));
    lemma_still_told(t11, output::flow_text(report.scope.requested.flow));
    let t13 = t12 + "\n"@;
    lemma_still_told(t12, "\n"@);
    let t14 = t13 + "\nProvider scopes\n"@;
    lemma_still_told(t13, "\nProvider scopes\n"@);
    assert(output::request_text(report) == t14);
}

/// A finding is told with how severe it is, where it was found, how sure it is, how often it was
/// seen, and what it is.
pub proof fn findings_are_told(finding: Finding)
    ensures
        tells(output::finding_text(finding), "  ["@, output::padded(finding.severity.word(), 7)),
        tells(
            output::finding_text(finding),
            "] "@,
            output::padded(output::layer_word(finding.layer), 12),
        ),
        tells(output::finding_text(finding), " "@, output::padded(finding.confidence.word(), 10)),
        tells(
            output::finding_text(finding),
            " "@,
            output::measured(finding.count, finding.descriptor.measurement.bound),
        ),
        tells(output::finding_text(finding), "  "@, finding.title@),
        tells(output::finding_text(finding), "            "@, finding.summary@),
{
    let t0 = Seq::<char>::empty();
    lemma_told(t0, "  ["@, output::padded(finding.severity.word(), 7));
    assert(t0 + "  ["@ =~= "  ["@);
    let t0 = "  ["@;
    let t1 = t0 + output::padded(finding.severity.word(), 7);
    lemma_still_told(t0, output::padded(finding.severity.word(), 7));
    let t2 = t1 + "] "@;
    lemma_still_told(t1, "] "@);
    let t3 = t2 + output::padded(output::layer_word(finding.layer), 12);
    lemma_told(t1, "] "@, output::padded(output::layer_word(finding.layer), 12));
    lemma_still_told(t2, output::padded(output::layer_word(finding.layer), 12));
    let t4 = t3 + " "@;
    lemma_still_told(t3, " "@);
    let t5 = t4 + output::padded(finding.confidence.word(), 10);
    lemma_told(t3, " "@, output::padded(finding.confidence.word(), 10));
    lemma_still_told(t4, output::padded(finding.confidence.word(), 10));
    let t6 = t5 + " "@;
    lemma_still_told(t5, " "@);
    let t7 = t6 + output::measured(finding.count, finding.descriptor.measurement.bound);
    lemma_told(t5, " "@, output::measured(finding.count, finding.descriptor.measurement.bound));
    lemma_still_told(t6, output::measured(finding.count, finding.descriptor.measurement.bound));
    let t8 = t7 + "  "@;
    lemma_still_told(t7, "  "@);
    let t9 = t8 + finding.title@;
    lemma_told(t7, "  "@, finding.title@);
    lemma_still_told(t8, finding.title@);
    let t10 = t9 + "\n"@;
    lemma_still_told(t9, "\n"@);
    let t11 = t10 + "            "@;
    lemma_still_told(t10, "            "@);
    let t12 = t11 + finding.summary@;
    lemma_told(t10, "            "@, finding.summary@);
    lemma_still_told(t11, finding.summary@);
    let t13 = t12 + "\n"@;
    lemma_still_told(t12, "\n"@);
    assert(output::finding_text(finding) == t13);
}

/// The totals of a report are told each by its name.
pub proof fn totals_are_told(telemetry: Telemetry)
    ensures
        tells(
            output::totals_text(telemetry),
            "  bpf seen/output-lost: "@,
            output::total_text(telemetry.totals.bpf_events_seen),
        ),
        tells(
            output::totals_text(telemetry),
            "/"@,
            output::total_text(telemetry.totals.bpf_output_lost),
        ),
        tells(
            output::totals_text(telemetry),
            "  transport received/lost: "@,
            output::total_text(telemetry.totals.transport_events_received),
        ),
        tells(
            output::totals_text(telemetry),
            "/"@,
            output::total_text(telemetry.totals.transport_events_lost),
        ),
        tells(
            output::totals_text(telemetry),
            "  user dropped: "@,
            output::total_text(telemetry.totals.user_events_dropped),
        ),
        tells(
            output::totals_text(telemetry),
            "  netlink loss events: "@,
            output::total_text(telemetry.totals.netlink_loss_events),
        ),
        tells(
            output::totals_text(telemetry),
            "  interrupted dumps: "@,
            output::total_text(telemetry.totals.netlink_dump_interruptions),
        ),
        tells(
            output::totals_text(telemetry),
            "  parse errors: "@,
            output::total_text(telemetry.totals.parse_errors),
        ),
        tells(
            output::totals_text(telemetry),
            "  sampling: "@,
            output::sampling_text(telemetry.sampling),
        ),
{
    let t0 = Seq::<char>::empty();
    lemma_told(
        t0,
        "  bpf seen/output-lost: "@,
        output::total_text(telemetry.totals.bpf_events_seen),
    );
    assert(t0 + "  bpf seen/output-lost: "@ =~= "  bpf seen/output-lost: "@);
    let t0 = "  bpf seen/output-lost: "@;
    let t1 = t0 + output::total_text(telemetry.totals.bpf_events_seen);
    lemma_still_told(t0, output::total_text(telemetry.totals.bpf_events_seen));
    let t2 = t1 + "/"@;
    lemma_still_told(t1, "/"@);
    let t3 = t2 + output::total_text(telemetry.totals.bpf_output_lost);
    lemma_told(t1, "/"@, output::total_text(telemetry.totals.bpf_output_lost));
    lemma_still_told(t2, output::total_text(telemetry.totals.bpf_output_lost));
    let t4 = t3 + "  transport received/lost: "@;
    lemma_still_told(t3, "  transport received/lost: "@);
    let t5 = t4 + output::total_text(telemetry.totals.transport_events_received);
    lemma_told(
        t3,
        "  transport received/lost: "@,
        output::total_text(telemetry.totals.transport_events_received),
    );
    lemma_still_told(t4, output::total_text(telemetry.totals.transport_events_received));
    let t6 = t5 + "/"@;
    lemma_still_told(t5, "/"@);
    let t7 = t6 + output::total_text(telemetry.totals.transport_events_lost);
    lemma_told(t5, "/"@, output::total_text(telemetry.totals.transport_events_lost));
    lemma_still_told(t6, output::total_text(telemetry.totals.transport_events_lost));
    let t8 = t7 + "  user dropped: "@;
    lemma_still_told(t7, "  user dropped: "@);
    let t9 = t8 + output::total_text(telemetry.totals.user_events_dropped);
    lemma_told(t7, "  user dropped: "@, output::total_text(telemetry.totals.user_events_dropped));
    lemma_still_told(t8, output::total_text(telemetry.totals.user_events_dropped));
    let t10 = t9 + "  netlink loss events: "@;
    lemma_still_told(t9, "  netlink loss events: "@);
    let t11 = t10 + output::total_text(telemetry.totals.netlink_loss_events);
    lemma_told(
        t9,
        "  netlink loss events: "@,
        output::total_text(telemetry.totals.netlink_loss_events),
    );
    lemma_still_told(t10, output::total_text(telemetry.totals.netlink_loss_events));
    let t12 = t11 + "  interrupted dumps: "@;
    lemma_still_told(t11, "  interrupted dumps: "@);
    let t13 = t12 + output::total_text(telemetry.totals.netlink_dump_interruptions);
    lemma_told(
        t11,
        "  interrupted dumps: "@,
        output::total_text(telemetry.totals.netlink_dump_interruptions),
    );
    lemma_still_told(t12, output::total_text(telemetry.totals.netlink_dump_interruptions));
    let t14 = t13 + "  parse errors: "@;
    lemma_still_told(t13, "  parse errors: "@);
    let t15 = t14 + output::total_text(telemetry.totals.parse_errors);
    lemma_told(t13, "  parse errors: "@, output::total_text(telemetry.totals.parse_errors));
    lemma_still_told(t14, output::total_text(telemetry.totals.parse_errors));
    let t16 = t15 + "  sampling: "@;
    lemma_still_told(t15, "  sampling: "@);
    let t17 = t16 + output::sampling_text(telemetry.sampling);
    lemma_told(t15, "  sampling: "@, output::sampling_text(telemetry.sampling));
    lemma_still_told(t16, output::sampling_text(telemetry.sampling));
    let t18 = t17 + "\n"@;
    lemma_still_told(t17, "\n"@);
    assert(output::totals_text(telemetry) == t18);
}

/// What a provider counted is told each by its name.
pub proof fn provider_counts_are_told(provider: ProviderTelemetry)
    ensures
        tells(output::provider_telemetry_text(provider), "  provider "@, provider.provider@),
        tells(
            output::provider_telemetry_text(provider),
            "    bpf seen/output-lost: "@,
            output::status_text(provider.counters.bpf_events_seen),
        ),
        tells(
            output::provider_telemetry_text(provider),
            "/"@,
            output::status_text(provider.counters.bpf_output_lost),
        ),
        tells(
            output::provider_telemetry_text(provider),
            "  transport received/lost: "@,
            output::status_text(provider.counters.transport_events_received),
        ),
        tells(
            output::provider_telemetry_text(provider),
            "/"@,
            output::status_text(provider.counters.transport_events_lost),
        ),
        tells(
            output::provider_telemetry_text(provider),
            "  user dropped: "@,
            output::status_text(provider.counters.user_events_dropped),
        ),
        tells(
            output::provider_telemetry_text(provider),
            "\n    netlink loss/dumps: "@,
            output::status_text(provider.counters.netlink_loss_events),
        ),
        tells(
            output::provider_telemetry_text(provider),
            "/"@,
            output::status_text(provider.counters.netlink_dump_interruptions),
        ),
        tells(
            output::provider_telemetry_text(provider),
            "  parse errors: "@,
            output::status_text(provider.counters.parse_errors),
        ),
        tells(
            output::provider_telemetry_text(provider),
            "  sampling: "@,
            output::sampling_text(provider.sampling),
        ),
{
    let t0 = Seq::<char>::empty();
    lemma_told(t0, "  provider "@, provider.provider@);
    assert(t0 + "  provider "@ =~= "  provider "@);
    let t0 = "  provider "@;
    let t1 = t0 + provider.provider@;
    lemma_still_told(t0, provider.provider@);
    let t2 = t1 + "\n"@;
    lemma_still_told(t1, "\n"@);
    let t3 = t2 + "    bpf seen/output-lost: "@;
    lemma_still_told(t2, "    bpf seen/output-lost: "@);
    let t4 = t3 + output::status_text(provider.counters.bpf_events_seen);
    lemma_told(
        t2,
        "    bpf seen/output-lost: "@,
        output::status_text(provider.counters.bpf_events_seen),
    );
    lemma_still_told(t3, output::status_text(provider.counters.bpf_events_seen));
    let t5 = t4 + "/"@;
    lemma_still_told(t4, "/"@);
    let t6 = t5 + output::status_text(provider.counters.bpf_output_lost);
    lemma_told(t4, "/"@, output::status_text(provider.counters.bpf_output_lost));
    lemma_still_told(t5, output::status_text(provider.counters.bpf_output_lost));
    let t7 = t6 + "  transport received/lost: "@;
    lemma_still_told(t6, "  transport received/lost: "@);
    let t8 = t7 + output::status_text(provider.counters.transport_events_received);
    lemma_told(
        t6,
        "  transport received/lost: "@,
        output::status_text(provider.counters.transport_events_received),
    );
    lemma_still_told(t7, output::status_text(provider.counters.transport_events_received));
    let t9 = t8 + "/"@;
    lemma_still_told(t8, "/"@);
    let t10 = t9 + output::status_text(provider.counters.transport_events_lost);
    lemma_told(t8, "/"@, output::status_text(provider.counters.transport_events_lost));
    lemma_still_told(t9, output::status_text(provider.counters.transport_events_lost));
    let t11 = t10 + "  user dropped: "@;
    lemma_still_told(t10, "  user dropped: "@);
    let t12 = t11 + output::status_text(provider.counters.user_events_dropped);
    lemma_told(
        t10,
        "  user dropped: "@,
        output::status_text(provider.counters.user_events_dropped),
    );
    lemma_still_told(t11, output::status_text(provider.counters.user_events_dropped));
    let t13 = t12 + "\n    netlink loss/dumps: "@;
    lemma_still_told(t12, "\n    netlink loss/dumps: "@);
    let t14 = t13 + output::status_text(provider.counters.netlink_loss_events);
    lemma_told(
        t12,
        "\n    netlink loss/dumps: "@,
        output::status_text(provider.counters.netlink_loss_events),
    );
    lemma_still_told(t13, output::status_text(provider.counters.netlink_loss_events));
    let t15 = t14 + "/"@;
    lemma_still_told(t14, "/"@);
    let t16 = t15 + output::status_text(provider.counters.netlink_dump_interruptions);
    lemma_told(t14, "/"@, output::status_text(provider.counters.netlink_dump_interruptions));
    lemma_still_told(t15, output::status_text(provider.counters.netlink_dump_interruptions));
    let t17 = t16 + "  parse errors: "@;
    lemma_still_told(t16, "  parse errors: "@);
    let t18 = t17 + output::status_text(provider.counters.parse_errors);
    lemma_told(t16, "  parse errors: "@, output::status_text(provider.counters.parse_errors));
    lemma_still_told(t17, output::status_text(provider.counters.parse_errors));
    let t19 = t18 + "  sampling: "@;
    lemma_still_told(t18, "  sampling: "@);
    let t20 = t19 + output::sampling_text(provider.sampling);
    lemma_told(t18, "  sampling: "@, output::sampling_text(provider.sampling));
    lemma_still_told(t19, output::sampling_text(provider.sampling));
    let t21 = t20 + "\n"@;
    lemma_still_told(t20, "\n"@);
    assert(output::provider_telemetry_text(provider) == t21);
}

/// A system is told by its kernel, and by what can be traced in it and how.
pub proof fn systems_are_told(report: CapabilityReport)
    ensures
        tells(
            output::system_text(report),
            "Kernel: "@,
            output::text_or(report.kernel_release, "unknown"@),
        ),
        tells(output::system_text(report), "  BTF: "@, output::yes_or_no(report.has_kernel_btf)),
        tells(
            output::system_text(report),
            "kfree_skb: "@,
            output::yes_or_no(report.kfree_skb.available),
        ),
        tells(output::system_text(report), "  layout: "@, layout_of(report)),
        tells(
            output::system_text(report),
            "  reason: "@,
            output::yes_or_no(report.kfree_skb.has_drop_reason),
        ),
        tells(output::system_text(report), "  selected mode: "@, report.selected_bpf_mode.word()),
{
    let t0 = Seq::<char>::empty();
    lemma_told(t0, "Kernel: "@, output::text_or(report.kernel_release, "unknown"@));
    assert(t0 + "Kernel: "@ =~= "Kernel: "@);
    let t0 = "Kernel: "@;
    let t1 = t0 + output::text_or(report.kernel_release, "unknown"@);
    lemma_still_told(t0, output::text_or(report.kernel_release, "unknown"@));
    let t2 = t1 + "  BTF: "@;
    lemma_still_told(t1, "  BTF: "@);
    let t3 = t2 + output::yes_or_no(report.has_kernel_btf);
    lemma_told(t1, "  BTF: "@, output::yes_or_no(report.has_kernel_btf));
    lemma_still_told(t2, output::yes_or_no(report.has_kernel_btf));
    let t4 = t3 + "\n"@;
    lemma_still_told(t3, "\n"@);
    let t5 = t4 + "kfree_skb: "@;
    lemma_still_told(t4, "kfree_skb: "@);
    let t6 = t5 + output::yes_or_no(report.kfree_skb.available);
    lemma_told(t4, "kfree_skb: "@, output::yes_or_no(report.kfree_skb.available));
    lemma_still_told(t5, output::yes_or_no(report.kfree_skb.available));
    let t7 = t6 + "  layout: "@;
    lemma_still_told(t6, "  layout: "@);
    let t8 = t7 + layout_of(report);
    lemma_told(t6, "  layout: "@, layout_of(report));
    lemma_still_told(t7, layout_of(report));
    let t9 = t8 + "  reason: "@;
    lemma_still_told(t8, "  reason: "@);
    let t10 = t9 + output::yes_or_no(report.kfree_skb.has_drop_reason);
    lemma_told(t8, "  reason: "@, output::yes_or_no(report.kfree_skb.has_drop_reason));
    lemma_still_told(t9, output::yes_or_no(report.kfree_skb.has_drop_reason));
    let t11 = t10 + "  selected mode: "@;
    lemma_still_told(t10, "  selected mode: "@);
    let t12 = t11 + report.selected_bpf_mode.word();
    lemma_told(t10, "  selected mode: "@, report.selected_bpf_mode.word());
    lemma_still_told(t11, report.selected_bpf_mode.word());
    let t13 = t12 + "\n"@;
    lemma_still_told(t12, "\n"@);
    let t14 = t13 + "\nProviders\n"@;
    lemma_still_told(t13, "\nProviders\n"@);
    assert(output::system_text(report) == t14);
}

/// What is known of the system comes before its coverage; the first record that is not valid
/// is the one that is told.
pub proof fn capabilities_hold_their_parts(
    report: CapabilityReport,
    checked: Seq<Result<(),
    String>>,
)
    ensures
        holds(
            output::doctor_text(report),
            output::doctor_upto(report, report.providers@.len() as int),
        ),
        holds(output::doctor_text(report), output::coverage_text(report)),
        report.stage_coverage@.len() == 0 ==> holds(
            output::coverage_text(report),
            "  No provider-stage coverage declared.\n"@,
        ),
        report.stage_coverage@.len() > 0 ==> holds(
            output::coverage_text(report),
            output::stages_upto(report.stage_coverage@, report.stage_coverage@.len() as int),
        ),
        holds(
            output::coverage_text(report),
            output::layers_upto(report.coverage@, report.coverage@.len() as int),
        ),
        match output::first_invalid(checked, checked.len() as int) {
            Some(i) => 0 <= i < checked.len() && checked[i] is Err && forall|j: int|
                0 <= j < i ==> #[trigger] checked[j] is Ok,
            None => forall|j: int| 0 <= j < checked.len() ==> #[trigger] checked[j] is Ok,
        },
{
    let first = output::doctor_upto(report, report.providers@.len() as int);
    let second = output::coverage_text(report);
    let layers = output::layers_upto(report.coverage@, report.coverage@.len() as int);
    let none = "  No provider-stage coverage declared.\n"@;
    let heading = "\nProvider-stage coverage\n"@;
    let stages = output::stages_upto(report.stage_coverage@, report.stage_coverage@.len() as int);
    let rest = if report.stage_coverage@.len() == 0 {
        heading + none
    } else {
        stages
    };
    lemma_held(first, second, Seq::empty());
    lemma_held(Seq::empty(), first, second);
    assert(Seq::<char>::empty() + first =~= first);
    lemma_held(Seq::empty(), layers, rest);
    assert(Seq::<char>::empty() + layers =~= layers);
    lemma_held(layers, stages, Seq::empty());
    lemma_held(heading, none, Seq::empty());
    lemma_still_held(heading + none, layers, none);
    let wrong = |outcome: Result<(), String>| outcome is Err;
    seqs::lemma_first_where(checked, wrong, checked.len() as int);
    match output::first_invalid(checked, checked.len() as int) {
        Some(i) => {
            assert forall|j: int| 0 <= j < i implies #[trigger] checked[j] is Ok by {
                assert(!wrong(checked[j]));
            }
        },
        None => {
            assert forall|j: int| 0 <= j < checked.len() implies #[trigger] checked[j] is Ok by {
                assert(!wrong(checked[j]));
            }
        },
    }
}

} // verus!
