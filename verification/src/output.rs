//! Reports as text for a terminal.
use crate::evidence;
use crate::evidence::{
    Attributes, AttributesModel, AttributeValue, BoundedTotal, CounterStatus, Direction,
    EvidenceContext, EvidenceDescriptor, EvidenceForm, EvidenceMeta, EvidenceRole, Layer,
    MeasurementBound, MeasurementUnit, MetricDelta, Observation, Outcome, PathRole,
    ProviderTelemetry, SamplingComponent, SamplingTelemetry,
    Subject, SubjectKind, SubjectRef, SubjectRole, Telemetry, TotalBound,
};
use crate::kinds;
use crate::kinds::comes_first;
use crate::normalize::{ATTR_SKB_REASON_CODE, ATTR_SKB_REASON_NAME};
use crate::provider::ProviderFilterSupport;
use crate::report::{
    CapabilityReport, EffectiveInterfaceScope, EffectiveNetworkNamespace, EffectiveScope, Finding,
    FlowFilter, InterfaceAnchor, InterfacePath, LayerCoverage, ProviderScope, Report,
    StageCoverage, TraceRecord,
};
use crate::seqs;
use crate::text;
use crate::text::{comes_before, decimal_text, owned, push_decimal, same_option, same_text};
use vstd::prelude::*;
use vstd::string::*;

verus! {

pub const ATTR_HOP_ORDINAL: &'static str = "linux.path.hop_ordinal";

/// `n` spaces.
pub open spec fn spaces(n: nat) -> Seq<char> {
    Seq::new(n, |i: int| ' ')
}

/// A text filled up with spaces to a width; one that is longer stays as it is.
pub open spec fn padded(text: Seq<char>, width: nat) -> Seq<char> {
    if text.len() < width {
        text + spaces((width - text.len()) as nat)
    } else {
        text
    }
}

fn pad(text: &str, width: usize) -> (result: String)
    ensures
        result@ == padded(text@, width as nat),
{
    let mut result = owned(text);
    let length: usize = text::chars_of(text).len();
    let mut filled: usize = length;
    assert(text@ + spaces(0) =~= text@);
    while filled < width
        invariant
            length <= filled,
            filled <= width || filled == length,
            length == text@.len(),
            result@ == text@ + spaces((filled - length) as nat),
        decreases width - filled,
    {
        result.push(' ');
        filled += 1;
        assert(result@ =~= text@ + spaces((filled - length) as nat));
    }
    assert(text@ + spaces(0) =~= text@);
    result
}

/// The first `n` columns of a row.
pub open spec fn columns_upto(cells: Seq<Seq<char>>, widths: Seq<usize>, n: int) -> Seq<char>
    decreases n,
{
    if n <= 0 {
        "  "@
    } else {
        columns_upto(cells, widths, n - 1) + padded(cells[n - 1], widths[n - 1] as nat) + " "@
    }
}

/// A row: columns of given widths, and a last column that is as wide as it is.
pub open spec fn row_text(cells: Seq<Seq<char>>, widths: Seq<usize>) -> Seq<char> {
    columns_upto(cells, widths, widths.len() as int) + cells[widths.len() as int] + "\n"@
}

fn format_row(cells: &Vec<String>, widths: &Vec<usize>) -> (row: String)
    requires
        cells@.len() == widths@.len() + 1,
    ensures
        row@ == row_text(cells.deep_view(), widths@),
{
    let ghost all = cells.deep_view();
    let mut row = owned("  ");
    for i in 0..widths.len()
        invariant
            cells@.len() == widths@.len() + 1,
            all == cells.deep_view(),
            row@ == columns_upto(all, widths@, i as int),
    {
        assert(all[i as int] == cells@[i as int]@);
        let cell = pad(cells[i].as_str(), widths[i]);
        row.append(cell.as_str());
        row.append(" ");
    }
    assert(all[widths@.len() as int] == cells@[widths@.len() as int]@);
    row.append(cells[widths.len()].as_str());
    row.append("\n");
    row
}

/// The first `n` texts, with a separator between them.
pub open spec fn joined_upto(texts: Seq<Seq<char>>, separator: Seq<char>, n: int) -> Seq<char>
    decreases n,
{
    if n <= 0 {
        Seq::empty()
    } else if n == 1 {
        texts[0]
    } else {
        joined_upto(texts, separator, n - 1) + separator + texts[n - 1]
    }
}

/// Texts with a separator between them.
pub open spec fn joined(texts: Seq<Seq<char>>, separator: Seq<char>) -> Seq<char> {
    joined_upto(texts, separator, texts.len() as int)
}

fn join(texts: &Vec<String>, separator: &str) -> (result: String)
    ensures
        result@ == joined(texts.deep_view(), separator@),
{
    let ghost all = texts.deep_view();
    assert(all.len() == texts@.len());
    let mut result = String::new();
    assert(result@ =~= Seq::<char>::empty());
    for i in 0..texts.len()
        invariant
            all == texts.deep_view(),
            all.len() == texts@.len(),
            result@ == joined_upto(all, separator@, i as int),
    {
        assert(all[i as int] == texts@[i as int]@);
        if i > 0 {
            result.append(separator);
        }
        result.append(texts[i].as_str());
        if i == 0 {
            assert(Seq::<char>::empty() + all[0] =~= all[0]);
        }
    }
    result
}

pub open spec fn layer_words(layers: Seq<Layer>) -> Seq<Seq<char>> {
    Seq::new(layers.len(), |i: int| layers[i].word())
}

fn join_layers(layers: &Vec<Layer>) -> (result: String)
    ensures
        result@ == joined(layer_words(layers@), ","@),
{
    let mut words: Vec<String> = Vec::new();
    for i in 0..layers.len()
        invariant
            words@.len() == i,
            forall|j: int| 0 <= j < i ==> (#[trigger] words@[j])@ == layers@[j].word(),
    {
        words.push(owned(layers[i].as_str()));
    }
    assert(words.deep_view() =~= layer_words(layers@));
    join(&words, ",")
}

pub open spec fn form_words(forms: Seq<EvidenceForm>) -> Seq<Seq<char>> {
    Seq::new(forms.len(), |i: int| forms[i].word())
}

fn join_forms(forms: &Vec<EvidenceForm>) -> (result: String)
    ensures
        result@ == joined(form_words(forms@), ","@),
{
    let mut words: Vec<String> = Vec::new();
    for i in 0..forms.len()
        invariant
            words@.len() == i,
            forall|j: int| 0 <= j < i ==> (#[trigger] words@[j])@ == forms@[j].word(),
    {
        words.push(owned(forms[i].as_str()));
    }
    assert(words.deep_view() =~= form_words(forms@));
    join(&words, ",")
}

pub open spec fn number_words(numbers: Seq<u32>) -> Seq<Seq<char>> {
    Seq::new(numbers.len(), |i: int| text::decimal(numbers[i] as nat))
}

fn join_numbers(numbers: &Vec<u32>) -> (result: String)
    ensures
        result@ == joined(number_words(numbers@), ","@),
{
    let mut words: Vec<String> = Vec::new();
    for i in 0..numbers.len()
        invariant
            words@.len() == i,
            forall|j: int|
                0 <= j < i ==> (#[trigger] words@[j])@ == text::decimal(numbers@[j] as nat),
    {
        words.push(decimal_text(numbers[i] as u128));
    }
    assert(words.deep_view() =~= number_words(numbers@));
    join(&words, ",")
}

pub open spec fn yes_or_no(value: bool) -> Seq<char> {
    if value {
        "yes"@
    } else {
        "no"@
    }
}

fn yes_no(value: bool) -> (word: &'static str)
    ensures
        word@ == yes_or_no(value),
{
    if value {
        "yes"
    } else {
        "no"
    }
}

pub open spec fn layer_word(layer: Option<Layer>) -> Seq<char> {
    match layer {
        Some(layer) => layer.word(),
        None => "unclassified"@,
    }
}

fn layer_name(layer: Option<Layer>) -> (word: &'static str)
    ensures
        word@ == layer_word(layer),
{
    match layer {
        Some(layer) => layer.as_str(),
        None => "unclassified",
    }
}

pub open spec fn short_direction(direction: Option<Direction>) -> Seq<char> {
    match direction {
        Some(Direction::Ingress) => "RX"@,
        Some(Direction::Egress) => "TX"@,
        None => "--"@,
    }
}

fn table_direction(direction: Option<Direction>) -> (word: &'static str)
    ensures
        word@ == short_direction(direction),
{
    match direction {
        Some(Direction::Ingress) => "RX",
        Some(Direction::Egress) => "TX",
        None => "--",
    }
}

pub open spec fn any_direction(direction: Option<Direction>) -> Seq<char> {
    match direction {
        Some(direction) => direction.word(),
        None => "any"@,
    }
}

fn direction_or_any(direction: Option<Direction>) -> (word: &'static str)
    ensures
        word@ == any_direction(direction),
{
    match direction {
        Some(direction) => direction.as_str(),
        None => "any",
    }
}

pub open spec fn text_or(text: Option<String>, other: Seq<char>) -> Seq<char> {
    match text {
        Some(text) => text@,
        None => other,
    }
}

fn or_else<'a>(text: &'a Option<String>, other: &'a str) -> (result: &'a str)
    ensures
        result@ == text_or(*text, other@),
{
    match text {
        Some(text) => text.as_str(),
        None => other,
    }
}

/// What became of a packet, or else what was reported.
pub open spec fn outcome_word(outcome: Outcome) -> Seq<char> {
    match (outcome.disposition, outcome.signal) {
        (Some(disposition), _) => disposition.word(),
        (None, Some(signal)) => signal.word(),
        (None, None) => "unknown"@,
    }
}

fn trace_outcome(outcome: Outcome) -> (word: &'static str)
    ensures
        word@ == outcome_word(outcome),
{
    match (outcome.disposition, outcome.signal) {
        (Some(disposition), _) => disposition.as_str(),
        (None, Some(signal)) => signal.as_str(),
        (None, None) => "unknown",
    }
}

/// The reason that attributes give: by name, else by number.
pub open spec fn reason_of(attributes: AttributesModel) -> Option<Seq<char>> {
    match evidence::attribute(attributes, ATTR_SKB_REASON_NAME@) {
        Some(AttributeValue::Text(name)) => Some(name),
        _ => match evidence::attribute(attributes, ATTR_SKB_REASON_CODE@) {
            Some(AttributeValue::Unsigned(code)) => Some("raw:"@ + text::decimal(code as nat)),
            _ => None,
        },
    }
}

fn find_reason(attributes: &Attributes) -> (reason: Option<String>)
    ensures
        reason_of(attributes.deep_view()) == text::optional_text(reason),
{
    if let Some(name) = attributes.text(ATTR_SKB_REASON_NAME) {
        return Some(owned(name.as_str()));
    }
    match attributes.number(ATTR_SKB_REASON_CODE) {
        Some(code) => {
            let mut reason = owned("raw:");
            push_decimal(&mut reason, code as u128);
            Some(reason)
        },
        None => None,
    }
}

/// The reason of an event of a trace.
pub open spec fn trace_reason_of(attributes: AttributesModel) -> Seq<char> {
    match reason_of(attributes) {
        Some(reason) => reason,
        None => "-"@,
    }
}

fn trace_reason(attributes: &Attributes) -> (reason: String)
    ensures
        reason@ == trace_reason_of(attributes.deep_view()),
{
    match find_reason(attributes) {
        Some(reason) => reason,
        None => owned("-"),
    }
}

pub open spec fn trace_widths() -> Seq<usize> {
    seq![4usize, 4usize, 24usize, 16usize, 24usize, 13usize]
}

/// The row of one event of a trace.
pub open spec fn trace_cells(record: TraceRecord) -> Seq<Seq<char>> {
    seq![
        text::decimal(record.sequence as nat),
        short_direction(record.descriptor.direction),
        text_or(record.descriptor.stage, "unclassified"@),
        layer_word(record.layer),
        record.event_type@,
        outcome_word(record.descriptor.outcome),
        trace_reason_of(record.attributes.deep_view()),
    ]
}

pub open spec fn trace_header() -> Seq<Seq<char>> {
    seq!["SEQ"@, "DIR"@, "STAGE"@, "LAYER"@, "EVENT"@, "OUTCOME"@, "REASON"@]
}

/// The first `n` events of a trace as a table.
pub open spec fn trace_upto(records: Seq<TraceRecord>, n: int) -> Seq<char>
    decreases n,
{
    if n <= 0 {
        "Events\n"@ + row_text(trace_header(), trace_widths())
    } else {
        trace_upto(records, n - 1) + row_text(trace_cells(records[n - 1]), trace_widths())
    }
}

fn cells_of(words: &Vec<&str>) -> (cells: Vec<String>)
    ensures
        cells.deep_view() == words.deep_view(),
        cells@.len() == words@.len(),
{
    let ghost all = words.deep_view();
    let mut cells: Vec<String> = Vec::new();
    for i in 0..words.len()
        invariant
            all == words.deep_view(),
            cells@.len() == i,
            forall|j: int| 0 <= j < i ==> (#[trigger] cells@[j])@ == all[j],
    {
        assert(all[i as int] == words@[i as int]@);
        cells.push(owned(words[i]));
    }
    assert(cells.deep_view() =~= all);
    cells
}

fn format_trace(records: &Vec<TraceRecord>) -> (table: String)
    ensures
        table@ == trace_upto(records@, records@.len() as int),
{
    let widths: Vec<usize> = vec![4, 4, 24, 16, 24, 13];
    assert(widths@ =~= trace_widths());
    let words: Vec<&str> = vec!["SEQ", "DIR", "STAGE", "LAYER", "EVENT", "OUTCOME", "REASON"];
    assert(words.deep_view() =~= trace_header());
    let header = format_row(&cells_of(&words), &widths);
    let mut table = owned("Events\n");
    table.append(header.as_str());
    for i in 0..records.len()
        invariant
            widths@ == trace_widths(),
            table@ == trace_upto(records@, i as int),
    {
        let record = &records[i];
        let mut cells: Vec<String> = Vec::new();
        cells.push(decimal_text(record.sequence as u128));
        cells.push(owned(table_direction(record.descriptor.direction)));
        cells.push(owned(or_else(&record.descriptor.stage, "unclassified")));
        cells.push(owned(layer_name(record.layer)));
        cells.push(owned(record.event_type.as_str()));
        cells.push(owned(trace_outcome(record.descriptor.outcome)));
        cells.push(trace_reason(&record.attributes));
        assert(cells.deep_view() =~= trace_cells(*record));
        let row = format_row(&cells, &widths);
        table.append(row.as_str());
    }
    table
}

fn refuse(place: &str, why: &str) -> (words: String)
    ensures
        words@ == place@ + why@,
{
    let mut words = owned(place);
    words.append(why);
    words
}

/// The first value that is not valid, among the first `n`.
pub open spec fn first_invalid(checked: Seq<Result<(), String>>, n: int) -> Option<int> {
    seqs::first_where(checked, |outcome: Result<(), String>| outcome is Err, n)
}

fn find_invalid(checked: &Vec<Result<(), String>>) -> (found: Option<usize>)
    ensures
        first_invalid(checked@, checked@.len() as int) == match found {
            Some(i) => Some(i as int),
            None => None,
        },
        found matches Some(i) ==> i < checked@.len() && checked@[i as int] is Err,
        found is None <==> forall|i: int| 0 <= i < checked@.len() ==> #[trigger] checked@[i] is Ok,
{
    let ghost wanted = |outcome: Result<(), String>| outcome is Err;
    for i in 0..checked.len()
        invariant
            wanted == (|outcome: Result<(), String>| outcome is Err),
            seqs::first_where(checked@, wanted, i as int) is None,
            forall|j: int| 0 <= j < i ==> #[trigger] checked@[j] is Ok,
    {
        if checked[i].is_err() {
            proof {
                seqs::lemma_first_where_stays(checked@, wanted, i + 1, checked@.len() as int);
            }
            return Some(i);
        }
    }
    None
}

/// A trace as a table. Where a record is not valid, the first such record is told and
/// there is no table; `checked` holds what validating each record gave.
pub fn trace_table(records: &Vec<TraceRecord>, checked: &Vec<Result<(), String>>) -> (table: Result<
    String,
    String,
>)
    requires
        checked@.len() == records@.len(),
    ensures
        table is Ok <==> forall|i: int| 0 <= i < checked@.len() ==> #[trigger] checked@[i] is Ok,
        match first_invalid(checked@, checked@.len() as int) {
            None => table matches Ok(text) && text@ == trace_upto(
                records@,
                records@.len() as int,
            ),
            Some(i) => table matches Err(words) && words@
                == "validate trace record before table output: "@ + checked@[i]->Err_0@,
        },
{
    if let Some(i) = find_invalid(checked) {
        if let Err(why) = &checked[i] {
            return Err(refuse("validate trace record before table output: ", why.as_str()));
        }
    }
    Ok(format_trace(records))
}

/// How many records of a trace are written as lines, and what is told after them: the
/// records before the first that is not valid.
pub fn trace_lines(checked: &Vec<Result<(), String>>) -> (lines: (usize, Result<(), String>))
    ensures
        lines.1 is Ok <==> forall|i: int| 0 <= i < checked@.len() ==> #[trigger] checked@[i] is Ok,
        match first_invalid(checked@, checked@.len() as int) {
            None => lines.0 == checked@.len() && lines.1 is Ok,
            Some(i) => lines.0 == i && (lines.1 matches Err(words) && words@
                == "validate trace record before JSONL output: "@ + checked@[i]->Err_0@),
        },
{
    if let Some(i) = find_invalid(checked) {
        if let Err(why) = &checked[i] {
            return (i, Err(refuse("validate trace record before JSONL output: ", why.as_str())));
        }
    }
    (checked.len(), Ok(()))
}

/// A record that is not valid is never passed over, wherever it stands: no record from
/// there on is written, and what is told is about the first such record.
pub proof fn invalid_records_are_refused(checked: Seq<Result<(), String>>, at: int)
    requires
        0 <= at < checked.len(),
        checked[at] is Err,
    ensures
        first_invalid(checked, checked.len() as int) matches Some(i) && 0 <= i <= at
            && checked[i] is Err && forall|j: int| 0 <= j < i ==> #[trigger] checked[j] is Ok,
{
    let invalid = |outcome: Result<(), String>| outcome is Err;
    seqs::lemma_first_where(checked, invalid, checked.len() as int);
    assert(invalid(checked[at]));
    let i = first_invalid(checked, checked.len() as int)->0;
    assert forall|j: int| 0 <= j < i implies #[trigger] checked[j] is Ok by {
        assert(!invalid(checked[j]));
    }
}

/// Whether a capability report may be written as JSON.
pub fn allow_doctor_json(checked: Result<(), String>) -> (result: Result<(), String>)
    ensures
        match (checked, result) {
            (Ok(()), Ok(())) => true,
            (Err(why), Err(words)) => words@
                == "validate capability report before JSON output: "@ + why@,
            _ => false,
        },
{
    match checked {
        Ok(()) => Ok(()),
        Err(why) => Err(refuse("validate capability report before JSON output: ", why.as_str())),
    }
}

/// Whether a report may be written as JSON.
pub fn allow_report_json(checked: Result<(), String>) -> (result: Result<(), String>)
    ensures
        match (checked, result) {
            (Ok(()), Ok(())) => true,
            (Err(why), Err(words)) => words@ == "validate report before JSON output: "@ + why@,
            _ => false,
        },
{
    match checked {
        Ok(()) => Ok(()),
        Err(why) => Err(refuse("validate report before JSON output: ", why.as_str())),
    }
}

/// A text, or a dash where there is none.
pub open spec fn or_dash(text: Seq<char>) -> Seq<char> {
    if text.len() == 0 {
        "-"@
    } else {
        text
    }
}

fn dash_if_empty(text: String) -> (result: String)
    ensures
        result@ == or_dash(text@),
{
    if text::chars_of(text.as_str()).len() == 0 {
        owned("-")
    } else {
        text
    }
}

/// Notes under a row: the first `n` limitations, each in a line that is indented.
pub open spec fn notes_upto(limitations: Seq<String>, indent: Seq<char>, n: int) -> Seq<char>
    decreases n,
{
    if n <= 0 {
        Seq::empty()
    } else {
        notes_upto(limitations, indent, n - 1) + (indent + limitations[n - 1]@ + "\n"@)
    }
}

fn format_notes(limitations: &Vec<String>, indent: &str) -> (notes: String)
    ensures
        notes@ == notes_upto(limitations@, indent@, limitations@.len() as int),
{
    let mut notes = String::new();
    assert(notes@ =~= Seq::<char>::empty());
    for i in 0..limitations.len()
        invariant
            notes@ == notes_upto(limitations@, indent@, i as int),
    {
        let mut line = owned(indent);
        line.append(limitations[i].as_str());
        line.append("\n");
        notes.append(line.as_str());
    }
    notes
}

pub open spec fn coverage_widths() -> Seq<usize> {
    seq![16usize, 11usize, 11usize, 14usize, 13usize, 18usize]
}

/// The row of one layer.
pub open spec fn coverage_cells(coverage: LayerCoverage) -> Seq<Seq<char>> {
    seq![
        coverage.layer.word(),
        coverage.availability.word(),
        coverage.visibility.word(),
        coverage.filter_support.word(),
        coverage.integrity.word(),
        if coverage.forms@.len() == 0 {
            "-"@
        } else {
            joined(form_words(coverage.forms@), ","@)
        },
        if coverage.sources@.len() == 0 {
            "-"@
        } else {
            joined(coverage.sources.deep_view(), ","@)
        },
    ]
}

pub open spec fn layer_note() -> Seq<char> {
    "  "@ + padded(""@, 16) + "             note: "@
}

pub open spec fn stage_note() -> Seq<char> {
    "  "@ + padded(""@, 32) + " note: "@
}

/// The first `n` layers of a coverage.
pub open spec fn layers_upto(coverage: Seq<LayerCoverage>, n: int) -> Seq<char>
    decreases n,
{
    if n <= 0 {
        "\nCoverage\n"@
    } else {
        layers_upto(coverage, n - 1) + row_text(
            coverage_cells(coverage[n - 1]),
            coverage_widths(),
        ) + notes_upto(
            coverage[n - 1].limitations@,
            layer_note(),
            coverage[n - 1].limitations@.len() as int,
        )
    }
}

fn format_layers(coverage: &Vec<LayerCoverage>) -> (table: String)
    ensures
        table@ == layers_upto(coverage@, coverage@.len() as int),
{
    let widths: Vec<usize> = vec![16, 11, 11, 14, 13, 18];
    assert(widths@ =~= coverage_widths());
    let mut note = owned("  ");
    let indent = pad("", 16);
    note.append(indent.as_str());
    note.append("             note: ");
    let mut table = owned("\nCoverage\n");
    for i in 0..coverage.len()
        invariant
            widths@ == coverage_widths(),
            note@ == layer_note(),
            table@ == layers_upto(coverage@, i as int),
    {
        let row = &coverage[i];
        let mut cells: Vec<String> = Vec::new();
        cells.push(owned(row.layer.as_str()));
        cells.push(owned(row.availability.as_str()));
        cells.push(owned(row.visibility.as_str()));
        cells.push(owned(row.filter_support.as_str()));
        cells.push(owned(row.integrity.as_str()));
        cells.push(
            if row.forms.len() == 0 {
                owned("-")
            } else {
                join_forms(&row.forms)
            },
        );
        cells.push(
            if row.sources.len() == 0 {
                owned("-")
            } else {
                join(&row.sources, ",")
            },
        );
        assert(cells.deep_view() =~= coverage_cells(*row));
        let line = format_row(&cells, &widths);
        let notes = format_notes(&row.limitations, note.as_str());
        table.append(line.as_str());
        table.append(notes.as_str());
    }
    table
}

pub open spec fn stage_widths() -> Seq<usize> {
    seq![32usize, 28usize, 16usize, 20usize, 11usize, 11usize, 18usize, 14usize]
}

pub open spec fn stage_header() -> Seq<Seq<char>> {
    seq![
        "PROVIDER"@,
        "STAGE"@,
        "LAYER"@,
        "DOMAIN"@,
        "STATE"@,
        "VISIBILITY"@,
        "FORMS"@,
        "FILTER"@,
        "INTEGRITY"@,
    ]
}

/// The row of one stage.
pub open spec fn stage_cells(coverage: StageCoverage) -> Seq<Seq<char>> {
    seq![
        coverage.provider@,
        coverage.stage@,
        coverage.layer.word(),
        text_or(coverage.execution_domain, "-"@),
        coverage.availability.word(),
        coverage.visibility.word(),
        or_dash(joined(form_words(coverage.forms@), ","@)),
        coverage.filter_support.word(),
        coverage.integrity.word(),
    ]
}

/// The first `n` stages of a coverage.
pub open spec fn stages_upto(coverage: Seq<StageCoverage>, n: int) -> Seq<char>
    decreases n,
{
    if n <= 0 {
        "\nProvider-stage coverage\n"@ + row_text(stage_header(), stage_widths())
    } else {
        stages_upto(coverage, n - 1) + row_text(stage_cells(coverage[n - 1]), stage_widths())
            + notes_upto(
            coverage[n - 1].limitations@,
            stage_note(),
            coverage[n - 1].limitations@.len() as int,
        )
    }
}

fn format_stages(coverage: &Vec<StageCoverage>) -> (table: String)
    ensures
        table@ == stages_upto(coverage@, coverage@.len() as int),
{
    let widths: Vec<usize> = vec![32, 28, 16, 20, 11, 11, 18, 14];
    assert(widths@ =~= stage_widths());
    let words: Vec<&str> = vec![
        "PROVIDER",
        "STAGE",
        "LAYER",
        "DOMAIN",
        "STATE",
        "VISIBILITY",
        "FORMS",
        "FILTER",
        "INTEGRITY",
    ];
    assert(words.deep_view() =~= stage_header());
    let header = format_row(&cells_of(&words), &widths);
    let mut note = owned("  ");
    let indent = pad("", 32);
    note.append(indent.as_str());
    note.append(" note: ");
    let mut table = owned("\nProvider-stage coverage\n");
    table.append(header.as_str());
    for i in 0..coverage.len()
        invariant
            widths@ == stage_widths(),
            note@ == stage_note(),
            table@ == stages_upto(coverage@, i as int),
    {
        let row = &coverage[i];
        let mut cells: Vec<String> = Vec::new();
        cells.push(owned(row.provider.as_str()));
        cells.push(owned(row.stage.as_str()));
        cells.push(owned(row.layer.as_str()));
        cells.push(owned(or_else(&row.execution_domain, "-")));
        cells.push(owned(row.availability.as_str()));
        cells.push(owned(row.visibility.as_str()));
        cells.push(dash_if_empty(join_forms(&row.forms)));
        cells.push(owned(row.filter_support.as_str()));
        cells.push(owned(row.integrity.as_str()));
        assert(cells.deep_view() =~= stage_cells(*row));
        let line = format_row(&cells, &widths);
        let notes = format_notes(&row.limitations, note.as_str());
        table.append(line.as_str());
        table.append(notes.as_str());
    }
    table
}

/// What is covered, by layer and by stage.
pub open spec fn coverage_text(report: CapabilityReport) -> Seq<char> {
    layers_upto(report.coverage@, report.coverage@.len() as int) + if report.stage_coverage@.len()
        == 0 {
        "\nProvider-stage coverage\n"@ + "  No provider-stage coverage declared.\n"@
    } else {
        stages_upto(report.stage_coverage@, report.stage_coverage@.len() as int)
    }
}

fn write_coverage(report: &CapabilityReport) -> (result: String)
    ensures
        result@ == coverage_text(*report),
{
    let mut result = format_layers(&report.coverage);
    let stages = if report.stage_coverage.len() == 0 {
        let mut none = owned("\nProvider-stage coverage\n");
        none.append("  No provider-stage coverage declared.\n");
        none
    } else {
        format_stages(&report.stage_coverage)
    };
    result.append(stages.as_str());
    result
}

pub open spec fn provider_widths() -> Seq<usize> {
    seq![28usize, 11usize]
}

/// What the system offers, in two lines.
pub open spec fn system_text(report: CapabilityReport) -> Seq<char> {
    "Kernel: "@ + text_or(report.kernel_release, "unknown"@) + "  BTF: "@ + yes_or_no(
        report.has_kernel_btf,
    ) + "\n"@ + "kfree_skb: "@ + yes_or_no(report.kfree_skb.available) + "  layout: "@ + (
    match report.kfree_skb.layout {
        Some(layout) => layout.word(),
        None => "unavailable"@,
    }) + "  reason: "@ + yes_or_no(report.kfree_skb.has_drop_reason) + "  selected mode: "@
        + report.selected_bpf_mode.word() + "\n"@ + "\nProviders\n"@
}

/// The first `n` providers of a capability report.
pub open spec fn doctor_upto(report: CapabilityReport, n: int) -> Seq<char>
    decreases n,
{
    if n <= 0 {
        system_text(report)
    } else {
        doctor_upto(report, n - 1) + row_text(
            seq![
                report.providers@[n - 1].name@,
                report.providers@[n - 1].state.word(),
                report.providers@[n - 1].detail@,
            ],
            provider_widths(),
        )
    }
}

/// A capability report as text.
pub open spec fn doctor_text(report: CapabilityReport) -> Seq<char> {
    doctor_upto(report, report.providers@.len() as int) + coverage_text(report)
}

/// A capability report as text. A report that is not valid is refused; `checked` is what
/// validating it gave.
pub fn doctor_table(report: &CapabilityReport, checked: Result<(), String>) -> (table: Result<
    String,
    String,
>)
    ensures
        match (checked, table) {
            (Ok(()), Ok(text)) => text@ == doctor_text(*report),
            (Err(why), Err(words)) => words@
                == "validate capability report before table output: "@ + why@,
            _ => false,
        },
{
    match checked {
        Ok(()) => Ok(format_doctor(report)),
        Err(why) => Err(refuse("validate capability report before table output: ", why.as_str())),
    }
}

fn format_doctor(report: &CapabilityReport) -> (table: String)
    ensures
        table@ == doctor_text(*report),
{
    let widths: Vec<usize> = vec![28, 11];
    assert(widths@ =~= provider_widths());
    let mut table = owned("Kernel: ");
    table.append(or_else(&report.kernel_release, "unknown"));
    table.append("  BTF: ");
    table.append(yes_no(report.has_kernel_btf));
    table.append("\n");
    table.append("kfree_skb: ");
    table.append(yes_no(report.kfree_skb.available));
    table.append("  layout: ");
    table.append(
        match report.kfree_skb.layout {
            Some(layout) => layout.as_str(),
            None => "unavailable",
        },
    );
    table.append("  reason: ");
    table.append(yes_no(report.kfree_skb.has_drop_reason));
    table.append("  selected mode: ");
    table.append(report.selected_bpf_mode.as_str());
    table.append("\n");
    table.append("\nProviders\n");
    for i in 0..report.providers.len()
        invariant
            widths@ == provider_widths(),
            table@ == doctor_upto(*report, i as int),
    {
        let provider = &report.providers[i];
        let mut cells: Vec<String> = Vec::new();
        cells.push(owned(provider.name.as_str()));
        cells.push(owned(provider.state.as_str()));
        cells.push(owned(provider.detail.as_str()));
        assert(cells.deep_view() =~= seq![
            provider.name@,
            provider.state.word(),
            provider.detail@,
        ]);
        let row = format_row(&cells, &widths);
        table.append(row.as_str());
    }
    let coverage = write_coverage(report);
    table.append(coverage.as_str());
    table
}

/// A count with how it relates to what happened.
pub open spec fn measured(value: u64, bound: Option<MeasurementBound>) -> Seq<char> {
    let number = text::decimal(value as nat);
    match bound {
        Some(MeasurementBound::Exact) => "+"@ + number + " (exact)"@,
        Some(MeasurementBound::LowerBound) => ">="@ + number + " (lower_bound)"@,
        Some(MeasurementBound::Estimate) => "~"@ + number + " (estimate)"@,
        None => "+"@ + number,
    }
}

fn measurement_value(value: u64, bound: Option<MeasurementBound>) -> (result: String)
    ensures
        result@ == measured(value, bound),
{
    let mut result = owned(
        match bound {
            Some(MeasurementBound::LowerBound) => ">=",
            Some(MeasurementBound::Estimate) => "~",
            Some(MeasurementBound::Exact) | None => "+",
        },
    );
    push_decimal(&mut result, value as u128);
    match bound {
        Some(MeasurementBound::Exact) => result.append(" (exact)"),
        Some(MeasurementBound::LowerBound) => result.append(" (lower_bound)"),
        Some(MeasurementBound::Estimate) => result.append(" (estimate)"),
        None => {},
    }
    result
}

pub open spec fn status_text(status: CounterStatus) -> Seq<char> {
    match status {
        CounterStatus::Measured { value } => text::decimal(value as nat),
        CounterStatus::NotApplicable => "n/a"@,
        CounterStatus::Unknown => "unknown"@,
    }
}

fn counter_status(status: &CounterStatus) -> (result: String)
    ensures
        result@ == status_text(*status),
{
    match status {
        CounterStatus::Measured { value } => decimal_text(*value as u128),
        CounterStatus::NotApplicable => owned("n/a"),
        CounterStatus::Unknown => owned("unknown"),
    }
}

pub open spec fn total_text(total: BoundedTotal) -> Seq<char> {
    match total.bound {
        TotalBound::Exact => text::decimal(total.value as nat) + " (exact)"@,
        TotalBound::LowerBound => ">="@ + text::decimal(total.value as nat) + " (lower_bound)"@,
    }
}

fn bounded_total(total: &BoundedTotal) -> (result: String)
    ensures
        result@ == total_text(*total),
{
    match total.bound {
        TotalBound::Exact => {
            let mut result = decimal_text(total.value as u128);
            result.append(" (exact)");
            result
        },
        TotalBound::LowerBound => {
            let mut result = owned(">=");
            push_decimal(&mut result, total.value as u128);
            result.append(" (lower_bound)");
            result
        },
    }
}

pub open spec fn component_text(component: SamplingComponent) -> Seq<char> {
    match component {
        SamplingComponent::Whole { scope } => "none over "@ + scope.word(),
        SamplingComponent::Sampled {
            method,
            scope,
            effective_numerator,
            effective_denominator,
        } => text::decimal(effective_numerator as nat) + "/"@ + text::decimal(
            effective_denominator as nat,
        ) + " via "@ + method.word() + " over "@ + scope.word(),
    }
}

fn sampling_component(component: &SamplingComponent) -> (result: String)
    ensures
        result@ == component_text(*component),
{
    match component {
        SamplingComponent::Whole { scope } => {
            let mut result = owned("none over ");
            result.append(scope.as_str());
            result
        },
        SamplingComponent::Sampled {
            method,
            scope,
            effective_numerator,
            effective_denominator,
        } => {
            let mut result = decimal_text(*effective_numerator as u128);
            result.append("/");
            push_decimal(&mut result, *effective_denominator as u128);
            result.append(" via ");
            result.append(method.as_str());
            result.append(" over ");
            result.append(scope.as_str());
            result
        },
    }
}

pub open spec fn component_texts(components: Seq<SamplingComponent>) -> Seq<Seq<char>> {
    Seq::new(components.len(), |i: int| component_text(components[i]))
}

pub open spec fn sampling_text(value: SamplingTelemetry) -> Seq<char> {
    match value {
        SamplingTelemetry::Whole => "none"@,
        SamplingTelemetry::Sampled {
            method,
            scope,
            effective_numerator,
            effective_denominator,
        } => "sampled "@ + text::decimal(effective_numerator as nat) + "/"@ + text::decimal(
            effective_denominator as nat,
        ) + " via "@ + method.word() + " over "@ + scope.word(),
        SamplingTelemetry::Mixed { components } => "mixed ["@ + joined(
            component_texts(components@),
            ", "@,
        ) + "]"@,
    }
}

fn sampling(value: &SamplingTelemetry) -> (result: String)
    ensures
        result@ == sampling_text(*value),
{
    match value {
        SamplingTelemetry::Whole => owned("none"),
        SamplingTelemetry::Sampled {
            method,
            scope,
            effective_numerator,
            effective_denominator,
        } => {
            let mut result = owned("sampled ");
            push_decimal(&mut result, *effective_numerator as u128);
            result.append("/");
            push_decimal(&mut result, *effective_denominator as u128);
            result.append(" via ");
            result.append(method.as_str());
            result.append(" over ");
            result.append(scope.as_str());
            result
        },
        SamplingTelemetry::Mixed { components } => {
            let mut texts: Vec<String> = Vec::new();
            for i in 0..components.len()
                invariant
                    texts@.len() == i,
                    forall|j: int|
                        0 <= j < i ==> (#[trigger] texts@[j])@ == component_text(components@[j]),
            {
                texts.push(sampling_component(&components[i]));
            }
            assert(texts.deep_view() =~= component_texts(components@));
            let list = join(&texts, ", ");
            let mut result = owned("mixed [");
            result.append(list.as_str());
            result.append("]");
            result
        },
    }
}

pub open spec fn port_text(port: Option<u16>) -> Seq<char> {
    match port {
        Some(port) => text::decimal(port as nat),
        None => "any"@,
    }
}

fn port_or_any(port: Option<u16>) -> (result: String)
    ensures
        result@ == port_text(port),
{
    match port {
        Some(port) => decimal_text(port as u128),
        None => owned("any"),
    }
}

pub open spec fn flow_text(flow: FlowFilter) -> Seq<char> {
    "protocol="@ + (match flow.protocol {
        Some(protocol) => text::decimal(protocol as nat),
        None => "any"@,
    }) + " src="@ + text_or(flow.source_address, "any"@) + ":"@ + port_text(flow.source_port)
        + " dst="@ + text_or(flow.destination_address, "any"@) + ":"@ + port_text(
        flow.destination_port,
    )
}

fn flow_filter(flow: &FlowFilter) -> (result: String)
    ensures
        result@ == flow_text(*flow),
{
    let protocol = match flow.protocol {
        Some(protocol) => decimal_text(protocol as u128),
        None => owned("any"),
    };
    let source_port = port_or_any(flow.source_port);
    let destination_port = port_or_any(flow.destination_port);
    let mut result = owned("protocol=");
    result.append(protocol.as_str());
    result.append(" src=");
    result.append(or_else(&flow.source_address, "any"));
    result.append(":");
    result.append(source_port.as_str());
    result.append(" dst=");
    result.append(or_else(&flow.destination_address, "any"));
    result.append(":");
    result.append(destination_port.as_str());
    result
}

pub open spec fn gap_words(path: InterfacePath) -> Seq<Seq<char>> {
    Seq::new(path.topology_gaps@.len(), |i: int| path.topology_gaps@[i].word())
}

pub open spec fn anchor_text(anchor: InterfaceAnchor) -> Seq<char> {
    match anchor {
        InterfaceAnchor::Name { name } => "name:"@ + name@,
        InterfaceAnchor::Ifindex { ifindex } => "ifindex:"@ + text::decimal(ifindex as nat),
    }
}

/// The interface that was asked for, with what is connected to it.
pub open spec fn interface_text(path: Option<InterfacePath>) -> Seq<char> {
    match path {
        None => "all visible"@,
        Some(path) => anchor_text(path.anchor) + " closure=["@ + joined(
            number_words(path.visible_ifindices@),
            ","@,
        ) + "] gaps=["@ + joined(gap_words(path), ","@) + "]"@,
    }
}

fn requested_interface(path: &Option<InterfacePath>) -> (result: String)
    ensures
        result@ == interface_text(*path),
{
    match path {
        None => owned("all visible"),
        Some(path) => {
            let mut result = match &path.anchor {
                InterfaceAnchor::Name { name } => {
                    let mut anchor = owned("name:");
                    anchor.append(name.as_str());
                    anchor
                },
                InterfaceAnchor::Ifindex { ifindex } => {
                    let mut anchor = owned("ifindex:");
                    push_decimal(&mut anchor, *ifindex as u128);
                    anchor
                },
            };
            let mut gaps: Vec<String> = Vec::new();
            for i in 0..path.topology_gaps.len()
                invariant
                    gaps@.len() == i,
                    forall|j: int|
                        0 <= j < i ==> (#[trigger] gaps@[j])@ == path.topology_gaps@[j].word(),
            {
                gaps.push(owned(path.topology_gaps[i].as_str()));
            }
            assert(gaps.deep_view() =~= gap_words(*path));
            let closure = join_numbers(&path.visible_ifindices);
            let gap_list = join(&gaps, ",");
            result.append(" closure=[");
            result.append(closure.as_str());
            result.append("] gaps=[");
            result.append(gap_list.as_str());
            result.append("]");
            result
        },
    }
}

pub open spec fn namespace_text(scope: EffectiveNetworkNamespace) -> Seq<char> {
    match scope {
        EffectiveNetworkNamespace::Current { identity: Some(identity) } => "current:"@ + identity@,
        EffectiveNetworkNamespace::Current { identity: None } => "current"@,
        EffectiveNetworkNamespace::HostWide => "host_wide"@,
        EffectiveNetworkNamespace::Unknown => "unknown"@,
    }
}

fn effective_namespace(scope: &EffectiveNetworkNamespace) -> (result: String)
    ensures
        result@ == namespace_text(*scope),
{
    match scope {
        EffectiveNetworkNamespace::Current { identity: Some(identity) } => {
            let mut result = owned("current:");
            result.append(identity.as_str());
            result
        },
        EffectiveNetworkNamespace::Current { identity: None } => owned("current"),
        EffectiveNetworkNamespace::HostWide => owned("host_wide"),
        EffectiveNetworkNamespace::Unknown => owned("unknown"),
    }
}

pub open spec fn interface_scope_text(scope: EffectiveInterfaceScope) -> Seq<char> {
    match scope {
        EffectiveInterfaceScope::AllVisible => "all_visible"@,
        EffectiveInterfaceScope::Path { path } => "path:["@ + joined(
            number_words(path.visible_ifindices@),
            ","@,
        ) + "]"@,
        EffectiveInterfaceScope::Unknown => "unknown"@,
    }
}

fn effective_interface(scope: &EffectiveInterfaceScope) -> (result: String)
    ensures
        result@ == interface_scope_text(*scope),
{
    match scope {
        EffectiveInterfaceScope::AllVisible => owned("all_visible"),
        EffectiveInterfaceScope::Path { path } => {
            let closure = join_numbers(&path.visible_ifindices);
            let mut result = owned("path:[");
            result.append(closure.as_str());
            result.append("]");
            result
        },
        EffectiveInterfaceScope::Unknown => owned("unknown"),
    }
}

pub open spec fn support_text(support: ProviderFilterSupport) -> Seq<char> {
    "layers="@ + support.layers.word() + " namespace="@ + support.network_namespace.word()
        + " interface="@ + support.interface_path.word() + " direction="@
        + support.direction.word() + " protocol="@ + support.protocol.word() + " src_addr="@
        + support.source_address.word() + " dst_addr="@ + support.destination_address.word()
        + " src_port="@ + support.source_port.word() + " dst_port="@
        + support.destination_port.word()
}

fn filter_support(support: &ProviderFilterSupport) -> (result: String)
    ensures
        result@ == support_text(*support),
{
    let mut result = owned("layers=");
    result.append(support.layers.as_str());
    result.append(" namespace=");
    result.append(support.network_namespace.as_str());
    result.append(" interface=");
    result.append(support.interface_path.as_str());
    result.append(" direction=");
    result.append(support.direction.as_str());
    result.append(" protocol=");
    result.append(support.protocol.as_str());
    result.append(" src_addr=");
    result.append(support.source_address.as_str());
    result.append(" dst_addr=");
    result.append(support.destination_address.as_str());
    result.append(" src_port=");
    result.append(support.source_port.as_str());
    result.append(" dst_port=");
    result.append(support.destination_port.as_str());
    result
}

/// Words for the parts of a context that are known.
pub open spec fn context_words(context: EvidenceContext) -> Seq<Seq<char>> {
    let a = match context.ingress_ifindex {
        Some(ifindex) => seq!["ifindex="@ + text::decimal(ifindex as nat)],
        None => Seq::<Seq<char>>::empty(),
    };
    let b = match context.egress_ifindex {
        Some(ifindex) => a.push("ifindex="@ + text::decimal(ifindex as nat)),
        None => a,
    };
    let c = match context.queue_id {
        Some(queue) => b.push("queue="@ + text::decimal(queue as nat)),
        None => b,
    };
    let d = match context.cpu {
        Some(cpu) => c.push("cpu="@ + text::decimal(cpu as nat)),
        None => c,
    };
    match context.protocol {
        Some(protocol) => d.push("protocol="@ + text::decimal(protocol as nat)),
        None => d,
    }
}

pub open spec fn context_text(context: EvidenceContext) -> Seq<char> {
    if context_words(context).len() == 0 {
        Seq::empty()
    } else {
        " ["@ + joined(context_words(context), ","@) + "]"@
    }
}

fn push_word(words: &mut Vec<String>, name: &str, number: u128)
    ensures
        final(words).deep_view() == old(words).deep_view().push(
            name@ + text::decimal(number as nat),
        ),
{
    let mut word = owned(name);
    push_decimal(&mut word, number);
    let ghost before = *words;
    words.push(word);
    proof {
        seqs::lemma_deep_push(before, *words);
    }
}

fn evidence_context(context: &EvidenceContext) -> (result: String)
    ensures
        result@ == context_text(*context),
{
    let mut words: Vec<String> = Vec::new();
    assert(words.deep_view() =~= Seq::<Seq<char>>::empty());
    if let Some(ifindex) = context.ingress_ifindex {
        push_word(&mut words, "ifindex=", ifindex as u128);
        assert(words.deep_view() =~= seq!["ifindex="@ + text::decimal(ifindex as nat)]);
    }
    if let Some(ifindex) = context.egress_ifindex {
        push_word(&mut words, "ifindex=", ifindex as u128);
    }
    if let Some(queue) = context.queue_id {
        push_word(&mut words, "queue=", queue as u128);
    }
    if let Some(cpu) = context.cpu {
        push_word(&mut words, "cpu=", cpu as u128);
    }
    if let Some(protocol) = context.protocol {
        push_word(&mut words, "protocol=", protocol as u128);
    }
    assert(words.deep_view() == context_words(*context));
    assert(words.deep_view().len() == words@.len());
    if words.len() == 0 {
        let result = String::new();
        assert(result@ =~= Seq::<char>::empty());
        result
    } else {
        let list = join(&words, ",");
        let mut result = owned(" [");
        result.append(list.as_str());
        result.append("]");
        result
    }
}

/// In which part of a report evidence stands.
#[derive(Clone, Copy, Debug, PartialEq, Eq, Structural)]
pub enum StageDirection {
    Rx,
    Tx,
    Unresolved,
}

impl StageDirection {
    pub open spec fn rank(self) -> int {
        match self {
            StageDirection::Rx => 0,
            StageDirection::Tx => 1,
            StageDirection::Unresolved => 2,
        }
    }

    pub open spec fn of(direction: Option<Direction>) -> StageDirection {
        match direction {
            Some(Direction::Ingress) => StageDirection::Rx,
            Some(Direction::Egress) => StageDirection::Tx,
            None => StageDirection::Unresolved,
        }
    }

    pub open spec fn evidence_words(self) -> Seq<char> {
        match self {
            StageDirection::Rx => "RX evidence by layer"@,
            StageDirection::Tx => "TX evidence by layer"@,
            StageDirection::Unresolved => "Unresolved-direction evidence by layer"@,
        }
    }

    pub open spec fn path_words(self) -> Seq<char> {
        match self {
            StageDirection::Rx => "RX path evidence"@,
            StageDirection::Tx => "TX path evidence"@,
            StageDirection::Unresolved => "Unresolved-direction path evidence"@,
        }
    }

    fn position(self) -> (rank: u8)
        ensures
            rank == self.rank(),
    {
        match self {
            StageDirection::Rx => 0,
            StageDirection::Tx => 1,
            StageDirection::Unresolved => 2,
        }
    }

    fn evidence_title(self) -> (title: &'static str)
        ensures
            title@ == self.evidence_words(),
    {
        match self {
            StageDirection::Rx => "RX evidence by layer",
            StageDirection::Tx => "TX evidence by layer",
            StageDirection::Unresolved => "Unresolved-direction evidence by layer",
        }
    }

    fn path_title(self) -> (title: &'static str)
        ensures
            title@ == self.path_words(),
    {
        match self {
            StageDirection::Rx => "RX path evidence",
            StageDirection::Tx => "TX path evidence",
            StageDirection::Unresolved => "Unresolved-direction path evidence",
        }
    }
}

fn stage_direction(direction: Option<Direction>) -> (result: StageDirection)
    ensures
        result == StageDirection::of(direction),
{
    match direction {
        Some(Direction::Ingress) => StageDirection::Rx,
        Some(Direction::Egress) => StageDirection::Tx,
        None => StageDirection::Unresolved,
    }
}

pub open spec fn role_rank(role: SubjectRole) -> int {
    match role {
        SubjectRole::Primary => 0,
        SubjectRole::Ingress => 1,
        SubjectRole::Egress => 2,
        SubjectRole::Owner => 3,
        SubjectRole::Peer => 4,
        SubjectRole::Before => 5,
        SubjectRole::After => 6,
    }
}

pub(crate) fn role_position(role: SubjectRole) -> (rank: u8)
    ensures
        rank == role_rank(role),
{
    match role {
        SubjectRole::Primary => 0,
        SubjectRole::Ingress => 1,
        SubjectRole::Egress => 2,
        SubjectRole::Owner => 3,
        SubjectRole::Peer => 4,
        SubjectRole::Before => 5,
        SubjectRole::After => 6,
    }
}

pub open spec fn path_rank(role: Option<PathRole>) -> int {
    match role {
        Some(PathRole::Local) => 0,
        Some(PathRole::Forwarded) => 1,
        Some(PathRole::Tunnel) => 2,
        Some(PathRole::Bridge) => 3,
        None => 4,
    }
}

fn path_position(role: Option<PathRole>) -> (rank: u8)
    ensures
        rank == path_rank(role),
{
    match role {
        Some(PathRole::Local) => 0,
        Some(PathRole::Forwarded) => 1,
        Some(PathRole::Tunnel) => 2,
        Some(PathRole::Bridge) => 3,
        None => 4,
    }
}

/// A place on a path.
#[derive(Clone, Debug, PartialEq, Eq)]
pub struct Endpoint<T> {
    pub ordinal: u64,
    pub role: SubjectRole,
    pub id: T,
    pub label: T,
}

impl DeepView for Endpoint<String> {
    type V = Endpoint<Seq<char>>;

    open spec fn deep_view(&self) -> Endpoint<Seq<char>> {
        Endpoint { ordinal: self.ordinal, role: self.role, id: self.id@, label: self.label@ }
    }
}

/// The order of places: along the path, then by role, then by identity.
pub open spec fn endpoint_before(a: Endpoint<Seq<char>>, b: Endpoint<Seq<char>>) -> bool {
    if a.ordinal != b.ordinal {
        a.ordinal < b.ordinal
    } else if a.role != b.role {
        role_rank(a.role) < role_rank(b.role)
    } else if a.id != b.id {
        text::text_before(a.id, b.id)
    } else {
        text::text_before(a.label, b.label)
    }
}

pub open spec fn endpoint_order() -> spec_fn(Endpoint<Seq<char>>, Endpoint<Seq<char>>) -> bool {
    |a: Endpoint<Seq<char>>, b: Endpoint<Seq<char>>| endpoint_before(a, b)
}

impl Endpoint<String> {
    fn precedes(&self, other: &Endpoint<String>) -> (before: bool)
        ensures
            before == endpoint_before(self.deep_view(), other.deep_view()),
    {
        if self.ordinal != other.ordinal {
            self.ordinal < other.ordinal
        } else if self.role != other.role {
            role_position(self.role) < role_position(other.role)
        } else if !same_text(self.id.as_str(), other.id.as_str()) {
            comes_before(self.id.as_str(), other.id.as_str())
        } else {
            comes_before(self.label.as_str(), other.label.as_str())
        }
    }
}

/// The last of the first `n` subjects that has an identity.
pub open spec fn subject_of(subjects: Seq<Subject>, id: Seq<char>, n: int) -> Option<Subject>
    decreases n,
{
    if n <= 0 {
        None
    } else if subjects[n - 1].id@ == id {
        Some(subjects[n - 1])
    } else {
        subject_of(subjects, id, n - 1)
    }
}

fn find_subject<'a>(subjects: &'a Vec<Subject>, id: &str) -> (found: Option<&'a Subject>)
    ensures
        subject_of(subjects@, id@, subjects@.len() as int) == match found {
            Some(subject) => Some(*subject),
            None => None,
        },
{
    let mut n: usize = subjects.len();
    while n > 0
        invariant
            n <= subjects@.len(),
            subject_of(subjects@, id@, n as int) == subject_of(
                subjects@,
                id@,
                subjects@.len() as int,
            ),
        decreases n,
    {
        if same_text(subjects[n - 1].id.as_str(), id) {
            return Some(&subjects[n - 1]);
        }
        n -= 1;
    }
    None
}

/// The place on a path that a reference stands for, if it stands for one.
pub open spec fn endpoint_of(subjects: Seq<Subject>, reference: SubjectRef<String>) -> Option<
    Endpoint<Seq<char>>,
> {
    match subject_of(subjects, reference.id@, subjects.len() as int) {
        None => None,
        Some(subject) => match subject.kind {
            SubjectKind::Hop => match evidence::attribute(
                subject.attributes.deep_view(),
                ATTR_HOP_ORDINAL@,
            ) {
                Some(AttributeValue::Unsigned(ordinal)) => Some(
                    Endpoint {
                        ordinal,
                        role: reference.role,
                        id: subject.id@,
                        label: "hop#"@ + text::decimal(ordinal as nat),
                    },
                ),
                _ => None,
            },
            SubjectKind::FlowDomain => if reference.role == SubjectRole::Before || reference.role
                == SubjectRole::After {
                Some(
                    Endpoint {
                        ordinal: u64::MAX,
                        role: reference.role,
                        id: subject.id@,
                        label: "flow"@,
                    },
                )
            } else {
                None
            },
            _ => None,
        },
    }
}

fn find_endpoint(subjects: &Vec<Subject>, reference: &SubjectRef<String>) -> (endpoint: Option<
    Endpoint<String>,
>)
    ensures
        endpoint_of(subjects@, *reference) == match endpoint {
            Some(endpoint) => Some(endpoint.deep_view()),
            None => None,
        },
{
    let subject = match find_subject(subjects, reference.id.as_str()) {
        None => {
            return None;
        },
        Some(subject) => subject,
    };
    match subject.kind {
        SubjectKind::Hop => match subject.attributes.number(ATTR_HOP_ORDINAL) {
            Some(ordinal) => {
                let mut label = owned("hop#");
                push_decimal(&mut label, ordinal as u128);
                Some(
                    Endpoint {
                        ordinal,
                        role: reference.role,
                        id: owned(subject.id.as_str()),
                        label,
                    },
                )
            },
            None => None,
        },
        SubjectKind::FlowDomain => if reference.role == SubjectRole::Before || reference.role
            == SubjectRole::After {
            Some(
                Endpoint {
                    ordinal: u64::MAX,
                    role: reference.role,
                    id: owned(subject.id.as_str()),
                    label: owned("flow"),
                },
            )
        } else {
            None
        },
        _ => None,
    }
}

/// The places of the first `n` references.
pub open spec fn endpoints_upto(subjects: Seq<Subject>, refs: Seq<SubjectRef<String>>, n: int) -> Seq<
    Endpoint<Seq<char>>,
>
    decreases n,
{
    if n <= 0 {
        Seq::empty()
    } else {
        match endpoint_of(subjects, refs[n - 1]) {
            Some(endpoint) => endpoints_upto(subjects, refs, n - 1).push(endpoint),
            None => endpoints_upto(subjects, refs, n - 1),
        }
    }
}

/// The places on a path that evidence is about, in order.
pub open spec fn endpoints_of(subjects: Seq<Subject>, refs: Seq<SubjectRef<String>>) -> Seq<
    Endpoint<Seq<char>>,
> {
    let all = endpoints_upto(subjects, refs, refs.len() as int);
    seqs::ordered_upto(all, endpoint_order(), all.len() as int)
}

/// Puts a place among places that are in order.
fn insert_endpoint(endpoints: &mut Vec<Endpoint<String>>, endpoint: Endpoint<String>)
    ensures
        final(endpoints).deep_view() == old(endpoints).deep_view().insert(
            seqs::place_of(
                old(endpoints).deep_view(),
                endpoint_order(),
                endpoint.deep_view(),
                old(endpoints).deep_view().len() as int,
            ),
            endpoint.deep_view(),
        ),
{
    let ghost all = endpoints.deep_view();
    let ghost order = endpoint_order();
    let ghost new = endpoint.deep_view();
    assert(all.len() == endpoints@.len());
    let mut at: usize = endpoints.len();
    while at > 0 && endpoint.precedes(&endpoints[at - 1])
        invariant
            at <= endpoints@.len(),
            *endpoints == *old(endpoints),
            all == endpoints.deep_view(),
            all.len() == endpoints@.len(),
            order == endpoint_order(),
            new == endpoint.deep_view(),
            seqs::place_of(all, order, new, at as int) == seqs::place_of(
                all,
                order,
                new,
                all.len() as int,
            ),
        decreases at,
    {
        assert(all[at - 1] == endpoints@[at - 1].deep_view());
        at -= 1;
    }
    if at > 0 {
        assert(all[at - 1] == endpoints@[at - 1].deep_view());
    }
    endpoints.insert(at, endpoint);
    assert(endpoints.deep_view() =~= all.insert(at as int, new));
}

proof fn lemma_ordered_prefix(
    a: Seq<Endpoint<Seq<char>>>,
    x: Endpoint<Seq<char>>,
    n: int,
)
    requires
        0 <= n <= a.len(),
    ensures
        seqs::ordered_upto(a.push(x), endpoint_order(), n) == seqs::ordered_upto(
            a,
            endpoint_order(),
            n,
        ),
    decreases n,
{
    if n > 0 {
        lemma_ordered_prefix(a, x, n - 1);
    }
}

fn collect_endpoints(subjects: &Vec<Subject>, refs: &Vec<SubjectRef<String>>) -> (endpoints: Vec<
    Endpoint<String>,
>)
    ensures
        endpoints.deep_view() == endpoints_of(subjects@, refs@),
{
    let mut endpoints: Vec<Endpoint<String>> = Vec::new();
    assert(endpoints.deep_view() =~= Seq::<Endpoint<Seq<char>>>::empty());
    for i in 0..refs.len()
        invariant
            endpoints.deep_view() == seqs::ordered_upto(
                endpoints_upto(subjects@, refs@, i as int),
                endpoint_order(),
                endpoints_upto(subjects@, refs@, i as int).len() as int,
            ),
    {
        if let Some(endpoint) = find_endpoint(subjects, &refs[i]) {
            proof {
                let before = endpoints_upto(subjects@, refs@, i as int);
                lemma_ordered_prefix(before, endpoint.deep_view(), before.len() as int);
            }
            insert_endpoint(&mut endpoints, endpoint);
        }
    }
    endpoints
}

pub open spec fn endpoint_texts(endpoints: Seq<Endpoint<Seq<char>>>) -> Seq<Seq<char>> {
    Seq::new(
        endpoints.len(),
        |i: int|
            endpoints[i].role.word() + ":"@ + endpoints[i].label + "@"@ + endpoints[i].id,
    )
}

pub open spec fn endpoints_text(endpoints: Seq<Endpoint<Seq<char>>>) -> Seq<char> {
    if endpoints.len() == 0 {
        "-"@
    } else {
        joined(endpoint_texts(endpoints), ","@)
    }
}

fn format_endpoints(endpoints: &Vec<Endpoint<String>>) -> (result: String)
    ensures
        result@ == endpoints_text(endpoints.deep_view()),
{
    let ghost all = endpoints.deep_view();
    assert(all.len() == endpoints@.len());
    if endpoints.len() == 0 {
        return owned("-");
    }
    let mut texts: Vec<String> = Vec::new();
    for i in 0..endpoints.len()
        invariant
            all == endpoints.deep_view(),
            all.len() == endpoints@.len(),
            texts@.len() == i,
            forall|j: int|
                0 <= j < i ==> (#[trigger] texts@[j])@ == endpoint_texts(all)[j],
    {
        assert(all[i as int] == endpoints@[i as int].deep_view());
        let mut text = owned(endpoints[i].role.as_str());
        text.append(":");
        text.append(endpoints[i].label.as_str());
        text.append("@");
        text.append(endpoints[i].id.as_str());
        texts.push(text);
    }
    assert(texts.deep_view() =~= endpoint_texts(all));
    join(&texts, ",")
}

/// One row of evidence.
#[derive(Clone, Debug, PartialEq, Eq)]
pub struct StageRow {
    pub direction: StageDirection,
    pub layer: Option<Layer>,
    pub stage: String,
    pub evidence: String,
    pub value: String,
    pub unit: MeasurementUnit,
    pub form: EvidenceForm,
    pub role: EvidenceRole,
    pub path_role: Option<PathRole>,
    pub execution_domain: String,
    pub transition: String,
    pub endpoints: Vec<Endpoint<String>>,
}

#[verifier::ext_equal]
pub struct RowModel {
    pub direction: StageDirection,
    pub layer: Option<Layer>,
    pub stage: Seq<char>,
    pub evidence: Seq<char>,
    pub value: Seq<char>,
    pub unit: MeasurementUnit,
    pub form: EvidenceForm,
    pub role: EvidenceRole,
    pub path_role: Option<PathRole>,
    pub execution_domain: Seq<char>,
    pub transition: Seq<char>,
    pub endpoints: Seq<Endpoint<Seq<char>>>,
}

impl DeepView for StageRow {
    type V = RowModel;

    open spec fn deep_view(&self) -> RowModel {
        RowModel {
            direction: self.direction,
            layer: self.layer,
            stage: self.stage@,
            evidence: self.evidence@,
            value: self.value@,
            unit: self.unit,
            form: self.form,
            role: self.role,
            path_role: self.path_role,
            execution_domain: self.execution_domain@,
            transition: self.transition@,
            endpoints: self.endpoints.deep_view(),
        }
    }
}

/// Whether a row is about a step on a path.
pub open spec fn on_path(row: RowModel) -> bool {
    row.transition != "-"@
}

/// The row of a piece of evidence.
pub open spec fn row_of(
    subjects: Seq<Subject>,
    meta: EvidenceMeta,
    evidence: Seq<char>,
    value: Seq<char>,
) -> RowModel {
    RowModel {
        direction: StageDirection::of(meta.descriptor.direction),
        layer: meta.layer,
        stage: text_or(meta.descriptor.stage, "unclassified"@),
        evidence,
        value,
        unit: meta.descriptor.measurement.unit,
        form: meta.descriptor.form,
        role: meta.descriptor.role,
        path_role: meta.descriptor.path_role,
        execution_domain: text_or(meta.execution_domain, "-"@),
        transition: text_or(meta.transition, "-"@),
        endpoints: endpoints_of(subjects, meta.subjects@),
    }
}

fn stage_row(subjects: &Vec<Subject>, meta: &EvidenceMeta, evidence: String, value: String) -> (row:
    StageRow)
    ensures
        row.deep_view() == row_of(subjects@, *meta, evidence@, value@),
{
    StageRow {
        direction: stage_direction(meta.descriptor.direction),
        layer: meta.layer,
        stage: owned(or_else(&meta.descriptor.stage, "unclassified")),
        evidence,
        value,
        unit: meta.descriptor.measurement.unit,
        form: meta.descriptor.form,
        role: meta.descriptor.role,
        path_role: meta.descriptor.path_role,
        execution_domain: owned(or_else(&meta.execution_domain, "-")),
        transition: owned(or_else(&meta.transition, "-")),
        endpoints: collect_endpoints(subjects, &meta.subjects),
    }
}

/// Whether two places have the same place in the order of rows.
pub open spec fn same_place(a: Endpoint<Seq<char>>, b: Endpoint<Seq<char>>) -> bool {
    a.ordinal == b.ordinal && a.role == b.role && a.id == b.id
}

/// Whether a path comes before another, from its place `i` on.
pub open spec fn path_before(
    a: Seq<Endpoint<Seq<char>>>,
    b: Seq<Endpoint<Seq<char>>>,
    i: int,
) -> bool
    decreases b.len() - i,
{
    if i >= b.len() {
        false
    } else if i >= a.len() {
        true
    } else if same_place(a[i], b[i]) {
        path_before(a, b, i + 1)
    } else {
        endpoint_before(a[i], b[i])
    }
}

/// Whether two paths have the same places.
pub open spec fn same_path(a: Seq<Endpoint<Seq<char>>>, b: Seq<Endpoint<Seq<char>>>) -> bool {
    a.len() == b.len() && forall|i: int| 0 <= i < a.len() ==> same_place(#[trigger] a[i], b[i])
}

/// The order of rows: by direction, evidence of a layer before evidence of a path,
/// then along the stack or along the path.
pub open spec fn row_before(a: RowModel, b: RowModel) -> bool {
    if a.direction != b.direction {
        a.direction.rank() < b.direction.rank()
    } else if on_path(a) != on_path(b) {
        on_path(b)
    } else if on_path(a) {
        if a.path_role != b.path_role {
            path_rank(a.path_role) < path_rank(b.path_role)
        } else if (a.endpoints.len() == 0) != (b.endpoints.len() == 0) {
            b.endpoints.len() == 0
        } else if !same_path(a.endpoints, b.endpoints) {
            path_before(a.endpoints, b.endpoints, 0)
        } else if a.transition != b.transition {
            text::text_before(a.transition, b.transition)
        } else if a.execution_domain != b.execution_domain {
            text::text_before(a.execution_domain, b.execution_domain)
        } else if a.stage != b.stage {
            text::text_before(a.stage, b.stage)
        } else {
            text::text_before(a.evidence, b.evidence)
        }
    } else if layer_word(a.layer) != layer_word(b.layer) {
        text::text_before(layer_word(a.layer), layer_word(b.layer))
    } else if a.stage != b.stage {
        text::text_before(a.stage, b.stage)
    } else if a.execution_domain != b.execution_domain {
        text::text_before(a.execution_domain, b.execution_domain)
    } else {
        text::text_before(a.evidence, b.evidence)
    }
}

pub open spec fn row_order() -> spec_fn(RowModel, RowModel) -> bool {
    |a: RowModel, b: RowModel| row_before(a, b)
}

fn at_same_place(a: &Endpoint<String>, b: &Endpoint<String>) -> (same: bool)
    ensures
        same == same_place(a.deep_view(), b.deep_view()),
{
    a.ordinal == b.ordinal && a.role == b.role && same_text(a.id.as_str(), b.id.as_str())
}

/// The first place where two paths differ, or where one of them ends.
fn first_difference(a: &Vec<Endpoint<String>>, b: &Vec<Endpoint<String>>) -> (at: usize)
    ensures
        at <= a@.len() && at <= b@.len(),
        forall|i: int| 0 <= i < at ==> same_place(a.deep_view()[i], b.deep_view()[i]),
        at < a@.len() && at < b@.len() ==> !same_place(
            a.deep_view()[at as int],
            b.deep_view()[at as int],
        ),
        at == a@.len() || at == b@.len() || (at < a@.len() && at < b@.len()),
        path_before(a.deep_view(), b.deep_view(), 0) == path_before(
            a.deep_view(),
            b.deep_view(),
            at as int,
        ),
{
    let ghost x = a.deep_view();
    let ghost y = b.deep_view();
    let mut i: usize = 0;
    while i < a.len() && i < b.len() && at_same_place(&a[i], &b[i])
        invariant
            i <= a@.len() && i <= b@.len(),
            x == a.deep_view() && y == b.deep_view(),
            x.len() == a@.len() && y.len() == b@.len(),
            forall|j: int| 0 <= j < i ==> same_place(x[j], y[j]),
            path_before(x, y, 0) == path_before(x, y, i as int),
        decreases a.len() - i,
    {
        assert(x[i as int] == a@[i as int].deep_view());
        assert(y[i as int] == b@[i as int].deep_view());
        i += 1;
    }
    if i < a.len() && i < b.len() {
        assert(x[i as int] == a@[i as int].deep_view());
        assert(y[i as int] == b@[i as int].deep_view());
    }
    i
}

impl StageRow {
    fn has_graph_metadata(&self) -> (graph: bool)
        ensures
            graph == on_path(self.deep_view()),
    {
        !same_text(self.transition.as_str(), "-")
    }

    fn precedes(&self, other: &StageRow) -> (before: bool)
        ensures
            before == row_before(self.deep_view(), other.deep_view()),
    {
        let ghost x = self.endpoints.deep_view();
        let ghost y = other.endpoints.deep_view();
        assert(x.len() == self.endpoints@.len() && y.len() == other.endpoints@.len());
        if self.direction != other.direction {
            return self.direction.position() < other.direction.position();
        }
        let graph: bool = self.has_graph_metadata();
        if graph != other.has_graph_metadata() {
            return other.has_graph_metadata();
        }
        if graph {
            if path_position(self.path_role) != path_position(other.path_role) {
                return path_position(self.path_role) < path_position(other.path_role);
            }
            if (self.endpoints.len() == 0) != (other.endpoints.len() == 0) {
                return other.endpoints.len() == 0;
            }
            let at: usize = first_difference(&self.endpoints, &other.endpoints);
            if at < self.endpoints.len() || at < other.endpoints.len() {
                proof {
                    if same_path(x, y) {
                        assert(same_place(x[at as int], y[at as int]));
                    }
                }
                if at >= other.endpoints.len() {
                    return false;
                }
                if at >= self.endpoints.len() {
                    return true;
                }
                assert(x[at as int] == self.endpoints@[at as int].deep_view());
                assert(y[at as int] == other.endpoints@[at as int].deep_view());
                return self.endpoints[at].precedes(&other.endpoints[at]);
            }
            assert(same_path(x, y));
            if !same_text(self.transition.as_str(), other.transition.as_str()) {
                return comes_before(self.transition.as_str(), other.transition.as_str());
            }
            if !same_text(self.execution_domain.as_str(), other.execution_domain.as_str()) {
                return comes_before(
                    self.execution_domain.as_str(),
                    other.execution_domain.as_str(),
                );
            }
            if !same_text(self.stage.as_str(), other.stage.as_str()) {
                return comes_before(self.stage.as_str(), other.stage.as_str());
            }
            return comes_before(self.evidence.as_str(), other.evidence.as_str());
        }
        let layer = layer_name(self.layer);
        let other_layer = layer_name(other.layer);
        if !same_text(layer, other_layer) {
            return comes_before(layer, other_layer);
        }
        if !same_text(self.stage.as_str(), other.stage.as_str()) {
            return comes_before(self.stage.as_str(), other.stage.as_str());
        }
        if !same_text(self.execution_domain.as_str(), other.execution_domain.as_str()) {
            return comes_before(self.execution_domain.as_str(), other.execution_domain.as_str());
        }
        comes_before(self.evidence.as_str(), other.evidence.as_str())
    }
}

/// Puts a row among rows that are in order.
fn insert_row(rows: &mut Vec<StageRow>, row: StageRow)
    ensures
        final(rows).deep_view() == old(rows).deep_view().insert(
            seqs::place_of(
                old(rows).deep_view(),
                row_order(),
                row.deep_view(),
                old(rows).deep_view().len() as int,
            ),
            row.deep_view(),
        ),
{
    let ghost all = rows.deep_view();
    let ghost order = row_order();
    let ghost new = row.deep_view();
    assert(all.len() == rows@.len());
    let mut at: usize = rows.len();
    while at > 0 && row.precedes(&rows[at - 1])
        invariant
            at <= rows@.len(),
            *rows == *old(rows),
            all == rows.deep_view(),
            all.len() == rows@.len(),
            order == row_order(),
            new == row.deep_view(),
            seqs::place_of(all, order, new, at as int) == seqs::place_of(
                all,
                order,
                new,
                all.len() as int,
            ),
        decreases at,
    {
        assert(all[at - 1] == rows@[at - 1].deep_view());
        at -= 1;
    }
    if at > 0 {
        assert(all[at - 1] == rows@[at - 1].deep_view());
    }
    rows.insert(at, row);
    assert(rows.deep_view() =~= all.insert(at as int, new));
}

/// How a counter changed, in words; nothing where it did not.
pub open spec fn change_text(metric: MetricDelta) -> Option<Seq<char>> {
    match metric.values.delta {
        Some(delta) => if delta == 0 {
            None
        } else {
            Some(measured(delta, metric.meta.descriptor.measurement.bound))
        },
        None => Some(
            if metric.values.reset {
                "reset"@
            } else {
                "unknown"@
            },
        ),
    }
}

/// The rows of the first `n` metrics. A counter that did not change has none.
pub open spec fn metric_rows_upto(subjects: Seq<Subject>, metrics: Seq<MetricDelta>, n: int) -> Seq<
    RowModel,
>
    decreases n,
{
    if n <= 0 {
        Seq::empty()
    } else {
        let before = metric_rows_upto(subjects, metrics, n - 1);
        let metric = metrics[n - 1];
        match change_text(metric) {
            Some(value) => before.push(
                row_of(
                    subjects,
                    metric.meta,
                    metric.metric_type@ + context_text(metric.meta.descriptor.context),
                    value,
                ),
            ),
            None => before,
        }
    }
}

/// What an event says, in words.
pub open spec fn event_text(observation: Observation) -> Seq<char> {
    observation.event_type@ + (match reason_of(observation.attributes.deep_view()) {
        Some(reason) => " reason="@ + reason,
        None => Seq::empty(),
    }) + context_text(observation.meta.descriptor.context)
}

pub(crate) fn describe_event(observation: &Observation) -> (result: String)
    ensures
        result@ == event_text(*observation),
{
    let mut result = owned(observation.event_type.as_str());
    let mut reason = String::new();
    assert(reason@ =~= Seq::<char>::empty());
    if let Some(words) = find_reason(&observation.attributes) {
        reason = owned(" reason=");
        reason.append(words.as_str());
    }
    let context = evidence_context(&observation.meta.descriptor.context);
    result.append(reason.as_str());
    result.append(context.as_str());
    result
}

/// Whether references lead to the same subjects, in whatever order they stand.
pub open spec fn same_references(
    a: Seq<SubjectRef<Seq<char>>>,
    b: Seq<SubjectRef<Seq<char>>>,
) -> bool {
    a.to_set() == b.to_set()
}

/// Whether two events are shown in one row.
pub open spec fn alike(a: Observation, b: Observation) -> bool {
    &&& a.meta.provider@ == b.meta.provider@
    &&& a.meta.layer == b.meta.layer
    &&& text::optional_text(a.meta.execution_domain) == text::optional_text(
        b.meta.execution_domain,
    )
    &&& text::optional_text(a.meta.transition) == text::optional_text(b.meta.transition)
    &&& a.meta.descriptor.deep_view() == b.meta.descriptor.deep_view()
    &&& same_references(a.meta.subjects.deep_view(), b.meta.subjects.deep_view())
    &&& event_text(a) == event_text(b)
}

pub(crate) fn contains_reference(
    refs: &Vec<SubjectRef<String>>,
    reference: &SubjectRef<String>,
) -> (found: bool)
    ensures
        found == refs.deep_view().contains(reference.deep_view()),
{
    let ghost all = refs.deep_view();
    assert(all.len() == refs@.len());
    let mut i: usize = 0;
    while i < refs.len()
        invariant
            i <= refs.len(),
            all == refs.deep_view(),
            all.len() == refs@.len(),
            forall|j: int| 0 <= j < i ==> #[trigger] all[j] != reference.deep_view(),
        decreases refs.len() - i,
    {
        assert(all[i as int] == refs@[i as int].deep_view());
        if refs[i].role == reference.role && same_text(
            refs[i].id.as_str(),
            reference.id.as_str(),
        ) {
            assert(all[i as int] == reference.deep_view());
            return true;
        }
        i += 1;
    }
    false
}

/// Whether all references of `a` are among those of `b`.
fn are_among(a: &Vec<SubjectRef<String>>, b: &Vec<SubjectRef<String>>) -> (among: bool)
    ensures
        among == a.deep_view().to_set().subset_of(b.deep_view().to_set()),
{
    let ghost x = a.deep_view();
    let ghost y = b.deep_view();
    assert(x.len() == a@.len());
    let mut i: usize = 0;
    while i < a.len()
        invariant
            i <= a.len(),
            x == a.deep_view(),
            y == b.deep_view(),
            x.len() == a@.len(),
            forall|j: int| 0 <= j < i ==> y.contains(#[trigger] x[j]),
        decreases a.len() - i,
    {
        assert(x[i as int] == a@[i as int].deep_view());
        if !contains_reference(b, &a[i]) {
            proof {
                assert(x.to_set().contains(x[i as int]));
                assert(!y.to_set().contains(x[i as int]));
            }
            return false;
        }
        i += 1;
    }
    proof {
        assert forall|r: SubjectRef<Seq<char>>| x.to_set().contains(r) implies y.to_set().contains(
            r,
        ) by {
            let j = choose|j: int| 0 <= j < x.len() && x[j] == r;
            assert(y.contains(x[j]));
        }
    }
    true
}

fn are_alike(a: &Observation, b: &Observation) -> (same: bool)
    ensures
        same == alike(*a, *b),
{
    let x = &a.meta;
    let y = &b.meta;
    let same_layer: bool = match (x.layer, y.layer) {
        (Some(p), Some(q)) => p == q,
        (None, None) => true,
        _ => false,
    };
    if !same_layer || !same_text(x.provider.as_str(), y.provider.as_str()) || !same_option(
        &x.execution_domain,
        &y.execution_domain,
    ) || !same_option(&x.transition, &y.transition) {
        return false;
    }
    if !same_descriptor(&x.descriptor, &y.descriptor) {
        return false;
    }
    if !are_among(&x.subjects, &y.subjects) || !are_among(&y.subjects, &x.subjects) {
        proof {
            if same_references(x.subjects.deep_view(), y.subjects.deep_view()) {
                assert(x.subjects.deep_view().to_set().subset_of(y.subjects.deep_view().to_set()));
            }
        }
        return false;
    }
    proof {
        assert(x.subjects.deep_view().to_set() =~= y.subjects.deep_view().to_set());
    }
    let left = describe_event(a);
    let right = describe_event(b);
    same_text(left.as_str(), right.as_str())
}

fn same_number(a: Option<u32>, b: Option<u32>) -> (same: bool)
    ensures
        same == (a == b),
{
    match (a, b) {
        (Some(a), Some(b)) => a == b,
        (None, None) => true,
        _ => false,
    }
}

fn same_descriptor(a: &EvidenceDescriptor<String>, b: &EvidenceDescriptor<String>) -> (same: bool)
    ensures
        same == (a.deep_view() == b.deep_view()),
{
    let same_direction: bool = match (a.direction, b.direction) {
        (Some(p), Some(q)) => p == q,
        (None, None) => true,
        _ => false,
    };
    let same_path_role: bool = match (a.path_role, b.path_role) {
        (Some(p), Some(q)) => p == q,
        (None, None) => true,
        _ => false,
    };
    let same_disposition: bool = match (a.outcome.disposition, b.outcome.disposition) {
        (Some(p), Some(q)) => p == q,
        (None, None) => true,
        _ => false,
    };
    let same_signal: bool = match (a.outcome.signal, b.outcome.signal) {
        (Some(p), Some(q)) => p == q,
        (None, None) => true,
        _ => false,
    };
    let same_scope: bool = match (a.measurement.scope, b.measurement.scope) {
        (Some(p), Some(q)) => p == q,
        (None, None) => true,
        _ => false,
    };
    let same_bound: bool = match (a.measurement.bound, b.measurement.bound) {
        (Some(p), Some(q)) => p == q,
        (None, None) => true,
        _ => false,
    };
    let same_protocol: bool = match (a.context.protocol, b.context.protocol) {
        (Some(p), Some(q)) => p == q,
        (None, None) => true,
        _ => false,
    };
    same_option(&a.stage, &b.stage) && same_direction && same_path_role && same_disposition
        && same_signal && a.role == b.role && a.form == b.form && a.measurement.unit
        == b.measurement.unit && same_scope && same_bound && same_protocol && same_number(
        a.context.ingress_ifindex,
        b.context.ingress_ifindex,
    ) && same_number(a.context.egress_ifindex, b.context.egress_ifindex) && same_number(
        a.context.queue_id,
        b.context.queue_id,
    ) && same_number(a.context.cpu, b.context.cpu)
}

pub open spec fn is_like(observation: Observation) -> spec_fn(Observation) -> bool {
    |other: Observation| alike(other, observation)
}

pub open spec fn kind_order(observations: Seq<Observation>) -> spec_fn(int, int) -> bool {
    |i: int, j: int| kinds::precedes(observations[i], observations[j])
}

/// The positions, among the first `n` events, of those that are like none before them.
pub open spec fn kinds_upto(observations: Seq<Observation>, n: int) -> Seq<int>
    decreases n,
{
    if n <= 0 {
        Seq::empty()
    } else if seqs::first_where(observations, is_like(observations[n - 1]), n - 1) is Some {
        kinds_upto(observations, n - 1)
    } else {
        kinds_upto(observations, n - 1).push(n - 1)
    }
}

/// The kinds of events, in order.
pub open spec fn kinds_of(observations: Seq<Observation>) -> Seq<int> {
    let kinds = kinds_upto(observations, observations.len() as int);
    seqs::ordered_upto(kinds, kind_order(observations), kinds.len() as int)
}

/// The row of the events that are like one of them.
pub open spec fn event_row(
    subjects: Seq<Subject>,
    observations: Seq<Observation>,
    at: int,
) -> RowModel {
    row_of(
        subjects,
        observations[at].meta,
        event_text(observations[at]),
        count_text(
            seqs::count_where(
                observations,
                is_like(observations[at]),
                observations.len() as int,
            ),
        ),
    )
}

/// The rows of events. Events that are alike make one row, which counts them.
pub open spec fn event_rows(subjects: Seq<Subject>, observations: Seq<Observation>) -> Seq<
    RowModel,
> {
    let kinds = kinds_of(observations);
    Seq::new(kinds.len(), |k: int| event_row(subjects, observations, kinds[k]))
}

pub open spec fn count_text(count: nat) -> Seq<char> {
    if count == 1 {
        "1 event"@
    } else {
        text::decimal(count) + " events"@
    }
}

/// All rows of a report, in order.
pub open spec fn report_rows(report: Report) -> Seq<RowModel> {
    let rows = metric_rows_upto(report.subjects@, report.metrics@, report.metrics@.len() as int)
        + event_rows(report.subjects@, report.observations@);
    seqs::ordered_upto(rows, row_order(), rows.len() as int)
}

/// The places at position `i` of two paths are ordered, up to the same place.
proof fn lemma_places_ordered(
    a: Endpoint<Seq<char>>,
    b: Endpoint<Seq<char>>,
    c: Endpoint<Seq<char>>,
)
    ensures
        !same_place(a, b) ==> (endpoint_before(a, b) <==> !endpoint_before(b, a)),
        !same_place(a, b) && !same_place(b, c) && endpoint_before(a, b) && endpoint_before(b, c)
            ==> !same_place(a, c) && endpoint_before(a, c),
        same_place(a, b) && !same_place(a, c) ==> endpoint_before(a, c) == endpoint_before(b, c)
            && endpoint_before(c, a) == endpoint_before(c, b),
{
    text::text_order_is_strict_and_total(a.id, b.id, c.id);
    text::text_order_is_strict_and_total(a.id, b.id, a.id);
}

/// Paths are ordered from position `i` on, where they have had the same places so far.
proof fn lemma_paths_ordered(
    a: Seq<Endpoint<Seq<char>>>,
    b: Seq<Endpoint<Seq<char>>>,
    c: Seq<Endpoint<Seq<char>>>,
    i: int,
)
    requires
        0 <= i <= a.len(),
        i <= b.len(),
        i <= c.len(),
        forall|j: int| 0 <= j < i ==> same_place(#[trigger] a[j], b[j]),
    ensures
        path_before(a, b, i) ==> !path_before(b, a, i),
        !path_before(a, b, i) && !path_before(b, a, i) ==> same_path(a, b),
        path_before(a, b, i) && path_before(b, c, i) ==> path_before(a, c, i),
        same_path(a, b) ==> !path_before(a, b, i) && path_before(a, c, i) == path_before(b, c, i)
            && path_before(c, a, i) == path_before(c, b, i),
    decreases a.len() - i,
{
    if i < a.len() && i < b.len() {
        if i < c.len() {
            lemma_places_ordered(a[i], b[i], c[i]);
        } else {
            lemma_places_ordered(a[i], b[i], a[i]);
        }
        if same_place(a[i], b[i]) {
            if i < c.len() {
                lemma_paths_ordered(a, b, c, i + 1);
            } else {
                lemma_paths_ordered(a, b, a, i + 1);
            }
        }
    }
}

/// The order of one text in two rows against a third.
proof fn lemma_texts_ordered(a: Seq<char>, b: Seq<char>, c: Seq<char>)
    ensures
        a != b ==> (text::text_before(a, b) <==> !text::text_before(b, a)),
        b != c ==> (text::text_before(b, c) <==> !text::text_before(c, b)),
        a != c ==> (text::text_before(a, c) <==> !text::text_before(c, a)),
        text::text_before(a, b) && text::text_before(b, c) ==> text::text_before(a, c),
        !text::text_before(a, a),
        !text::text_before(b, b),
        !text::text_before(c, c),
{
    text::text_order_is_strict_and_total(a, b, c);
    text::text_order_is_strict_and_total(b, c, a);
    text::text_order_is_strict_and_total(c, a, b);
}

proof fn lemma_rows_ordered(a: RowModel, b: RowModel, c: RowModel)
    ensures
        row_before(a, b) ==> !row_before(b, a),
        !row_before(b, a) && !row_before(c, b) ==> !row_before(c, a),
{
    lemma_texts_ordered(a.evidence, b.evidence, c.evidence);
    lemma_texts_ordered(a.stage, b.stage, c.stage);
    lemma_texts_ordered(a.execution_domain, b.execution_domain, c.execution_domain);
    lemma_texts_ordered(a.transition, b.transition, c.transition);
    lemma_texts_ordered(layer_word(a.layer), layer_word(b.layer), layer_word(c.layer));
    lemma_paths_ordered(a.endpoints, b.endpoints, c.endpoints, 0);
    lemma_paths_ordered(b.endpoints, c.endpoints, a.endpoints, 0);
    lemma_paths_ordered(a.endpoints, c.endpoints, b.endpoints, 0);
    lemma_paths_ordered(b.endpoints, a.endpoints, c.endpoints, 0);
}

/// The rows of a report come in order: no row comes before an earlier one, and every
/// counter that changed and every kind of event has its row.
pub proof fn report_rows_come_in_order(report: Report)
    ensures
        seqs::sorted(report_rows(report), row_order()),
        report_rows(report).to_multiset() == (metric_rows_upto(
            report.subjects@,
            report.metrics@,
            report.metrics@.len() as int,
        ) + event_rows(report.subjects@, report.observations@)).to_multiset(),
{
    let rows = metric_rows_upto(report.subjects@, report.metrics@, report.metrics@.len() as int)
        + event_rows(report.subjects@, report.observations@);
    let before = row_order();
    assert forall|a: RowModel, b: RowModel| #[trigger] before(a, b) implies !before(b, a) by {
        lemma_rows_ordered(a, b, a);
    }
    assert forall|a: RowModel, b: RowModel, c: RowModel|
        !#[trigger] before(b, a) && !#[trigger] before(c, b) implies !before(c, a) by {
        lemma_rows_ordered(a, b, c);
    }
    seqs::ordering_sorts(rows, before, rows.len() as int);
    seqs::lemma_take_all(rows);
}

proof fn lemma_rows_prefix(a: Seq<RowModel>, x: RowModel, n: int)
    requires
        0 <= n <= a.len(),
    ensures
        seqs::ordered_upto(a.push(x), row_order(), n) == seqs::ordered_upto(a, row_order(), n),
    decreases n,
{
    if n > 0 {
        lemma_rows_prefix(a, x, n - 1);
    }
}

/// Whether an event is like one of the events before it, and how many are like it.
fn count_alike(observations: &Vec<Observation>, n: usize) -> (result: (bool, usize))
    requires
        n < observations@.len(),
    ensures
        result.0 == (seqs::first_where(observations@, is_like(observations@[n as int]), n as int)
            is Some),
        result.1 == seqs::count_where(
            observations@,
            is_like(observations@[n as int]),
            observations@.len() as int,
        ),
{
    let ghost wanted = is_like(observations@[n as int]);
    let mut seen: bool = false;
    let mut count: usize = 0;
    for i in 0..observations.len()
        invariant
            n < observations@.len(),
            wanted == is_like(observations@[n as int]),
            count <= i,
            count == seqs::count_where(observations@, wanted, i as int),
            i <= n ==> seen == (seqs::first_where(observations@, wanted, i as int) is Some),
            i > n ==> seen == (seqs::first_where(observations@, wanted, n as int) is Some),
    {
        if are_alike(&observations[i], &observations[n]) {
            count += 1;
            if i < n {
                seen = true;
            }
        }
    }
    (seen, count)
}

pub open spec fn positions(kinds: Seq<usize>) -> Seq<int> {
    Seq::new(kinds.len(), |k: int| kinds[k] as int)
}

proof fn lemma_kinds_prefix(a: Seq<int>, x: int, before: spec_fn(int, int) -> bool, n: int)
    requires
        0 <= n <= a.len(),
    ensures
        seqs::ordered_upto(a.push(x), before, n) == seqs::ordered_upto(a, before, n),
    decreases n,
{
    if n > 0 {
        lemma_kinds_prefix(a, x, before, n - 1);
    }
}

/// Puts the kind of an event among kinds that are in order.
fn insert_kind(kinds: &mut Vec<usize>, observations: &Vec<Observation>, new: usize)
    requires
        new < observations@.len(),
        forall|j: int| 0 <= j < old(kinds)@.len() ==> #[trigger] old(kinds)@[j] < observations@.len(),
    ensures
        positions(final(kinds)@) == positions(old(kinds)@).insert(
            seqs::place_of(
                positions(old(kinds)@),
                kind_order(observations@),
                new as int,
                positions(old(kinds)@).len() as int,
            ),
            new as int,
        ),
        forall|j: int|
            0 <= j < final(kinds)@.len() ==> #[trigger] final(kinds)@[j] < observations@.len(),
{
    let ghost all = positions(kinds@);
    let ghost order = kind_order(observations@);
    let mut at: usize = kinds.len();
    while at > 0 && comes_first(&observations[new], &observations[kinds[at - 1]])
        invariant
            at <= kinds@.len(),
            new < observations@.len(),
            forall|j: int| 0 <= j < kinds@.len() ==> #[trigger] kinds@[j] < observations@.len(),
            *kinds == *old(kinds),
            all == positions(kinds@),
            order == kind_order(observations@),
            seqs::place_of(all, order, new as int, at as int) == seqs::place_of(
                all,
                order,
                new as int,
                all.len() as int,
            ),
        decreases at,
    {
        assert(all[at - 1] == kinds@[at - 1]);
        at -= 1;
    }
    if at > 0 {
        assert(all[at - 1] == kinds@[at - 1]);
    }
    kinds.insert(at, new);
    assert(positions(kinds@) =~= all.insert(at as int, new as int));
}

/// The kinds of events, in order.
fn find_kinds(observations: &Vec<Observation>) -> (kinds: Vec<usize>)
    ensures
        positions(kinds@) == kinds_of(observations@),
        forall|j: int| 0 <= j < kinds@.len() ==> #[trigger] kinds@[j] < observations@.len(),
{
    let ghost order = kind_order(observations@);
    let mut kinds: Vec<usize> = Vec::new();
    assert(positions(kinds@) =~= Seq::<int>::empty());
    for i in 0..observations.len()
        invariant
            order == kind_order(observations@),
            forall|j: int| 0 <= j < kinds@.len() ==> #[trigger] kinds@[j] < observations@.len(),
            ({
                let found = kinds_upto(observations@, i as int);
                positions(kinds@) == seqs::ordered_upto(found, order, found.len() as int)
            }),
    {
        if !count_alike(observations, i).0 {
            proof {
                let found = kinds_upto(observations@, i as int);
                lemma_kinds_prefix(found, i as int, order, found.len() as int);
            }
            insert_kind(&mut kinds, observations, i);
        }
    }
    kinds
}

fn collect_rows(report: &Report) -> (rows: Vec<StageRow>)
    ensures
        rows.deep_view() == report_rows(*report),
{
    let ghost subjects = report.subjects@;
    let mut rows: Vec<StageRow> = Vec::new();
    let ghost mut all: Seq<RowModel> = Seq::empty();
    assert(rows.deep_view() =~= Seq::<RowModel>::empty());
    for i in 0..report.metrics.len()
        invariant
            subjects == report.subjects@,
            all == metric_rows_upto(subjects, report.metrics@, i as int),
            rows.deep_view() == seqs::ordered_upto(all, row_order(), all.len() as int),
    {
        let metric = &report.metrics[i];
        let value = match metric.values.delta {
            Some(delta) => if delta == 0 {
                None
            } else {
                Some(measurement_value(delta, metric.meta.descriptor.measurement.bound))
            },
            None => Some(
                if metric.values.reset {
                    owned("reset")
                } else {
                    owned("unknown")
                },
            ),
        };
        if let Some(value) = value {
            let mut evidence = owned(metric.metric_type.as_str());
            let context = evidence_context(&metric.meta.descriptor.context);
            evidence.append(context.as_str());
            let row = stage_row(&report.subjects, &metric.meta, evidence, value);
            proof {
                lemma_rows_prefix(all, row.deep_view(), all.len() as int);
                all = all.push(row.deep_view());
            }
            insert_row(&mut rows, row);
        }
    }
    let ghost metrics = all;
    let kinds = find_kinds(&report.observations);
    let ghost events = event_rows(subjects, report.observations@);
    assert(metrics + events.take(0) =~= metrics);
    for k in 0..kinds.len()
        invariant
            subjects == report.subjects@,
            events == event_rows(subjects, report.observations@),
            positions(kinds@) == kinds_of(report.observations@),
            forall|j: int| 0 <= j < kinds@.len() ==> #[trigger] kinds@[j] < report.observations@.len(),
            all == metrics + events.take(k as int),
            rows.deep_view() == seqs::ordered_upto(all, row_order(), all.len() as int),
    {
        let at: usize = kinds[k];
        assert(positions(kinds@)[k as int] == at);
        let count: usize = count_alike(&report.observations, at).1;
        let observation = &report.observations[at];
        let value = if count == 1 {
            owned("1 event")
        } else {
            let mut value = decimal_text(count as u128);
            value.append(" events");
            value
        };
        let evidence = describe_event(observation);
        let row = stage_row(&report.subjects, &observation.meta, evidence, value);
        proof {
            assert(events[k as int] == row.deep_view());
            lemma_rows_prefix(all, row.deep_view(), all.len() as int);
            all = all.push(row.deep_view());
            assert(all =~= metrics + events.take(k as int + 1));
        }
        insert_row(&mut rows, row);
    }
    assert(events.take(kinds@.len() as int) =~= events);
    rows
}

pub open spec fn path_role_word(role: Option<PathRole>) -> Seq<char> {
    match role {
        Some(role) => role.word(),
        None => "-"@,
    }
}

fn path_role_name(role: Option<PathRole>) -> (word: &'static str)
    ensures
        word@ == path_role_word(role),
{
    match role {
        Some(role) => role.as_str(),
        None => "-",
    }
}

pub open spec fn layer_widths() -> Seq<usize> {
    seq![16usize, 28usize, 16usize, 20usize, 42usize, 10usize, 14usize, 14usize]
}

pub open spec fn layer_header() -> Seq<Seq<char>> {
    seq![
        "LAYER"@,
        "STAGE"@,
        "PATH ROLE"@,
        "DOMAIN"@,
        "EVIDENCE"@,
        "VALUE"@,
        "UNIT"@,
        "FORM"@,
        "ROLE"@,
    ]
}

pub open spec fn layer_cells(row: RowModel) -> Seq<Seq<char>> {
    seq![
        layer_word(row.layer),
        row.stage,
        path_role_word(row.path_role),
        row.execution_domain,
        row.evidence,
        row.value,
        row.unit.word(),
        row.form.word(),
        row.role.word(),
    ]
}

/// Rows of a direction that are about a layer.
pub open spec fn is_layer_row(direction: StageDirection) -> spec_fn(RowModel) -> bool {
    |row: RowModel| row.direction == direction && !on_path(row)
}

/// The table of those of the first `n` rows.
pub open spec fn layer_rows_upto(rows: Seq<RowModel>, direction: StageDirection, n: int) -> Seq<char>
    decreases n,
{
    if n <= 0 {
        row_text(layer_header(), layer_widths())
    } else if is_layer_row(direction)(rows[n - 1]) {
        layer_rows_upto(rows, direction, n - 1) + row_text(
            layer_cells(rows[n - 1]),
            layer_widths(),
        )
    } else {
        layer_rows_upto(rows, direction, n - 1)
    }
}

/// The table, and whether it has a row.
fn write_layer_rows(rows: &Vec<StageRow>, direction: StageDirection) -> (result: (String, bool))
    ensures
        result.0@ == layer_rows_upto(rows.deep_view(), direction, rows.deep_view().len() as int),
        result.1 == (seqs::first_where(
            rows.deep_view(),
            is_layer_row(direction),
            rows.deep_view().len() as int,
        ) is Some),
{
    let ghost all = rows.deep_view();
    assert(all.len() == rows@.len());
    let widths: Vec<usize> = vec![16, 28, 16, 20, 42, 10, 14, 14];
    assert(widths@ =~= layer_widths());
    let words: Vec<&str> = vec![
        "LAYER",
        "STAGE",
        "PATH ROLE",
        "DOMAIN",
        "EVIDENCE",
        "VALUE",
        "UNIT",
        "FORM",
        "ROLE",
    ];
    assert(words.deep_view() =~= layer_header());
    let mut table = format_row(&cells_of(&words), &widths);
    let mut found: bool = false;
    for i in 0..rows.len()
        invariant
            all == rows.deep_view(),
            all.len() == rows@.len(),
            widths@ == layer_widths(),
            table@ == layer_rows_upto(all, direction, i as int),
            found == (seqs::first_where(all, is_layer_row(direction), i as int) is Some),
    {
        let row = &rows[i];
        assert(all[i as int] == row.deep_view());
        if row.direction == direction && !row.has_graph_metadata() {
            found = true;
            let mut cells: Vec<String> = Vec::new();
            cells.push(owned(layer_name(row.layer)));
            cells.push(owned(row.stage.as_str()));
            cells.push(owned(path_role_name(row.path_role)));
            cells.push(owned(row.execution_domain.as_str()));
            cells.push(owned(row.evidence.as_str()));
            cells.push(owned(row.value.as_str()));
            cells.push(owned(row.unit.as_str()));
            cells.push(owned(row.form.as_str()));
            cells.push(owned(row.role.as_str()));
            assert(cells.deep_view() =~= layer_cells(row.deep_view()));
            let line = format_row(&cells, &widths);
            table.append(line.as_str());
        }
    }
    (table, found)
}

pub open spec fn graph_widths() -> Seq<usize> {
    seq![16usize, 32usize, 20usize, 28usize, 28usize, 16usize, 38usize, 10usize, 14usize, 14usize]
}

pub open spec fn graph_header() -> Seq<Seq<char>> {
    seq![
        "PATH ROLE"@,
        "ENDPOINTS"@,
        "DOMAIN"@,
        "TRANSITION"@,
        "STAGE"@,
        "LAYER"@,
        "EVIDENCE"@,
        "VALUE"@,
        "UNIT"@,
        "FORM"@,
        "ROLE"@,
    ]
}

pub open spec fn graph_cells(row: RowModel) -> Seq<Seq<char>> {
    seq![
        path_role_word(row.path_role),
        endpoints_text(row.endpoints),
        row.execution_domain,
        row.transition,
        row.stage,
        layer_word(row.layer),
        row.evidence,
        row.value,
        row.unit.word(),
        row.form.word(),
        row.role.word(),
    ]
}

/// Rows of a direction that are about a step on a path.
pub open spec fn is_graph_row(direction: StageDirection) -> spec_fn(RowModel) -> bool {
    |row: RowModel| row.direction == direction && on_path(row)
}

/// The table of those of the first `n` rows.
pub open spec fn graph_rows_upto(rows: Seq<RowModel>, direction: StageDirection, n: int) -> Seq<char>
    decreases n,
{
    if n <= 0 {
        row_text(graph_header(), graph_widths())
    } else if is_graph_row(direction)(rows[n - 1]) {
        graph_rows_upto(rows, direction, n - 1) + row_text(
            graph_cells(rows[n - 1]),
            graph_widths(),
        )
    } else {
        graph_rows_upto(rows, direction, n - 1)
    }
}

/// The table, and whether it has a row.
fn write_graph_rows(rows: &Vec<StageRow>, direction: StageDirection) -> (result: (String, bool))
    ensures
        result.0@ == graph_rows_upto(rows.deep_view(), direction, rows.deep_view().len() as int),
        result.1 == (seqs::first_where(
            rows.deep_view(),
            is_graph_row(direction),
            rows.deep_view().len() as int,
        ) is Some),
{
    let ghost all = rows.deep_view();
    assert(all.len() == rows@.len());
    let widths: Vec<usize> = vec![16, 32, 20, 28, 28, 16, 38, 10, 14, 14];
    assert(widths@ =~= graph_widths());
    let words: Vec<&str> = vec![
        "PATH ROLE",
        "ENDPOINTS",
        "DOMAIN",
        "TRANSITION",
        "STAGE",
        "LAYER",
        "EVIDENCE",
        "VALUE",
        "UNIT",
        "FORM",
        "ROLE",
    ];
    assert(words.deep_view() =~= graph_header());
    let mut table = format_row(&cells_of(&words), &widths);
    let mut found: bool = false;
    for i in 0..rows.len()
        invariant
            all == rows.deep_view(),
            all.len() == rows@.len(),
            widths@ == graph_widths(),
            table@ == graph_rows_upto(all, direction, i as int),
            found == (seqs::first_where(all, is_graph_row(direction), i as int) is Some),
    {
        let row = &rows[i];
        assert(all[i as int] == row.deep_view());
        if row.direction == direction && row.has_graph_metadata() {
            found = true;
            let mut cells: Vec<String> = Vec::new();
            cells.push(owned(path_role_name(row.path_role)));
            cells.push(format_endpoints(&row.endpoints));
            cells.push(owned(row.execution_domain.as_str()));
            cells.push(owned(row.transition.as_str()));
            cells.push(owned(row.stage.as_str()));
            cells.push(owned(layer_name(row.layer)));
            cells.push(owned(row.evidence.as_str()));
            cells.push(owned(row.value.as_str()));
            cells.push(owned(row.unit.as_str()));
            cells.push(owned(row.form.as_str()));
            cells.push(owned(row.role.as_str()));
            assert(cells.deep_view() =~= graph_cells(row.deep_view()));
            let line = format_row(&cells, &widths);
            table.append(line.as_str());
        }
    }
    (table, found)
}

/// The evidence of one direction.
pub open spec fn direction_text(rows: Seq<RowModel>, direction: StageDirection) -> Seq<char> {
    let n = rows.len() as int;
    let layers = "\n"@ + direction.evidence_words() + "\n"@ + if seqs::first_where(
        rows,
        is_layer_row(direction),
        n,
    ) is None {
        "  No stored layer-scoped evidence in this window.\n"@
    } else {
        layer_rows_upto(rows, direction, n)
    };
    if seqs::first_where(rows, is_graph_row(direction), n) is None {
        layers
    } else {
        layers + "\n"@ + direction.path_words() + "\n"@ + graph_rows_upto(rows, direction, n)
    }
}

fn write_direction(rows: &Vec<StageRow>, direction: StageDirection) -> (result: String)
    ensures
        result@ == direction_text(rows.deep_view(), direction),
{
    let (layers, has_layers) = write_layer_rows(rows, direction);
    let (graph, has_graph) = write_graph_rows(rows, direction);
    let mut result = owned("\n");
    result.append(direction.evidence_title());
    result.append("\n");
    if has_layers {
        result.append(layers.as_str());
    } else {
        result.append("  No stored layer-scoped evidence in this window.\n");
    }
    if has_graph {
        result.append("\n");
        result.append(direction.path_title());
        result.append("\n");
        result.append(graph.as_str());
    }
    result
}

/// The evidence of a report, by direction.
pub open spec fn evidence_text(rows: Seq<RowModel>) -> Seq<char> {
    direction_text(rows, StageDirection::Rx) + direction_text(rows, StageDirection::Tx)
        + direction_text(rows, StageDirection::Unresolved)
}

fn write_report_stages(report: &Report) -> (result: String)
    ensures
        result@ == evidence_text(report_rows(*report)),
{
    let rows = collect_rows(report);
    let mut result = write_direction(&rows, StageDirection::Rx);
    let tx = write_direction(&rows, StageDirection::Tx);
    let unresolved = write_direction(&rows, StageDirection::Unresolved);
    result.append(tx.as_str());
    result.append(unresolved.as_str());
    result
}

/// What was asked for, in two lines.
pub open spec fn request_text(report: Report) -> Seq<char> {
    let requested = report.scope.requested;
    "Window: "@ + text::decimal(report.duration_ms as nat) + " ms  Interface anchor: "@
        + interface_text(requested.interface_path) + "  Namespace: "@ + text_or(
        requested.network_namespace,
        "current (identity unknown)"@,
    ) + "  Direction: "@ + any_direction(requested.direction) + "\n"@ + "Layers: "@ + joined(
        layer_words(requested.layers@),
        ","@,
    ) + "  Flow: "@ + flow_text(requested.flow) + "\n"@ + "\nProvider scopes\n"@
}

fn format_request(report: &Report) -> (result: String)
    ensures
        result@ == request_text(*report),
{
    let requested = &report.scope.requested;
    let interface = requested_interface(&requested.interface_path);
    let layers = join_layers(&requested.layers);
    let flow = flow_filter(&requested.flow);
    let mut result = owned("Window: ");
    push_decimal(&mut result, report.duration_ms as u128);
    result.append(" ms  Interface anchor: ");
    result.append(interface.as_str());
    result.append("  Namespace: ");
    result.append(or_else(&requested.network_namespace, "current (identity unknown)"));
    result.append("  Direction: ");
    result.append(direction_or_any(requested.direction));
    result.append("\n");
    result.append("Layers: ");
    result.append(layers.as_str());
    result.append("  Flow: ");
    result.append(flow.as_str());
    result.append("\n");
    result.append("\nProvider scopes\n");
    result
}

/// What a source really looked at.
pub open spec fn effective_text(effective: Option<EffectiveScope>) -> Seq<char> {
    match effective {
        None => "unavailable"@,
        Some(scope) => "layers="@ + joined(layer_words(scope.layers@), ","@) + " namespace="@
            + namespace_text(scope.network_namespace) + " interface="@ + interface_scope_text(
            scope.interface_scope,
        ) + " direction="@ + any_direction(scope.direction) + " flow="@ + flow_text(scope.flow),
    }
}

fn format_effective(effective: &Option<EffectiveScope>) -> (result: String)
    ensures
        result@ == effective_text(*effective),
{
    match effective {
        None => owned("unavailable"),
        Some(scope) => {
            let layers = join_layers(&scope.layers);
            let namespace = effective_namespace(&scope.network_namespace);
            let interface = effective_interface(&scope.interface_scope);
            let flow = flow_filter(&scope.flow);
            let mut result = owned("layers=");
            result.append(layers.as_str());
            result.append(" namespace=");
            result.append(namespace.as_str());
            result.append(" interface=");
            result.append(interface.as_str());
            result.append(" direction=");
            result.append(direction_or_any(scope.direction));
            result.append(" flow=");
            result.append(flow.as_str());
            result
        },
    }
}

pub open spec fn scope_text(provider: ProviderScope) -> Seq<char> {
    "  "@ + provider.provider@ + "  effective: "@ + effective_text(provider.effective)
        + "  support: "@ + support_text(provider.filter_support) + "\n"@
}

/// The scopes of the first `n` sources.
pub open spec fn scopes_upto(report: Report, n: int) -> Seq<char>
    decreases n,
{
    if n <= 0 {
        request_text(report)
    } else {
        scopes_upto(report, n - 1) + scope_text(report.scope.providers@[n - 1])
    }
}

fn format_scopes(report: &Report) -> (result: String)
    ensures
        result@ == scopes_upto(*report, report.scope.providers@.len() as int),
{
    let mut result = format_request(report);
    for i in 0..report.scope.providers.len()
        invariant
            result@ == scopes_upto(*report, i as int),
    {
        let provider = &report.scope.providers[i];
        let effective = format_effective(&provider.effective);
        let support = filter_support(&provider.filter_support);
        let mut line = owned("  ");
        line.append(provider.provider.as_str());
        line.append("  effective: ");
        line.append(effective.as_str());
        line.append("  support: ");
        line.append(support.as_str());
        line.append("\n");
        result.append(line.as_str());
    }
    result
}

pub open spec fn finding_text(finding: Finding) -> Seq<char> {
    "  ["@ + padded(finding.severity.word(), 7) + "] "@ + padded(layer_word(finding.layer), 12)
        + " "@ + padded(finding.confidence.word(), 10) + " "@ + measured(
        finding.count,
        finding.descriptor.measurement.bound,
    ) + "  "@ + finding.title@ + "\n"@ + "            "@ + finding.summary@ + "\n"@
}

/// The first `n` findings.
pub open spec fn findings_upto(findings: Seq<Finding>, n: int) -> Seq<char>
    decreases n,
{
    if n <= 0 {
        "\nFindings\n"@
    } else {
        findings_upto(findings, n - 1) + finding_text(findings[n - 1])
    }
}

pub open spec fn findings_text(findings: Seq<Finding>) -> Seq<char> {
    if findings.len() == 0 {
        "\nFindings\n"@ + "  No anomaly counters increased in the covered sources.\n"@
    } else {
        findings_upto(findings, findings.len() as int)
    }
}

fn format_findings(findings: &Vec<Finding>) -> (result: String)
    ensures
        result@ == findings_text(findings@),
{
    let mut result = owned("\nFindings\n");
    if findings.len() == 0 {
        result.append("  No anomaly counters increased in the covered sources.\n");
        return result;
    }
    for i in 0..findings.len()
        invariant
            result@ == findings_upto(findings@, i as int),
    {
        let finding = &findings[i];
        let severity = pad(finding.severity.as_str(), 7);
        let layer = pad(layer_name(finding.layer), 12);
        let confidence = pad(finding.confidence.as_str(), 10);
        let count = measurement_value(finding.count, finding.descriptor.measurement.bound);
        let mut line = owned("  [");
        line.append(severity.as_str());
        line.append("] ");
        line.append(layer.as_str());
        line.append(" ");
        line.append(confidence.as_str());
        line.append(" ");
        line.append(count.as_str());
        line.append("  ");
        line.append(finding.title.as_str());
        line.append("\n");
        line.append("            ");
        line.append(finding.summary.as_str());
        line.append("\n");
        result.append(line.as_str());
    }
    result
}

pub open spec fn totals_text(telemetry: Telemetry) -> Seq<char> {
    "  bpf seen/output-lost: "@ + total_text(telemetry.totals.bpf_events_seen) + "/"@
        + total_text(telemetry.totals.bpf_output_lost) + "  transport received/lost: "@
        + total_text(telemetry.totals.transport_events_received) + "/"@
        + total_text(telemetry.totals.transport_events_lost) + "  user dropped: "@
        + total_text(telemetry.totals.user_events_dropped) + "  netlink loss events: "@
        + total_text(telemetry.totals.netlink_loss_events) + "  interrupted dumps: "@
        + total_text(telemetry.totals.netlink_dump_interruptions) + "  parse errors: "@
        + total_text(telemetry.totals.parse_errors) + "  sampling: "@
        + sampling_text(telemetry.sampling) + "\n"@
}

fn format_totals(telemetry: &Telemetry) -> (result: String)
    ensures
        result@ == totals_text(*telemetry),
{
    let mut result = owned("  bpf seen/output-lost: ");
    let bpf_events_seen = bounded_total(&telemetry.totals.bpf_events_seen);
    result.append(bpf_events_seen.as_str());
    result.append("/");
    let bpf_output_lost = bounded_total(&telemetry.totals.bpf_output_lost);
    result.append(bpf_output_lost.as_str());
    result.append("  transport received/lost: ");
    let transport_events_received = bounded_total(&telemetry.totals.transport_events_received);
    result.append(transport_events_received.as_str());
    result.append("/");
    let transport_events_lost = bounded_total(&telemetry.totals.transport_events_lost);
    result.append(transport_events_lost.as_str());
    result.append("  user dropped: ");
    let user_events_dropped = bounded_total(&telemetry.totals.user_events_dropped);
    result.append(user_events_dropped.as_str());
    result.append("  netlink loss events: ");
    let netlink_loss_events = bounded_total(&telemetry.totals.netlink_loss_events);
    result.append(netlink_loss_events.as_str());
    result.append("  interrupted dumps: ");
    let netlink_dump_interruptions = bounded_total(&telemetry.totals.netlink_dump_interruptions);
    result.append(netlink_dump_interruptions.as_str());
    result.append("  parse errors: ");
    let parse_errors = bounded_total(&telemetry.totals.parse_errors);
    result.append(parse_errors.as_str());
    let sampled = sampling(&telemetry.sampling);
    result.append("  sampling: ");
    result.append(sampled.as_str());
    result.append("\n");
    result
}

pub open spec fn provider_telemetry_text(provider: ProviderTelemetry) -> Seq<char> {
    "  provider "@ + provider.provider@ + "\n"@ + "    bpf seen/output-lost: "@
        + status_text(provider.counters.bpf_events_seen) + "/"@
        + status_text(provider.counters.bpf_output_lost) + "  transport received/lost: "@
        + status_text(provider.counters.transport_events_received) + "/"@
        + status_text(provider.counters.transport_events_lost) + "  user dropped: "@
        + status_text(provider.counters.user_events_dropped) + "\n    netlink loss/dumps: "@
        + status_text(provider.counters.netlink_loss_events) + "/"@
        + status_text(provider.counters.netlink_dump_interruptions) + "  parse errors: "@
        + status_text(provider.counters.parse_errors) + "  sampling: "@
        + sampling_text(provider.sampling) + "\n"@
}

fn format_provider_telemetry(provider: &ProviderTelemetry) -> (result: String)
    ensures
        result@ == provider_telemetry_text(*provider),
{
    let mut result = owned("  provider ");
    result.append(provider.provider.as_str());
    result.append("\n");
    result.append("    bpf seen/output-lost: ");
    let bpf_events_seen = counter_status(&provider.counters.bpf_events_seen);
    result.append(bpf_events_seen.as_str());
    result.append("/");
    let bpf_output_lost = counter_status(&provider.counters.bpf_output_lost);
    result.append(bpf_output_lost.as_str());
    result.append("  transport received/lost: ");
    let transport_events_received = counter_status(&provider.counters.transport_events_received);
    result.append(transport_events_received.as_str());
    result.append("/");
    let transport_events_lost = counter_status(&provider.counters.transport_events_lost);
    result.append(transport_events_lost.as_str());
    result.append("  user dropped: ");
    let user_events_dropped = counter_status(&provider.counters.user_events_dropped);
    result.append(user_events_dropped.as_str());
    result.append("\n    netlink loss/dumps: ");
    let netlink_loss_events = counter_status(&provider.counters.netlink_loss_events);
    result.append(netlink_loss_events.as_str());
    result.append("/");
    let netlink_dump_interruptions = counter_status(&provider.counters.netlink_dump_interruptions);
    result.append(netlink_dump_interruptions.as_str());
    result.append("  parse errors: ");
    let parse_errors = counter_status(&provider.counters.parse_errors);
    result.append(parse_errors.as_str());
    let sampled = sampling(&provider.sampling);
    result.append("  sampling: ");
    result.append(sampled.as_str());
    result.append("\n");
    result
}

/// The telemetry of the first `n` sources, after the totals.
pub open spec fn telemetry_upto(telemetry: Telemetry, n: int) -> Seq<char>
    decreases n,
{
    if n <= 0 {
        "\nTelemetry\n"@ + totals_text(telemetry)
    } else {
        telemetry_upto(telemetry, n - 1) + provider_telemetry_text(telemetry.providers@[n - 1])
    }
}

/// The telemetry with the first `n` errors.
pub open spec fn errors_upto(telemetry: Telemetry, n: int) -> Seq<char>
    decreases n,
{
    if n <= 0 {
        telemetry_upto(telemetry, telemetry.providers@.len() as int)
    } else {
        errors_upto(telemetry, n - 1) + ("  collector "@ + telemetry.collection_errors@[n
            - 1].provider@ + ": "@ + telemetry.collection_errors@[n - 1].message@ + "\n"@)
    }
}

fn format_telemetry(telemetry: &Telemetry) -> (result: String)
    ensures
        result@ == errors_upto(*telemetry, telemetry.collection_errors@.len() as int),
{
    let mut result = owned("\nTelemetry\n");
    let totals = format_totals(telemetry);
    result.append(totals.as_str());
    for i in 0..telemetry.providers.len()
        invariant
            result@ == telemetry_upto(*telemetry, i as int),
    {
        let lines = format_provider_telemetry(&telemetry.providers[i]);
        result.append(lines.as_str());
    }
    for i in 0..telemetry.collection_errors.len()
        invariant
            result@ == errors_upto(*telemetry, i as int),
    {
        let error = &telemetry.collection_errors[i];
        let mut line = owned("  collector ");
        line.append(error.provider.as_str());
        line.append(": ");
        line.append(error.message.as_str());
        line.append("\n");
        result.append(line.as_str());
    }
    result
}

/// A report as text: what was asked for, what the sources looked at, the evidence by
/// direction, the findings, the coverage, and what the sources report of themselves.
pub open spec fn report_text(report: Report) -> Seq<char> {
    scopes_upto(report, report.scope.providers@.len() as int) + evidence_text(
        report_rows(report),
    ) + findings_text(report.findings@) + ("\nObservations: "@ + text::decimal(
        report.observations@.len(),
    ) + " stored\n"@) + coverage_text(report.capabilities) + errors_upto(
        report.telemetry,
        report.telemetry.collection_errors@.len() as int,
    )
}

/// A report as text. A report that is not valid is refused; `checked` is what validating
/// it gave.
pub fn report_table(report: &Report, checked: Result<(), String>) -> (table: Result<
    String,
    String,
>)
    ensures
        match (checked, table) {
            (Ok(()), Ok(text)) => text@ == report_text(*report),
            (Err(why), Err(words)) => words@ == "validate report before table output: "@ + why@,
            _ => false,
        },
{
    match checked {
        Ok(()) => Ok(format_report(report)),
        Err(why) => Err(refuse("validate report before table output: ", why.as_str())),
    }
}

fn format_report(report: &Report) -> (table: String)
    ensures
        table@ == report_text(*report),
{
    let mut table = format_scopes(report);
    let stages = write_report_stages(report);
    let findings = format_findings(&report.findings);
    let mut observations = owned("\nObservations: ");
    push_decimal(&mut observations, report.observations.len() as u128);
    observations.append(" stored\n");
    let coverage = write_coverage(&report.capabilities);
    let telemetry = format_telemetry(&report.telemetry);
    table.append(stages.as_str());
    table.append(findings.as_str());
    table.append(observations.as_str());
    table.append(coverage.as_str());
    table.append(telemetry.as_str());
    table
}

} // verus!
