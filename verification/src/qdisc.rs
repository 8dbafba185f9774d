//! Queueing disciplines: the statistics of every row that has a direction, as
//! readings of one provider.
use crate::attachment;
use crate::attachment::attachment_text;
use crate::catalog::{CatalogModel, MetricCatalog, ProviderSample, SampleModel};
use crate::diagnostics;
use crate::diagnostics::{error_sample, explain, provider_sample, AttemptError};
use crate::engine::MAX_ADMITTED_SERIES;
use crate::model;
use crate::model::{
    entry, CounterBits, KeyModel, Label, LabelsModel, MetricKind, MetricLabel, MetricLabels,
    MetricReading, MonitorErrorCode, MonitorValidationError, ProviderHealth, ReadingModel,
    ReadingOutcome, SampleReading, UnavailableReason,
};
use crate::rows;
use crate::rows::{RowIdentity, RowIds};
use crate::seqs;
use crate::text;
use crate::text::{copy_option, decimal_text, owned, push_decimal, same_option, same_text};
use crate::translate::CollectionTiming;
use vstd::prelude::*;
use vstd::string::*;

verus! {

pub const TC_JSON: &'static str = "linux.tc.json";

pub const TC_NETLINK: &'static str = "linux.rtnetlink.tc";

/// How many readings a row has at most.
pub const QDISC_METRICS_PER_ROW: usize = 13;

/// How many rows a session can number.
pub const MAX_QDISC_ROW_IDS: usize = MAX_ADMITTED_SERIES / QDISC_METRICS_PER_ROW;

#[derive(Clone, Copy, Debug, PartialEq, Eq, Structural)]
pub enum QdiscDirection {
    Ingress,
    Egress,
}

/// What makes a row the same row in the next collection: the interface, the kind,
/// and where the discipline is attached.
#[derive(Clone, Debug, PartialEq, Eq)]
pub struct QdiscIdentity<T> {
    pub ifindex: u32,
    pub kind: T,
    pub root: bool,
    pub handle: T,
    pub parent: Option<T>,
}

impl DeepView for QdiscIdentity<String> {
    type V = QdiscIdentity<Seq<char>>;

    open spec fn deep_view(&self) -> QdiscIdentity<Seq<char>> {
        QdiscIdentity {
            ifindex: self.ifindex,
            kind: self.kind@,
            root: self.root,
            handle: self.handle@,
            parent: text::optional_text(self.parent),
        }
    }
}

impl RowIdentity for QdiscIdentity<String> {
    fn same(&self, other: &Self) -> (same: bool) {
        same_option(&self.parent, &other.parent) && self.ifindex == other.ifindex && self.root
            == other.root && same_text(
            self.kind.as_str(),
            other.kind.as_str(),
        ) && same_text(self.handle.as_str(), other.handle.as_str())
    }
}

impl QdiscIdentity<String> {
    pub fn copy(&self) -> (copy: QdiscIdentity<String>)
        ensures
            copy.deep_view() == self.deep_view(),
    {
        QdiscIdentity {
            ifindex: self.ifindex,
            kind: owned(self.kind.as_str()),
            root: self.root,
            handle: owned(self.handle.as_str()),
            parent: copy_option(&self.parent),
        }
    }
}

/// How many bits a counter has, where that is known.
#[derive(Clone, Copy, Debug, PartialEq, Eq, Structural)]
pub struct QdiscCounterBits {
    pub packets: Option<u8>,
    pub bytes: Option<u8>,
    pub drops: Option<u8>,
    pub overlimits: Option<u8>,
    pub requeues: Option<u8>,
}

/// One queueing discipline with its statistics.
#[derive(Clone, Debug, PartialEq, Eq)]
pub struct QdiscRow {
    pub interface: String,
    pub identity: QdiscIdentity<String>,
    pub direction: Option<QdiscDirection>,
    pub packets: Option<u64>,
    pub bytes: Option<u64>,
    pub drops: Option<u64>,
    pub overlimits: Option<u64>,
    pub requeues: Option<u64>,
    pub counter_bits: QdiscCounterBits,
    pub backlog_bytes: Option<u64>,
    pub backlog_packets: Option<u64>,
    pub max_packet_bytes: Option<u32>,
    pub drop_overlimit: Option<u32>,
    pub new_flow_count: Option<u32>,
    pub ecn_marks: Option<u32>,
    pub new_flows_len: Option<u32>,
    pub old_flows_len: Option<u32>,
}

pub open spec fn direction_label(direction: QdiscDirection) -> Seq<char> {
    match direction {
        QdiscDirection::Ingress => "ingress"@,
        QdiscDirection::Egress => "egress"@,
    }
}

pub open spec fn entry_of(label: MetricLabel, value: Seq<char>) -> Label<Seq<char>> {
    Label { label, value }
}

/// The labels of a row.
pub open spec fn row_entries(
    row: QdiscRow,
    direction: QdiscDirection,
    id: nat,
    attachment: Seq<char>,
) -> Seq<Label<Seq<char>>> {
    seq![
        entry_of(MetricLabel::Interface, row.interface@),
        entry_of(MetricLabel::Ifindex, text::decimal(row.identity.ifindex as nat)),
        entry_of(MetricLabel::Direction, direction_label(direction)),
        entry_of(MetricLabel::ObjectKind, "qdisc"@),
        entry_of(MetricLabel::QdiscKind, row.identity.kind@),
        entry_of(MetricLabel::RowId, text::decimal(id)),
        entry_of(MetricLabel::Execution, "software"@),
        entry_of(MetricLabel::QdiscAttachment, attachment),
    ]
}

/// The labels of a row whose attachment is written as `attachment`.
pub fn qdisc_labels(
    row: &QdiscRow,
    direction: QdiscDirection,
    id: u64,
    attachment: &str,
) -> (result: Result<MetricLabels, MonitorValidationError>)
    ensures
        model::labels_of(row_entries(*row, direction, id as nat, attachment@)) == match result {
            Ok(labels) => Ok(labels.deep_view()),
            Err(error) => Err(error),
        },
        result matches Ok(labels) ==> labels.wf(),
{
    let ifindex = decimal_text(row.identity.ifindex as u128);
    let id_text = decimal_text(id as u128);
    let direction_text = match direction {
        QdiscDirection::Ingress => "ingress",
        QdiscDirection::Egress => "egress",
    };
    let mut entries: Vec<Label<String>> = Vec::new();
    entries.push(entry(MetricLabel::Interface, row.interface.as_str()));
    entries.push(entry(MetricLabel::Ifindex, ifindex.as_str()));
    entries.push(entry(MetricLabel::Direction, direction_text));
    entries.push(entry(MetricLabel::ObjectKind, "qdisc"));
    entries.push(entry(MetricLabel::QdiscKind, row.identity.kind.as_str()));
    entries.push(entry(MetricLabel::RowId, id_text.as_str()));
    entries.push(entry(MetricLabel::Execution, "software"));
    entries.push(entry(MetricLabel::QdiscAttachment, attachment));
    assert(entries.deep_view() =~= row_entries(*row, direction, id as nat, attachment@));
    MetricLabels::new(entries)
}

/// A failed translation: the class of the failure, and what it says.
pub type Failure = (MonitorErrorCode, Seq<char>);

/// What is said of a statistic that is neither a counter nor a gauge.
pub const NO_STATES: &'static str = "qdisc adapter cannot construct state readings";

/// The reading of a statistic; one that was not reported has no value.
pub open spec fn statistic(
    metric: Seq<char>,
    labels: LabelsModel,
    value: Option<u64>,
    kind: MetricKind,
    bits: Option<CounterBits>,
) -> Result<ReadingModel, Failure> {
    let key = KeyModel { metric, labels };
    match (value, kind) {
        (None, _) => Ok(
            ReadingModel {
                key,
                outcome: ReadingOutcome::Unavailable(UnavailableReason::Missing),
            },
        ),
        (Some(value), MetricKind::Counter) => Ok(
            ReadingModel {
                key,
                outcome: ReadingOutcome::Observed(MetricReading::Counter { value, bits }),
            },
        ),
        (Some(value), MetricKind::Gauge) => Ok(
            ReadingModel { key, outcome: ReadingOutcome::Observed(MetricReading::Gauge(value)) },
        ),
        (Some(_), MetricKind::State) => Err((MonitorErrorCode::Internal, NO_STATES@)),
    }
}

pub fn qdisc_reading(
    metric: &str,
    labels: &MetricLabels,
    value: Option<u64>,
    kind: MetricKind,
    bits: Option<CounterBits>,
) -> (result: Result<SampleReading, AttemptError>)
    ensures
        statistic(metric@, labels.deep_view(), value, kind, bits) == match result {
            Ok(reading) => Ok(reading.deep_view()),
            Err(error) => Err((error.code, error.message@)),
        },
{
    let value: u64 = match value {
        None => {
            return Ok(
                SampleReading::unavailable(
                    owned(metric),
                    labels.copy(),
                    UnavailableReason::Missing,
                ),
            );
        },
        Some(value) => value,
    };
    let reading = match kind {
        MetricKind::Counter => MetricReading::Counter { value, bits },
        MetricKind::Gauge => MetricReading::Gauge(value),
        MetricKind::State => {
            return Err(AttemptError::internal(owned(NO_STATES)));
        },
    };
    Ok(SampleReading::observed(owned(metric), labels.copy(), reading))
}

pub open spec fn counter(
    metric: Seq<char>,
    labels: LabelsModel,
    value: Option<u64>,
    bits: Option<CounterBits>,
) -> ReadingModel {
    statistic(metric, labels, value, MetricKind::Counter, bits)->Ok_0
}

pub open spec fn gauge(metric: Seq<char>, labels: LabelsModel, value: Option<u64>) -> ReadingModel {
    statistic(metric, labels, value, MetricKind::Gauge, None)->Ok_0
}

fn push_counter(
    readings: &mut Vec<SampleReading>,
    metric: &str,
    labels: &MetricLabels,
    value: Option<u64>,
    bits: Option<CounterBits>,
)
    ensures
        final(readings).deep_view() == old(readings).deep_view().push(
            counter(metric@, labels.deep_view(), value, bits),
        ),
{
    if let Ok(reading) = qdisc_reading(metric, labels, value, MetricKind::Counter, bits) {
        let ghost before = *readings;
        readings.push(reading);
        proof {
            seqs::lemma_deep_push(before, *readings);
        }
    }
}

fn push_gauge(
    readings: &mut Vec<SampleReading>,
    metric: &str,
    labels: &MetricLabels,
    value: Option<u64>,
)
    ensures
        final(readings).deep_view() == old(readings).deep_view().push(
            gauge(metric@, labels.deep_view(), value),
        ),
{
    if let Ok(reading) = qdisc_reading(metric, labels, value, MetricKind::Gauge, None) {
        let ghost before = *readings;
        readings.push(reading);
        proof {
            seqs::lemma_deep_push(before, *readings);
        }
    }
}

/// A counter width that is known.
pub open spec fn known_bits(bits: Option<u8>) -> Option<CounterBits> {
    match bits {
        Some(bits) => if bits == 32 {
            Some(CounterBits::Bits32)
        } else if bits == 64 {
            Some(CounterBits::Bits64)
        } else {
            None
        },
        None => None,
    }
}

fn counter_bits(bits: Option<u8>) -> (known: Option<CounterBits>)
    ensures
        known == known_bits(bits),
{
    match bits {
        Some(bits) => if bits == 32 {
            Some(CounterBits::Bits32)
        } else if bits == 64 {
            Some(CounterBits::Bits64)
        } else {
            None
        },
        None => None,
    }
}

pub open spec fn widened(value: Option<u32>) -> Option<u64> {
    match value {
        Some(value) => Some(value as u64),
        None => None,
    }
}

fn widen(value: Option<u32>) -> (wide: Option<u64>)
    ensures
        wide == widened(value),
{
    match value {
        Some(value) => Some(value as u64),
        None => None,
    }
}

/// The statistics that every discipline has.
pub open spec fn basic_statistics(row: QdiscRow, labels: LabelsModel) -> Seq<ReadingModel> {
    seq![
        counter("linux.tc.packets"@, labels, row.packets, known_bits(row.counter_bits.packets)),
        counter("linux.tc.bytes"@, labels, row.bytes, known_bits(row.counter_bits.bytes)),
        counter("linux.tc.drops"@, labels, row.drops, known_bits(row.counter_bits.drops)),
        counter("linux.tc.overlimits"@, labels, row.overlimits, known_bits(row.counter_bits.overlimits)),
        counter("linux.tc.requeues"@, labels, row.requeues, known_bits(row.counter_bits.requeues)),
        gauge("linux.tc.backlog_bytes"@, labels, row.backlog_bytes),
        gauge("linux.tc.backlog_packets"@, labels, row.backlog_packets),
    ]
}

/// The statistics that only some disciplines have.
pub open spec fn extended_statistics(row: QdiscRow, labels: LabelsModel) -> Seq<ReadingModel> {
    let bits = Some(CounterBits::Bits32);
    seq![
        counter("linux.tc.drop_overlimit"@, labels, widened(row.drop_overlimit), bits),
        counter("linux.tc.new_flow_count"@, labels, widened(row.new_flow_count), bits),
        counter("linux.tc.ecn_marks"@, labels, widened(row.ecn_marks), bits),
        gauge("linux.tc.max_packet_bytes"@, labels, widened(row.max_packet_bytes)),
        gauge("linux.tc.new_flows_len"@, labels, widened(row.new_flows_len)),
        gauge("linux.tc.old_flows_len"@, labels, widened(row.old_flows_len)),
    ]
}

/// Whether a row has the statistics that only some disciplines have: `fq_codel`
/// always does, also where none was reported.
pub open spec fn is_extended(row: QdiscRow) -> bool {
    ||| row.identity.kind@ == "fq_codel"@
    ||| row.max_packet_bytes is Some
    ||| row.drop_overlimit is Some
    ||| row.new_flow_count is Some
    ||| row.ecn_marks is Some
    ||| row.new_flows_len is Some
    ||| row.old_flows_len is Some
}

/// The readings of a row.
pub open spec fn row_statistics(row: QdiscRow, labels: LabelsModel) -> Seq<ReadingModel> {
    if is_extended(row) {
        basic_statistics(row, labels) + extended_statistics(row, labels)
    } else {
        basic_statistics(row, labels)
    }
}

/// The readings of a row with these labels.
pub fn translate_row(row: &QdiscRow, labels: &MetricLabels) -> (readings: Vec<SampleReading>)
    ensures
        readings.deep_view() == row_statistics(*row, labels.deep_view()),
        readings@.len() <= QDISC_METRICS_PER_ROW,
{
    let mut readings: Vec<SampleReading> = Vec::new();
    assert(readings.deep_view() =~= Seq::<ReadingModel>::empty());
    let ghost shown = labels.deep_view();
    push_counter(
        &mut readings,
        "linux.tc.packets",
        labels,
        row.packets,
        counter_bits(row.counter_bits.packets),
    );
    push_counter(
        &mut readings,
        "linux.tc.bytes",
        labels,
        row.bytes,
        counter_bits(row.counter_bits.bytes),
    );
    push_counter(
        &mut readings,
        "linux.tc.drops",
        labels,
        row.drops,
        counter_bits(row.counter_bits.drops),
    );
    push_counter(
        &mut readings,
        "linux.tc.overlimits",
        labels,
        row.overlimits,
        counter_bits(row.counter_bits.overlimits),
    );
    push_counter(
        &mut readings,
        "linux.tc.requeues",
        labels,
        row.requeues,
        counter_bits(row.counter_bits.requeues),
    );
    push_gauge(&mut readings, "linux.tc.backlog_bytes", labels, row.backlog_bytes);
    push_gauge(&mut readings, "linux.tc.backlog_packets", labels, row.backlog_packets);
    assert(readings.deep_view() =~= basic_statistics(*row, shown));
    if same_text(row.identity.kind.as_str(), "fq_codel") || row.max_packet_bytes.is_some()
        || row.drop_overlimit.is_some() || row.new_flow_count.is_some() || row.ecn_marks.is_some()
        || row.new_flows_len.is_some() || row.old_flows_len.is_some() {
        let bits = Some(CounterBits::Bits32);
        push_counter(&mut readings, "linux.tc.drop_overlimit", labels, widen(row.drop_overlimit), bits);
        push_counter(&mut readings, "linux.tc.new_flow_count", labels, widen(row.new_flow_count), bits);
        push_counter(&mut readings, "linux.tc.ecn_marks", labels, widen(row.ecn_marks), bits);
        push_gauge(&mut readings, "linux.tc.max_packet_bytes", labels, widen(row.max_packet_bytes));
        push_gauge(&mut readings, "linux.tc.new_flows_len", labels, widen(row.new_flows_len));
        push_gauge(&mut readings, "linux.tc.old_flows_len", labels, widen(row.old_flows_len));
        assert(readings.deep_view() =~= basic_statistics(*row, shown) + extended_statistics(
            *row,
            shown,
        ));
    }
    assert(readings.deep_view().len() == readings@.len());
    readings
}

/// What is said when no further row can be numbered.
pub open spec fn history_words() -> Seq<char> {
    "qdisc identity history exceeds the "@ + text::decimal(MAX_QDISC_ROW_IDS as nat)
        + "-row session limit"@
}

pub open spec fn attachment_of(row: QdiscRow) -> Seq<char> {
    attachment::json_triple(
        row.identity.root,
        row.identity.handle@,
        text::optional_text(row.identity.parent),
    )
}

/// The numbered rows after the first `n` rows, and their readings. Rows without a
/// direction are left out; the first row that cannot be shown ends the translation.
pub open spec fn rows_upto(
    known: Seq<QdiscIdentity<Seq<char>>>,
    rows: Seq<QdiscRow>,
    n: int,
) -> (Seq<QdiscIdentity<Seq<char>>>, Result<Seq<ReadingModel>, Failure>)
    decreases n,
{
    if n <= 0 {
        (known, Ok(Seq::empty()))
    } else {
        let (before, result) = rows_upto(known, rows, n - 1);
        let row = rows[n - 1];
        match (result, row.direction) {
            (Err(failure), _) => (before, Err(failure)),
            (Ok(shown), None) => (before, Ok(shown)),
            (Ok(shown), Some(direction)) => {
                let (after, id) = rows::numbered(
                    before,
                    row.identity.deep_view(),
                    MAX_QDISC_ROW_IDS as nat,
                );
                match id {
                    None => (after, Err((MonitorErrorCode::CardinalityLimit, history_words()))),
                    Some(id) => match model::labels_of(
                        row_entries(row, direction, id, attachment_of(row)),
                    ) {
                        Err(error) => (
                            after,
                            Err((MonitorErrorCode::Internal, diagnostics::explanation(error))),
                        ),
                        Ok(labels) => (after, Ok(shown + row_statistics(row, labels))),
                    },
                }
            },
        }
    }
}

/// The numbered rows after a translation, and the readings of all rows.
pub open spec fn qdisc_readings(known: Seq<QdiscIdentity<Seq<char>>>, rows: Seq<QdiscRow>) -> (
    Seq<QdiscIdentity<Seq<char>>>,
    Result<Seq<ReadingModel>, Failure>,
) {
    rows_upto(known, rows, rows.len() as int)
}

proof fn lemma_failure_stays(
    known: Seq<QdiscIdentity<Seq<char>>>,
    rows: Seq<QdiscRow>,
    m: int,
    n: int,
)
    requires
        m <= n,
        rows_upto(known, rows, m).1 is Err,
    ensures
        rows_upto(known, rows, n) == rows_upto(known, rows, m),
    decreases n - m,
{
    if m < n {
        lemma_failure_stays(known, rows, m, n - 1);
    }
}

proof fn lemma_rows_upto_keep(known: Seq<QdiscIdentity<Seq<char>>>, rows: Seq<QdiscRow>, n: int)
    requires
        rows::rows_valid(known, MAX_QDISC_ROW_IDS as nat),
    ensures
        rows::keeps_rows(known, rows_upto(known, rows, n).0),
        rows::rows_valid(rows_upto(known, rows, n).0, MAX_QDISC_ROW_IDS as nat),
    decreases n,
{
    if n > 0 {
        lemma_rows_upto_keep(known, rows, n - 1);
        let before = rows_upto(known, rows, n - 1).0;
        let identity = rows[n - 1].identity.deep_view();
        rows::numbers_are_stable_and_distinct(
            before,
            identity,
            identity,
            MAX_QDISC_ROW_IDS as nat,
        );
        rows::lemma_keeps_rows_chain(
            known,
            before,
            rows::numbered(before, identity, MAX_QDISC_ROW_IDS as nat).0,
        );
    }
}

/// A row keeps its number from one collection to the next, in whatever order the
/// rows come and whichever backend reported them.
pub proof fn rows_keep_their_numbers(
    known: Seq<QdiscIdentity<Seq<char>>>,
    rows: Seq<QdiscRow>,
)
    requires
        rows::rows_valid(known, MAX_QDISC_ROW_IDS as nat),
    ensures
        rows::keeps_rows(known, qdisc_readings(known, rows).0),
        rows::rows_valid(qdisc_readings(known, rows).0, MAX_QDISC_ROW_IDS as nat),
{
    lemma_rows_upto_keep(known, rows, rows.len() as int);
}

/// The number of a row among numbered rows.
pub open spec fn number_in(
    known: Seq<QdiscIdentity<Seq<char>>>,
    identity: QdiscIdentity<Seq<char>>,
) -> Option<nat> {
    match seqs::first_where(known, rows::is_row(identity), known.len() as int) {
        Some(i) => Some((i + 1) as nat),
        None => None,
    }
}

/// The labels of a row with the number that it has.
pub open spec fn labels_in(known: Seq<QdiscIdentity<Seq<char>>>, row: QdiscRow) -> Result<
    LabelsModel,
    MonitorValidationError,
> {
    model::labels_of(
        row_entries(
            row,
            row.direction->0,
            number_in(known, row.identity.deep_view())->0,
            attachment_of(row),
        ),
    )
}

/// The readings of the first `n` rows, each with the number that it has. Rows without a
/// direction have none.
pub open spec fn shown_upto(
    known: Seq<QdiscIdentity<Seq<char>>>,
    rows: Seq<QdiscRow>,
    n: int,
) -> Seq<ReadingModel>
    decreases n,
{
    if n <= 0 {
        Seq::empty()
    } else if rows[n - 1].direction is None {
        shown_upto(known, rows, n - 1)
    } else {
        shown_upto(known, rows, n - 1) + row_statistics(
            rows[n - 1],
            labels_in(known, rows[n - 1])->Ok_0,
        )
    }
}

/// Whether a row has a number and labels, or nothing to show.
pub open spec fn is_placed(known: Seq<QdiscIdentity<Seq<char>>>, row: QdiscRow) -> bool {
    row.direction is Some ==> number_in(known, row.identity.deep_view()) is Some && labels_in(
        known,
        row,
    ) is Ok
}

/// A number stays what it is when further rows are numbered.
proof fn lemma_number_stays(
    before: Seq<QdiscIdentity<Seq<char>>>,
    after: Seq<QdiscIdentity<Seq<char>>>,
    identity: QdiscIdentity<Seq<char>>,
)
    requires
        rows::keeps_rows(before, after),
        number_in(before, identity) is Some,
    ensures
        number_in(after, identity) == number_in(before, identity),
{
    let wanted = rows::is_row(identity);
    let n = before.len() as int;
    seqs::lemma_first_where(before, wanted, n);
    let i = seqs::first_where(before, wanted, n)->0;
    seqs::lemma_first_where(after, wanted, after.len() as int);
    assert(wanted(after[i]));
    let j = seqs::first_where(after, wanted, after.len() as int)->0;
    if j < i {
        assert(after[j] == before[j]);
        assert(!wanted(before[j]));
    }
}

proof fn lemma_shown(
    known: Seq<QdiscIdentity<Seq<char>>>,
    rows: Seq<QdiscRow>,
    later: Seq<QdiscIdentity<Seq<char>>>,
    n: int,
)
    requires
        rows::rows_valid(known, MAX_QDISC_ROW_IDS as nat),
        0 <= n <= rows.len(),
        rows_upto(known, rows, n).1 is Ok,
        rows::keeps_rows(rows_upto(known, rows, n).0, later),
    ensures
        rows_upto(known, rows, n).1 == Ok::<Seq<ReadingModel>, Failure>(
            shown_upto(later, rows, n),
        ),
        forall|i: int| 0 <= i < n ==> is_placed(later, #[trigger] rows[i]),
    decreases n,
{
    if n > 0 {
        lemma_rows_upto_keep(known, rows, n - 1);
        let before = rows_upto(known, rows, n - 1).0;
        let after = rows_upto(known, rows, n).0;
        let row = rows[n - 1];
        let identity = row.identity.deep_view();
        if row.direction is Some {
            rows::numbers_are_stable_and_distinct(
                before,
                identity,
                identity,
                MAX_QDISC_ROW_IDS as nat,
            );
            seqs::lemma_first_where(after, rows::is_row(identity), after.len() as int);
            lemma_number_stays(after, later, identity);
        }
        rows::lemma_keeps_rows_chain(before, after, later);
        lemma_shown(known, rows, later, n - 1);
    }
}

proof fn lemma_shown_again(
    known: Seq<QdiscIdentity<Seq<char>>>,
    rows: Seq<QdiscRow>,
    n: int,
)
    requires
        0 <= n <= rows.len(),
        forall|i: int| 0 <= i < n ==> is_placed(known, #[trigger] rows[i]),
    ensures
        rows_upto(known, rows, n) == (
            known,
            Ok::<Seq<ReadingModel>, Failure>(shown_upto(known, rows, n)),
        ),
    decreases n,
{
    if n > 0 {
        lemma_shown_again(known, rows, n - 1);
        assert(is_placed(known, rows[n - 1]));
    }
}

/// What makes a row the same row, whatever it counts.
pub open spec fn placement(row: QdiscRow) -> (
    Seq<char>,
    QdiscIdentity<Seq<char>>,
    Option<QdiscDirection>,
) {
    (row.interface@, row.identity.deep_view(), row.direction)
}

pub open spec fn placements(rows: Seq<QdiscRow>) -> Seq<
    (Seq<char>, QdiscIdentity<Seq<char>>, Option<QdiscDirection>),
> {
    Seq::new(rows.len(), |i: int| placement(rows[i]))
}

/// Rows that come again in another order, with whatever counts, are shown again, and no
/// row is numbered anew: every row has in both translations the number that it has after
/// the first one.
pub proof fn reordered_rows_keep_their_numbers(
    known: Seq<QdiscIdentity<Seq<char>>>,
    rows: Seq<QdiscRow>,
    again: Seq<QdiscRow>,
)
    requires
        rows::rows_valid(known, MAX_QDISC_ROW_IDS as nat),
        qdisc_readings(known, rows).1 is Ok,
        placements(rows).to_multiset() == placements(again).to_multiset(),
    ensures
        ({
            let numbered = qdisc_readings(known, rows).0;
            &&& qdisc_readings(known, rows).1 == Ok::<Seq<ReadingModel>, Failure>(
                shown_upto(numbered, rows, rows.len() as int),
            )
            &&& qdisc_readings(numbered, again) == (
                numbered,
                Ok::<Seq<ReadingModel>, Failure>(
                    shown_upto(numbered, again, again.len() as int),
                ),
            )
        }),
{
    let numbered = qdisc_readings(known, rows).0;
    let a = placements(rows);
    let b = placements(again);
    lemma_shown(known, rows, numbered, rows.len() as int);
    a.to_multiset_ensures();
    b.to_multiset_ensures();
    assert forall|j: int| 0 <= j < again.len() implies is_placed(
        numbered,
        #[trigger] again[j],
    ) by {
        assert(b[j] == placement(again[j]));
        assert(b.contains(b[j]));
        assert(b.to_multiset().count(b[j]) > 0);
        assert(a.contains(b[j]));
        let i = choose|i: int| 0 <= i < a.len() && a[i] == b[j];
        assert(a[i] == placement(rows[i]));
        assert(is_placed(numbered, rows[i]));
        assert(again[j].identity.deep_view() == rows[i].identity.deep_view());
        if again[j].direction is Some {
            assert(row_entries(
                again[j],
                again[j].direction->0,
                number_in(numbered, again[j].identity.deep_view())->0,
                attachment_of(again[j]),
            ) =~= row_entries(
                rows[i],
                rows[i].direction->0,
                number_in(numbered, rows[i].identity.deep_view())->0,
                attachment_of(rows[i]),
            ));
        }
    }
    lemma_shown_again(numbered, again, again.len() as int);
}

/// The readings of a row carry the number of the row as a label, and rows of different
/// identity have different numbers there, also where they share a handle.
pub proof fn row_labels_tell_rows_apart(
    known: Seq<QdiscIdentity<Seq<char>>>,
    a: QdiscRow,
    b: QdiscRow,
    i: int,
)
    requires
        is_placed(known, a),
        is_placed(known, b),
        a.direction is Some,
        b.direction is Some,
        0 <= i < row_statistics(a, labels_in(known, a)->Ok_0).len(),
    ensures
        row_statistics(a, labels_in(known, a)->Ok_0)[i].key.labels == labels_in(known, a)->Ok_0,
        model::label_value(labels_in(known, a)->Ok_0, MetricLabel::RowId) == Some(
            text::decimal(number_in(known, a.identity.deep_view())->0),
        ),
        model::label_value(labels_in(known, a)->Ok_0, MetricLabel::RowId) == model::label_value(
            labels_in(known, b)->Ok_0,
            MetricLabel::RowId,
        ) <==> a.identity.deep_view() == b.identity.deep_view(),
{
    let x = a.identity.deep_view();
    let y = b.identity.deep_view();
    model::labels_hold_what_was_given(
        row_entries(a, a.direction->0, number_in(known, x)->0, attachment_of(a)),
        5,
    );
    model::labels_hold_what_was_given(
        row_entries(b, b.direction->0, number_in(known, y)->0, attachment_of(b)),
        5,
    );
    if text::decimal(number_in(known, x)->0) == text::decimal(number_in(known, y)->0) {
        text::decimal_tells_apart(number_in(known, x)->0, number_in(known, y)->0);
    }
    let n = known.len() as int;
    seqs::lemma_first_where(known, rows::is_row(x), n);
    seqs::lemma_first_where(known, rows::is_row(y), n);
}

fn history_full() -> (words: String)
    ensures
        words@ == history_words(),
{
    let mut words = owned("qdisc identity history exceeds the ");
    push_decimal(&mut words, MAX_QDISC_ROW_IDS as u128);
    words.append("-row session limit");
    words
}

/// The readings of all rows.
pub fn translate_qdisc_rows(
    qdiscs: &Vec<QdiscRow>,
    row_ids: &mut RowIds<QdiscIdentity<String>>,
) -> (result: Result<Vec<SampleReading>, AttemptError>)
    requires
        old(row_ids).known@.len() <= MAX_QDISC_ROW_IDS,
    ensures
        final(row_ids).known@.len() <= MAX_QDISC_ROW_IDS,
        qdisc_readings(old(row_ids).known.deep_view(), qdiscs@) == (
            final(row_ids).known.deep_view(),
            match result {
                Ok(readings) => Ok(readings.deep_view()),
                Err(error) => Err((error.code, error.message@)),
            },
        ),
{
    let ghost known = row_ids.known.deep_view();
    let ghost all = qdiscs@;
    let mut shown: Vec<SampleReading> = Vec::new();
    assert(shown.deep_view() =~= Seq::<ReadingModel>::empty());
    for i in 0..qdiscs.len()
        invariant
            all == qdiscs@,
            known == old(row_ids).known.deep_view(),
            row_ids.known@.len() <= MAX_QDISC_ROW_IDS,
            rows_upto(known, all, i as int) == (
                row_ids.known.deep_view(),
                Ok::<Seq<ReadingModel>, Failure>(shown.deep_view()),
            ),
    {
        let row = &qdiscs[i];
        if let Some(direction) = row.direction {
            let id: u64 = match row_ids.number(row.identity.copy(), MAX_QDISC_ROW_IDS) {
                None => {
                    proof {
                        lemma_failure_stays(known, all, i as int + 1, all.len() as int);
                    }
                    return Err(
                        AttemptError {
                            code: MonitorErrorCode::CardinalityLimit,
                            message: history_full(),
                        },
                    );
                },
                Some(id) => id,
            };
            let attachment = attachment_text(
                row.identity.root,
                &row.identity.handle,
                &row.identity.parent,
            );
            match qdisc_labels(row, direction, id, attachment.as_str()) {
                Err(error) => {
                    proof {
                        lemma_failure_stays(known, all, i as int + 1, all.len() as int);
                    }
                    return Err(AttemptError::internal(owned(explain(error))));
                },
                Ok(labels) => {
                    let mut readings = translate_row(row, &labels);
                    let ghost before = shown.deep_view();
                    let ghost added = readings.deep_view();
                    shown.append(&mut readings);
                    assert(shown.deep_view() =~= before + added);
                },
            }
        }
    }
    Ok(shown)
}

/// The sample of one backend, or of why it has none.
pub open spec fn tc_sample(
    catalog: CatalogModel,
    provider: Seq<char>,
    timing: CollectionTiming,
    result: Result<Vec<QdiscRow>, AttemptError>,
    known: Seq<QdiscIdentity<Seq<char>>>,
) -> SampleModel {
    let readings = match result {
        Err(error) => Err((error.code, error.message@)),
        Ok(qdiscs) => qdisc_readings(known, qdiscs@).1,
    };
    match readings {
        Err(failure) => diagnostics::failed_sample(
            provider,
            timing.finished_at,
            timing.collection_duration,
            failure.0,
            failure.1,
        ),
        Ok(readings) => diagnostics::sample_or_failure(
            catalog,
            provider,
            timing.finished_at,
            timing.collection_duration,
            ProviderHealth::Fresh,
            readings,
        ),
    }
}

/// The numbered rows after the result of one backend.
pub open spec fn tc_known(
    result: Result<Vec<QdiscRow>, AttemptError>,
    known: Seq<QdiscIdentity<Seq<char>>>,
) -> Seq<QdiscIdentity<Seq<char>>> {
    match result {
        Err(_) => known,
        Ok(qdiscs) => qdisc_readings(known, qdiscs@).0,
    }
}

pub fn tc_result_sample(
    catalog: &MetricCatalog,
    provider: &str,
    timing: CollectionTiming,
    result: Result<Vec<QdiscRow>, AttemptError>,
    row_ids: &mut RowIds<QdiscIdentity<String>>,
) -> (sample: ProviderSample)
    requires
        old(row_ids).known@.len() <= MAX_QDISC_ROW_IDS,
    ensures
        final(row_ids).known@.len() <= MAX_QDISC_ROW_IDS,
        final(row_ids).known.deep_view() == tc_known(result, old(row_ids).known.deep_view()),
        sample.deep_view() == tc_sample(
            catalog.deep_view(),
            provider@,
            timing,
            result,
            old(row_ids).known.deep_view(),
        ),
{
    let readings = match result {
        Err(error) => Err(error),
        Ok(qdiscs) => translate_qdisc_rows(&qdiscs, row_ids),
    };
    match readings {
        Err(error) => error_sample(
            provider,
            timing.finished_at,
            timing.collection_duration,
            error.code,
            error.message.as_str(),
        ),
        Ok(readings) => provider_sample(
            catalog,
            provider,
            timing.finished_at,
            timing.collection_duration,
            ProviderHealth::Fresh,
            readings,
        ),
    }
}

/// What is said of the backend that was not needed.
pub const FALLBACK_IDLE: &'static str =
    "JSON fallback idle while native qdisc collection is available";

/// Whether the fallback has to be asked.
pub fn needs_tc_fallback(native: &Result<Vec<QdiscRow>, AttemptError>) -> (needed: bool)
    ensures
        needed == (native is Err),
{
    match native {
        Ok(_) => false,
        Err(_) => true,
    }
}

/// The samples of both backends. The fallback counts only where the native collection
/// failed.
pub open spec fn tc_samples(
    catalog: CatalogModel,
    native_timing: CollectionTiming,
    native: Result<Vec<QdiscRow>, AttemptError>,
    fallback: Option<(CollectionTiming, Result<Vec<QdiscRow>, AttemptError>)>,
    known: Seq<QdiscIdentity<Seq<char>>>,
) -> Seq<SampleModel> {
    seq![
        tc_sample(catalog, TC_NETLINK@, native_timing, native, known),
        if native is Ok {
            diagnostics::failed_sample(
                TC_JSON@,
                native_timing.finished_at,
                0,
                MonitorErrorCode::Unsupported,
                FALLBACK_IDLE@,
            )
        } else {
            tc_sample(catalog, TC_JSON@, (fallback->0).0, (fallback->0).1, known)
        },
    ]
}

/// The samples of both backends. The fallback is asked, and counts, only where the
/// native collection failed.
pub fn finish_tc_collection(
    catalog: &MetricCatalog,
    native_timing: CollectionTiming,
    native: Result<Vec<QdiscRow>, AttemptError>,
    fallback: Option<(CollectionTiming, Result<Vec<QdiscRow>, AttemptError>)>,
    row_ids: &mut RowIds<QdiscIdentity<String>>,
) -> (samples: Vec<ProviderSample>)
    requires
        native is Err ==> fallback is Some,
        old(row_ids).known@.len() <= MAX_QDISC_ROW_IDS,
    ensures
        final(row_ids).known@.len() <= MAX_QDISC_ROW_IDS,
        final(row_ids).known.deep_view() == (if native is Ok {
            tc_known(native, old(row_ids).known.deep_view())
        } else {
            tc_known((fallback->0).1, old(row_ids).known.deep_view())
        }),
        samples.deep_view() == tc_samples(
            catalog.deep_view(),
            native_timing,
            native,
            fallback,
            old(row_ids).known.deep_view(),
        ),
{
    let needed: bool = needs_tc_fallback(&native);
    let first = tc_result_sample(catalog, TC_NETLINK, native_timing, native, row_ids);
    let asked = if needed {
        fallback
    } else {
        None
    };
    let second = match asked {
        Some((timing, result)) => tc_result_sample(catalog, TC_JSON, timing, result, row_ids),
        None => error_sample(
            TC_JSON,
            native_timing.finished_at,
            0,
            MonitorErrorCode::Unsupported,
            FALLBACK_IDLE,
        ),
    };
    let mut samples: Vec<ProviderSample> = Vec::new();
    samples.push(first);
    samples.push(second);
    assert(samples.deep_view() =~= seq![first.deep_view(), second.deep_view()]);
    samples
}

} // verus!
