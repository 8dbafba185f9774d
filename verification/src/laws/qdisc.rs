//! What queueing disciplines show.
use crate::attachment;
use crate::catalog::CatalogModel;
use crate::diagnostics::AttemptError;
use crate::model;
use crate::model::{
    CounterBits, LabelsModel, MetricLabel, MetricReading, ReadingModel, ReadingOutcome,
    UnavailableReason,
};
use crate::qdisc;
use crate::qdisc::{QdiscDirection, QdiscIdentity, QdiscRow};
use crate::text;
use crate::translate::CollectionTiming;
use vstd::prelude::*;

verus! {

/// Whether a reading is a count of a width, or says that it is missing.
pub open spec fn counts(
    reading: ReadingModel,
    metric: Seq<char>,
    value: Option<u64>,
    width: Option<u8>,
) -> bool {
    reading.key.metric == metric && match value {
        None => reading.outcome == ReadingOutcome::<Seq<char>>::Unavailable(
            UnavailableReason::Missing,
        ),
        Some(value) => reading.outcome matches ReadingOutcome::Observed(
            MetricReading::Counter { value: shown, bits },
        ) && shown == value && (bits == Some(CounterBits::Bits32) <==> width == Some(32u8)) && (bits
            == Some(CounterBits::Bits64) <==> width == Some(64u8)),
    }
}

/// Whether a reading is a level, or says that it is missing.
pub open spec fn measures(reading: ReadingModel, metric: Seq<char>, value: Option<u64>) -> bool {
    reading.key.metric == metric && match value {
        None => reading.outcome == ReadingOutcome::<Seq<char>>::Unavailable(
            UnavailableReason::Missing,
        ),
        Some(value) => reading.outcome == ReadingOutcome::<Seq<char>>::Observed(
            MetricReading::Gauge(value),
        ),
    }
}

pub open spec fn wide(value: Option<u32>) -> Option<u64> {
    if value is Some {
        Some(value->0 as u64)
    } else {
        None
    }
}

/// A row shows what it counted under the name of each count, with the width of the counter,
/// and what waits in it; what is not known is said to be missing.
pub proof fn rows_show_what_they_counted(row: QdiscRow, labels: LabelsModel)
    ensures
        ({
            let shown = qdisc::row_statistics(row, labels);
            &&& shown.len() == 7 || shown.len() == 13
            &&& counts(shown[0], "linux.tc.packets"@, row.packets, row.counter_bits.packets)
            &&& counts(shown[1], "linux.tc.bytes"@, row.bytes, row.counter_bits.bytes)
            &&& counts(shown[2], "linux.tc.drops"@, row.drops, row.counter_bits.drops)
            &&& counts(
                shown[3],
                "linux.tc.overlimits"@,
                row.overlimits,
                row.counter_bits.overlimits,
            )
            &&& counts(shown[4], "linux.tc.requeues"@, row.requeues, row.counter_bits.requeues)
            &&& measures(shown[5], "linux.tc.backlog_bytes"@, row.backlog_bytes)
            &&& measures(shown[6], "linux.tc.backlog_packets"@, row.backlog_packets)
            &&& forall|i: int| 0 <= i < shown.len() ==> (#[trigger] shown[i]).key.labels == labels
        }),
{
    let shown = qdisc::row_statistics(row, labels);
    assert forall|i: int| 0 <= i < shown.len() implies (#[trigger] shown[i]).key.labels
        == labels by {
        if i >= 7 {
            assert(shown[i] == qdisc::extended_statistics(row, labels)[i - 7]);
        } else {
            assert(shown[i] == qdisc::basic_statistics(row, labels)[i]);
        }
    }
}

/// A row of a discipline that counts flows, or that reports any of it, shows that too.
pub proof fn rows_show_their_flows(row: QdiscRow, labels: LabelsModel)
    ensures
        ({
            let shown = qdisc::row_statistics(row, labels);
            let more = row.identity.kind@ == "fq_codel"@ || row.drop_overlimit is Some
                || row.new_flow_count is Some || row.ecn_marks is Some || row.max_packet_bytes
                is Some || row.new_flows_len is Some || row.old_flows_len is Some;
            &&& shown.len() == 13 <==> more
            &&& more ==> {
                &&& counts(
                    shown[7],
                    "linux.tc.drop_overlimit"@,
                    wide(row.drop_overlimit),
                    Some(32u8),
                )
                &&& counts(
                    shown[8],
                    "linux.tc.new_flow_count"@,
                    wide(row.new_flow_count),
                    Some(32u8),
                )
                &&& counts(shown[9], "linux.tc.ecn_marks"@, wide(row.ecn_marks), Some(32u8))
                &&& measures(
                    shown[10],
                    "linux.tc.max_packet_bytes"@,
                    wide(row.max_packet_bytes),
                )
                &&& measures(shown[11], "linux.tc.new_flows_len"@, wide(row.new_flows_len))
                &&& measures(shown[12], "linux.tc.old_flows_len"@, wide(row.old_flows_len))
            }
        }),
{
}

/// The labels of a row say on which interface it is, in which direction, of which kind, under
/// which number, and where it is attached.
pub proof fn rows_say_where_they_are(
    row: QdiscRow,
    direction: QdiscDirection,
    id: nat,
    attachment: Seq<char>,
)
    ensures
        model::labels_of(qdisc::row_entries(row, direction, id, attachment)) matches Ok(labels)
            ==> {
            &&& model::label_value(labels, MetricLabel::Interface) == Some(row.interface@)
            &&& model::label_value(labels, MetricLabel::Ifindex) == Some(
                text::decimal(row.identity.ifindex as nat),
            )
            &&& model::label_value(labels, MetricLabel::Direction) == Some(
                match direction {
                    QdiscDirection::Ingress => "ingress"@,
                    QdiscDirection::Egress => "egress"@,
                },
            )
            &&& model::label_value(labels, MetricLabel::ObjectKind) == Some("qdisc"@)
            &&& model::label_value(labels, MetricLabel::QdiscKind) == Some(row.identity.kind@)
            &&& model::label_value(labels, MetricLabel::RowId) == Some(text::decimal(id))
            &&& model::label_value(labels, MetricLabel::Execution) == Some("software"@)
            &&& model::label_value(labels, MetricLabel::QdiscAttachment) == Some(attachment)
        },
{
    let entries = qdisc::row_entries(row, direction, id, attachment);
    if model::labels_of(entries) is Ok {
        model::labels_hold_what_was_given(entries, 0);
        model::labels_hold_what_was_given(entries, 1);
        model::labels_hold_what_was_given(entries, 2);
        model::labels_hold_what_was_given(entries, 3);
        model::labels_hold_what_was_given(entries, 4);
        model::labels_hold_what_was_given(entries, 5);
        model::labels_hold_what_was_given(entries, 6);
        model::labels_hold_what_was_given(entries, 7);
    }
}

/// Two rows are attached alike exactly if they have the same root, handle and parent.
pub proof fn attachments_tell_rows_apart(a: QdiscRow, b: QdiscRow)
    ensures
        qdisc::attachment_of(a) == qdisc::attachment_of(b) <==> {
            &&& a.identity.root == b.identity.root
            &&& a.identity.handle@ == b.identity.handle@
            &&& a.identity.parent is Some <==> b.identity.parent is Some
            &&& a.identity.parent matches Some(x) ==> (b.identity.parent matches Some(y) ==> x@
                == y@)
        },
{
    if qdisc::attachment_of(a) == qdisc::attachment_of(b) {
        attachment::attachments_tell_apart(
            a.identity.root,
            a.identity.handle@,
            text::optional_text(a.identity.parent),
            b.identity.root,
            b.identity.handle@,
            text::optional_text(b.identity.parent),
        );
    }
}

/// An attachment is a list of three: whether it is the root, its handle, and its parent or
/// that there is none.
pub proof fn attachments_are_lists_of_three(root: bool, handle: Seq<char>, parent: Seq<char>)
    ensures
        attachment::json_triple(root, handle, Some(parent)) == seq!['['] + (if root {
            "true"@
        } else {
            "false"@
        }) + seq![','] + attachment::json_string(handle) + seq![','] + attachment::json_string(
            parent,
        ) + seq![']'],
        attachment::json_triple(root, handle, None) == seq!['['] + (if root {
            "true"@
        } else {
            "false"@
        }) + seq![','] + attachment::json_string(handle) + seq![','] + "null"@ + seq![']'],
{
    reveal_strlit("true");
    reveal_strlit("false");
    reveal_strlit("null");
    let flag = if root {
        "true"@
    } else {
        "false"@
    };
    assert(attachment::json_bool(root) =~= flag);
    assert(attachment::json_option(None) =~= "null"@);
    let front = seq!['['] + flag + seq![','] + attachment::json_string(handle) + seq![','];
    assert(attachment::json_triple(root, handle, Some(parent)) =~= front + attachment::json_string(
        parent,
    ) + seq![']']);
    assert(attachment::json_triple(root, handle, None) =~= front + "null"@ + seq![']']);
}

/// Every row that has a direction is shown, all of it, under its number; a row without one is
/// not.
pub proof fn rows_with_a_direction_are_shown(
    known: Seq<QdiscIdentity<Seq<char>>>,
    rows: Seq<QdiscRow>,
    n: int,
)
    requires
        0 < n <= rows.len(),
    ensures
        qdisc::rows_upto(known, rows, n).1 matches Ok(shown) ==> (qdisc::rows_upto(
            known,
            rows,
            n - 1,
        ).1 matches Ok(before) && {
            &&& rows[n - 1].direction is None ==> shown == before && qdisc::rows_upto(
                known,
                rows,
                n,
            ).0 == qdisc::rows_upto(known, rows, n - 1).0
            &&& rows[n - 1].direction matches Some(direction) ==> {
                let after = qdisc::rows_upto(known, rows, n).0;
                &&& shown.take(before.len() as int) == before
                &&& exists|id: nat|
                    {
                        &&& 1 <= id <= after.len()
                        &&& after[id - 1] == rows[n - 1].identity.deep_view()
                        &&& model::labels_of(
                            #[trigger] qdisc::row_entries(
                                rows[n - 1],
                                direction,
                                id,
                                qdisc::attachment_of(rows[n - 1]),
                            ),
                        ) matches Ok(labels) && shown.skip(before.len() as int)
                            == qdisc::row_statistics(rows[n - 1], labels)
                    }
            }
        }),
{
    if let Ok(shown) = qdisc::rows_upto(known, rows, n).1 {
        let before = qdisc::rows_upto(known, rows, n - 1).1->Ok_0;
        let row = rows[n - 1];
        if let Some(direction) = row.direction {
            let start = qdisc::rows_upto(known, rows, n - 1).0;
            let identity = row.identity.deep_view();
            let (after, id) = crate::rows::numbered(
                start,
                identity,
                qdisc::MAX_QDISC_ROW_IDS as nat,
            );
            crate::seqs::lemma_first_where(
                start,
                crate::rows::is_row(identity),
                start.len() as int,
            );
            let entries = qdisc::row_entries(row, direction, id->0, qdisc::attachment_of(row));
            let labels = model::labels_of(entries)->Ok_0;
            let stats = qdisc::row_statistics(row, labels);
            assert(shown == before + stats);
            assert(shown.take(before.len() as int) =~= before);
            assert(shown.skip(before.len() as int) =~= stats);
            assert(after[id->0 - 1] == identity);
        }
    }
}

/// A collection that failed says so, for its reason; one that did not is fresh.
pub proof fn collections_say_how_they_went(
    catalog: CatalogModel,
    provider: Seq<char>,
    timing: CollectionTiming,
    result: Result<Vec<QdiscRow>, AttemptError>,
    known: Seq<QdiscIdentity<Seq<char>>>,
)
    ensures
        ({
            let sample = qdisc::tc_sample(catalog, provider, timing, result, known);
            &&& sample.provider == provider
            &&& sample.finished_at == timing.finished_at
            &&& sample.collection_duration == timing.collection_duration
            &&& result matches Err(error) ==> sample.readings.len() == 0 && (
            crate::diagnostics::health_error(sample.health) matches Some(cause) && cause.code
                == error.code)
            &&& result matches Ok(rows) ==> (sample.health is Fresh ==> (qdisc::qdisc_readings(
                known,
                rows@,
            ).1 matches Ok(readings) && sample.readings == model::in_canonical_order(readings)))
            &&& result is Err ==> qdisc::tc_known(result, known) == known
        }),
{
}

/// The kernel is asked first, and the command only if the kernel gave no answer; while it is
/// not asked, the command is reported as not supported.
pub proof fn commands_stand_in_for_the_kernel(
    catalog: CatalogModel,
    native_timing: CollectionTiming,
    native: Result<Vec<QdiscRow>, AttemptError>,
    fallback: Option<(CollectionTiming, Result<Vec<QdiscRow>, AttemptError>)>,
    known: Seq<QdiscIdentity<Seq<char>>>,
)
    ensures
        ({
            let samples = qdisc::tc_samples(catalog, native_timing, native, fallback, known);
            &&& samples.len() == 2
            &&& samples[0].provider == "linux.rtnetlink.tc"@
            &&& samples[1].provider == "linux.tc.json"@
            &&& samples[0] == qdisc::tc_sample(
                catalog,
                "linux.rtnetlink.tc"@,
                native_timing,
                native,
                known,
            )
            &&& native is Ok ==> samples[1].health is Unsupported && samples[1].readings.len() == 0
                && samples[1].finished_at == native_timing.finished_at
            &&& native is Err ==> (fallback matches Some((timing, result)) ==> samples[1]
                == qdisc::tc_sample(catalog, "linux.tc.json"@, timing, result, known))
        }),
{
}

/// A session knows at most 630 rows.
pub proof fn rows_are_limited()
    ensures
        qdisc::MAX_QDISC_ROW_IDS == 630,
{
}

/// Quoted texts are what they quote, with what cannot stand in them escaped.
pub proof fn quotes_hold_plain_texts(plain: Seq<char>)
    requires
        forall|i: int|
            0 <= i < plain.len() ==> ' ' <= #[trigger] plain[i] && plain[i] != '"' && plain[i]
                != '\\',
    ensures
        attachment::json_string(plain) == seq!['"'] + plain + seq!['"'],
{
    lemma_plain(plain);
    assert(seq!['"'] + (plain + seq!['"']) =~= seq!['"'] + plain + seq!['"']);
}

proof fn lemma_plain(plain: Seq<char>)
    requires
        forall|i: int|
            0 <= i < plain.len() ==> ' ' <= #[trigger] plain[i] && plain[i] != '"' && plain[i]
                != '\\',
    ensures
        attachment::quoted_rest(plain) == plain + seq!['"'],
    decreases plain.len(),
{
    if plain.len() > 0 {
        let rest = plain.drop_first();
        assert forall|i: int| 0 <= i < rest.len() implies ' ' <= #[trigger] rest[i] && rest[i]
            != '"' && rest[i] != '\\' by {
            assert(rest[i] == plain[i + 1]);
        }
        lemma_plain(rest);
        assert(seq![plain[0]] + (rest + seq!['"']) =~= plain + seq!['"']);
    } else {
        assert(plain + seq!['"'] =~= seq!['"']);
    }
}

} // verus!
