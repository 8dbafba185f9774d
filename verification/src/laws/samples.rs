//! What samples hold, when they are refused, and what is said of a failure.
use crate::catalog;
use crate::catalog::{CatalogModel, DescriptorModel};
use crate::diagnostics;
use crate::diagnostics::{IoErrorKind, NetfilterErrorKind, TcErrorKind};
use crate::evidence;
use crate::evidence::AttributesModel;
use crate::model;
use crate::model::{
    CounterBits, KeyModel, Label, LabelsModel, MetricKind, MetricLabel, MetricReading,
    MonitorErrorCode, MonitorValidationError, Nanos, ProviderHealth, ReadingModel, ReadingOutcome,
};
use crate::seqs;
use crate::text;
use vstd::prelude::*;
use vstd::utf8::encode_utf8;

verus! {

/// Whether a metric of a catalog is the one that an identity is of: no earlier one is.
pub open spec fn describes(catalog: CatalogModel, d: int, metric: Seq<char>) -> bool {
    &&& 0 <= d < catalog.len()
    &&& catalog[d].id == metric
    &&& forall|e: int| 0 <= e < d ==> (#[trigger] catalog[e]).id != metric
}

/// Whether a provider is one of those that a metric is read from.
pub open spec fn reads(descriptor: DescriptorModel, provider: Seq<char>) -> bool {
    exists|s: int|
        0 <= s < descriptor.sources.len() && (#[trigger] descriptor.sources[s]).provider
            == provider
}

/// Whether a reading has a value that its metric can have: of the same kind, and within the
/// width that a counter claims.
pub open spec fn suits(reading: ReadingModel, kind: MetricKind) -> bool {
    match reading.outcome {
        ReadingOutcome::Unavailable(_) => true,
        ReadingOutcome::Observed(MetricReading::Counter { value, bits }) => kind
            == MetricKind::Counter && (bits == Some(CounterBits::Bits32) ==> value <= 0xffff_ffff),
        ReadingOutcome::Observed(MetricReading::Gauge(_)) => kind == MetricKind::Gauge,
        ReadingOutcome::Observed(MetricReading::State(_)) => kind == MetricKind::State,
    }
}

/// Whether a reading can stand in a sample of a provider.
pub open spec fn belongs(
    catalog: CatalogModel,
    provider: Seq<char>,
    reading: ReadingModel,
) -> bool {
    exists|d: int|
        {
            &&& #[trigger] describes(catalog, d, reading.key.metric)
            &&& reads(catalog[d], provider)
            &&& suits(reading, catalog[d].kind)
        }
}

proof fn lemma_described(catalog: CatalogModel, metric: Seq<char>)
    ensures
        match catalog::metric_at(catalog, metric) {
            Some(d) => describes(catalog, d, metric),
            None => forall|d: int| !#[trigger] describes(catalog, d, metric),
        },
{
    seqs::lemma_first_where(catalog, catalog::has_id(metric), catalog.len() as int);
    match catalog::metric_at(catalog, metric) {
        Some(d) => {
            assert forall|e: int| 0 <= e < d implies (#[trigger] catalog[e]).id != metric by {
                assert(!catalog::has_id(metric)(catalog[e]));
            }
        },
        None => {
            assert forall|d: int| !#[trigger] describes(catalog, d, metric) by {
                if describes(catalog, d, metric) {
                    assert(catalog::has_id(metric)(catalog[d]));
                }
            }
        },
    }
}

proof fn lemma_read(descriptor: DescriptorModel, provider: Seq<char>)
    ensures
        catalog::priority_of(descriptor, provider) is Some <==> reads(descriptor, provider),
{
    seqs::lemma_first_where(
        descriptor.sources,
        catalog::is_from(provider),
        descriptor.sources.len() as int,
    );
    if reads(descriptor, provider) {
        let s = choose|s: int|
            0 <= s < descriptor.sources.len() && (#[trigger] descriptor.sources[s]).provider
                == provider;
        assert(catalog::is_from(provider)(descriptor.sources[s]));
    }
}

proof fn lemma_one_description(catalog: CatalogModel, d: int, e: int, metric: Seq<char>)
    requires
        describes(catalog, d, metric),
        describes(catalog, e, metric),
    ensures
        d == e,
{
    if d < e {
        assert(catalog[d].id != metric);
    } else if e < d {
        assert(catalog[e].id != metric);
    }
}

/// A sample is accepted exactly if its readings are not too many, stand there only if their
/// provider delivered, belong to the provider, and are each of another series. It keeps what
/// it was given: who read it, when, for how long, how that went, and every reading.
pub proof fn samples_keep_what_they_were_given(
    catalog: CatalogModel,
    provider: Seq<char>,
    finished_at: Nanos,
    collection_duration: Nanos,
    health: ProviderHealth<Seq<char>>,
    readings: Seq<ReadingModel>,
)
    ensures
        ({
            let built = catalog::built_sample(
                catalog,
                provider,
                finished_at,
                collection_duration,
                health,
                readings,
            );
            &&& built is Ok <==> {
                &&& readings.len() <= 4096
                &&& readings.len() > 0 ==> health is Fresh || health is Partial
                &&& forall|i: int|
                    0 <= i < readings.len() ==> belongs(catalog, provider, #[trigger] readings[i])
                &&& forall|i: int, j: int|
                    0 <= i < j < readings.len() ==> (#[trigger] readings[i]).key != (
                    #[trigger] readings[j]).key
            }
            &&& built matches Ok(sample) ==> {
                &&& sample.provider == provider
                &&& sample.finished_at == finished_at
                &&& sample.collection_duration == collection_duration
                &&& sample.health == health
                &&& sample.readings.to_multiset() == readings.to_multiset()
                &&& forall|i: int, j: int|
                    0 <= i < j < sample.readings.len() ==> !model::key_before(
                        (#[trigger] sample.readings[j]).key,
                        (#[trigger] sample.readings[i]).key,
                    )
            }
        }),
{
    model::lemma_canonical_exists(readings);
    assert forall|i: int| 0 <= i < readings.len() implies (belongs(
        catalog,
        provider,
        #[trigger] readings[i],
    ) <==> catalog::is_known(catalog, readings[i].key) && catalog::priority_in(
        catalog,
        readings[i].key,
        provider,
    ) is Some && catalog::value_agrees(catalog, readings[i])) by {
        lemma_belongs(catalog, provider, readings[i]);
    }
    let problem = catalog::sample_problem(catalog, provider, health, readings);
    if forall|i: int|
        0 <= i < readings.len() ==> belongs(catalog, provider, #[trigger] readings[i]) {
        assert forall|i: int| 0 <= i < readings.len() implies catalog::is_known(
            catalog,
            (#[trigger] readings[i]).key,
        ) by {
            assert(belongs(catalog, provider, readings[i]));
        }
        assert forall|i: int| 0 <= i < readings.len() implies !(catalog::priority_in(
            catalog,
            (#[trigger] readings[i]).key,
            provider,
        ) is None) by {
            assert(belongs(catalog, provider, readings[i]));
        }
        assert forall|i: int| 0 <= i < readings.len() implies catalog::value_agrees(
            catalog,
            #[trigger] readings[i],
        ) by {
            assert(belongs(catalog, provider, readings[i]));
        }
    } else {
        let i = choose|i: int|
            0 <= i < readings.len() && !belongs(catalog, provider, #[trigger] readings[i]);
        assert(!catalog::is_known(catalog, readings[i].key) || catalog::priority_in(
            catalog,
            readings[i].key,
            provider,
        ) is None || !catalog::value_agrees(catalog, readings[i]));
    }
}

proof fn lemma_belongs(catalog: CatalogModel, provider: Seq<char>, reading: ReadingModel)
    ensures
        belongs(catalog, provider, reading) <==> catalog::is_known(catalog, reading.key)
            && catalog::priority_in(catalog, reading.key, provider) is Some
            && catalog::value_agrees(catalog, reading),
{
    let metric = reading.key.metric;
    lemma_described(catalog, metric);
    if let Some(d) = catalog::metric_at(catalog, metric) {
        lemma_read(catalog[d], provider);
        if belongs(catalog, provider, reading) {
            let e = choose|e: int|
                {
                    &&& #[trigger] describes(catalog, e, metric)
                    &&& reads(catalog[e], provider)
                    &&& suits(reading, catalog[e].kind)
                };
            lemma_one_description(catalog, d, e, metric);
        }
        if catalog::priority_in(catalog, reading.key, provider) is Some && catalog::value_agrees(
            catalog,
            reading,
        ) {
            assert(describes(catalog, d, metric) && reads(catalog[d], provider) && suits(
                reading,
                catalog[d].kind,
            ));
        }
    }
}

/// A sample that is refused is refused for what is wrong with it.
pub proof fn refused_samples_say_why(
    catalog: CatalogModel,
    provider: Seq<char>,
    health: ProviderHealth<Seq<char>>,
    readings: Seq<ReadingModel>,
)
    ensures
        ({
            let problem = catalog::sample_problem(catalog, provider, health, readings);
            &&& problem == Some(MonitorValidationError::TooManyProviderReadings)
                <==> readings.len() > 4096
            &&& problem == Some(MonitorValidationError::UnexpectedReadings) <==> 0 < readings.len()
                <= 4096 && !(health is Fresh) && !(health is Partial)
            &&& problem == Some(MonitorValidationError::UnknownMetric) ==> exists|i: int|
                0 <= i < readings.len() && forall|d: int|
                    0 <= d < catalog.len() ==> (#[trigger] catalog[d]).id != (
                    #[trigger] readings[i]).key.metric
            &&& problem == Some(MonitorValidationError::MetricSourceMismatch) ==> exists|i: int|
                0 <= i < readings.len() && forall|d: int|
                    describes(catalog, d, (#[trigger] readings[i]).key.metric) ==> !reads(
                        #[trigger] catalog[d],
                        provider,
                    )
            &&& problem == Some(MonitorValidationError::MetricKindMismatch) ==> exists|i: int|
                0 <= i < readings.len() && forall|d: int|
                    describes(catalog, d, (#[trigger] readings[i]).key.metric) ==> !suits(
                        readings[i],
                        (#[trigger] catalog[d]).kind,
                    )
            &&& problem == Some(MonitorValidationError::DuplicateReading) ==> exists|
                i: int,
                j: int,
            |
                0 <= i < j < readings.len() && (#[trigger] readings[i]).key == (
                #[trigger] readings[j]).key
        }),
{
    let problem = catalog::sample_problem(catalog, provider, health, readings);
    if problem == Some(MonitorValidationError::UnknownMetric) {
        let i = choose|i: int|
            0 <= i < readings.len() && !catalog::is_known(catalog, (#[trigger] readings[i]).key);
        let metric = readings[i].key.metric;
        seqs::lemma_first_where(catalog, catalog::has_id(metric), catalog.len() as int);
        assert forall|d: int| 0 <= d < catalog.len() implies (#[trigger] catalog[d]).id
            != metric by {
            assert(!catalog::has_id(metric)(catalog[d]));
        }
    } else if problem == Some(MonitorValidationError::MetricSourceMismatch) {
        let i = choose|i: int|
            0 <= i < readings.len() && catalog::priority_in(
                catalog,
                (#[trigger] readings[i]).key,
                provider,
            ) is None;
        let metric = readings[i].key.metric;
        assert(catalog::is_known(catalog, readings[i].key));
        lemma_described(catalog, metric);
        let at = catalog::metric_at(catalog, metric)->0;
        lemma_read(catalog[at], provider);
        assert forall|d: int| describes(catalog, d, metric) implies !reads(
            #[trigger] catalog[d],
            provider,
        ) by {
            lemma_one_description(catalog, d, at, metric);
        }
    } else if problem == Some(MonitorValidationError::MetricKindMismatch) {
        let i = choose|i: int|
            0 <= i < readings.len() && !catalog::value_agrees(catalog, #[trigger] readings[i]);
        let metric = readings[i].key.metric;
        assert(catalog::is_known(catalog, readings[i].key));
        lemma_described(catalog, metric);
        let at = catalog::metric_at(catalog, metric)->0;
        assert forall|d: int| describes(catalog, d, metric) implies !suits(
            readings[i],
            (#[trigger] catalog[d]).kind,
        ) by {
            lemma_one_description(catalog, d, at, metric);
        }
    }
}

/// A failed sample says who failed, when and why, and holds no reading: it is unsupported or
/// denied if that is why, and an error otherwise.
pub proof fn failed_samples_say_why(
    provider: Seq<char>,
    finished_at: Nanos,
    collection_duration: Nanos,
    code: MonitorErrorCode,
    diagnostic: Seq<char>,
)
    ensures
        ({
            let sample = diagnostics::failed_sample(
                provider,
                finished_at,
                collection_duration,
                code,
                diagnostic,
            );
            &&& sample.provider == provider
            &&& sample.finished_at == finished_at
            &&& sample.collection_duration == collection_duration
            &&& sample.readings.len() == 0
            &&& sample.health is Unsupported <==> code is Unsupported
            &&& sample.health is PermissionDenied <==> code is PermissionDenied
            &&& sample.health is Error <==> !(code is Unsupported) && !(code is PermissionDenied)
            &&& diagnostics::health_error(sample.health) matches Some(error) && error.code == code
                && error.diagnostic == diagnostics::bounded_diagnostic(diagnostic)
        }),
{
}

/// What goes wrong with a sample is told as a failure inside, with the reason.
pub proof fn broken_samples_are_reported(
    catalog: CatalogModel,
    provider: Seq<char>,
    finished_at: Nanos,
    collection_duration: Nanos,
    health: ProviderHealth<Seq<char>>,
    readings: Seq<ReadingModel>,
)
    ensures
        ({
            let sample = diagnostics::sample_or_failure(
                catalog,
                provider,
                finished_at,
                collection_duration,
                health,
                readings,
            );
            let problem = catalog::sample_problem(catalog, provider, health, readings);
            &&& sample.provider == provider
            &&& sample.finished_at == finished_at
            &&& sample.collection_duration == collection_duration
            &&& problem is None ==> sample.health == health && sample.readings.to_multiset()
                == readings.to_multiset()
            &&& problem matches Some(error) ==> sample.readings.len() == 0 && (sample.health matches
                ProviderHealth::Error { error: told } && told.code is Internal && told.diagnostic
                == diagnostics::bounded_diagnostic(diagnostics::explanation(error)))
        }),
{
    model::lemma_canonical_exists(readings);
}

/// Only what was read, wholly or in part, may come with readings.
pub proof fn readings_need_a_healthy_provider(health: ProviderHealth<Seq<char>>)
    ensures
        health.readable() <==> (health is Fresh || health is Partial),
        health is Fresh <==> diagnostics::health_error(health) is None,
        health matches ProviderHealth::Partial { warning } ==> diagnostics::health_error(health)
            == Some(warning),
        health matches ProviderHealth::Stale { last_success_at: _, age: _, cause }
            ==> diagnostics::health_error(health) == Some(cause),
        health matches ProviderHealth::Unsupported { reason } ==> diagnostics::health_error(health)
            == Some(reason),
        health matches ProviderHealth::PermissionDenied { reason } ==> diagnostics::health_error(
            health,
        ) == Some(reason),
        health matches ProviderHealth::Error { error } ==> diagnostics::health_error(health)
            == Some(error),
{
}

/// Healths have words of their own.
pub proof fn healths_have_their_words(health: ProviderHealth<Seq<char>>)
    ensures
        health is Fresh <==> health.word() == "fresh"@,
        health is Partial <==> health.word() == "partial"@,
        health is Stale <==> health.word() == "stale"@,
        health is Unsupported <==> health.word() == "unsupported"@,
        health is PermissionDenied <==> health.word() == "permission-denied"@,
        health is Error <==> health.word() == "error"@,
{
    reveal_strlit("fresh");
    reveal_strlit("partial");
    reveal_strlit("stale");
    reveal_strlit("unsupported");
    reveal_strlit("permission-denied");
    reveal_strlit("error");
    assert("fresh"@[0] == 'f' && "fresh"@.len() == 5);
    assert("partial"@.len() == 7);
    assert("stale"@[0] == 's' && "stale"@.len() == 5);
    assert("unsupported"@.len() == 11);
    assert("permission-denied"@.len() == 17);
    assert("error"@[0] == 'e' && "error"@.len() == 5);
}

/// A diagnostic that can be printed is told as it is, up to the limit; one that is empty
/// says that there is none.
pub proof fn printable_diagnostics_are_told(diagnostic: Seq<char>)
    requires
        model::all_printable(diagnostic),
    ensures
        0 < diagnostic.len() <= 256 ==> diagnostics::bounded_diagnostic(diagnostic) == diagnostic,
        diagnostic.len() > 256 ==> diagnostics::bounded_diagnostic(diagnostic) == diagnostic.take(
            256,
        ),
        diagnostic.len() == 0 ==> diagnostics::bounded_diagnostic(diagnostic)
            == "collector failed without a diagnostic"@,
{
    assert forall|i: int| 0 <= i < diagnostic.len() implies '\0' <= #[trigger] diagnostic[i]
        <= '\u{7f}' by {
        assert(model::printable(diagnostic[i]));
    }
    vstd::utf8::is_ascii_chars_encode_utf8(diagnostic);
    let bytes = encode_utf8(diagnostic);
    assert forall|i: int| 0 <= i < diagnostic.len() implies diagnostics::shown_byte(
        #[trigger] bytes[i],
    ) == diagnostic[i] by {
        assert(model::printable(diagnostic[i]));
    }
    let told = diagnostics::bounded_diagnostic(diagnostic);
    if 0 < diagnostic.len() <= 256 {
        assert(told =~= diagnostic);
    } else if diagnostic.len() > 256 {
        assert(told =~= diagnostic.take(256));
    }
}

/// A byte that cannot be printed is told as a question mark, and no other is changed.
pub proof fn bytes_are_told_as_they_are(byte: u8)
    ensures
        ' ' as int <= byte <= '~' as int ==> diagnostics::shown_byte(byte) as int == byte,
        byte < ' ' as int || byte > '~' as int ==> diagnostics::shown_byte(byte) == '?',
{
}

/// Texts that are shown lose what cannot be printed, and nothing else.
pub proof fn shown_texts_lose_only_what_cannot_be_printed(text: Seq<char>, n: int)
    requires
        0 <= n < text.len(),
    ensures
        diagnostics::printable_upto(text, 0).len() == 0,
        diagnostics::printable_upto(text, n + 1) == if ' ' <= text[n] <= '~' {
            diagnostics::printable_upto(text, n).push(text[n])
        } else {
            diagnostics::printable_upto(text, n)
        },
        diagnostics::shown_text(text).len() <= 256,
        diagnostics::printable_upto(text, text.len() as int).len() <= 256
            ==> diagnostics::shown_text(text) == diagnostics::printable_upto(
            text,
            text.len() as int,
        ),
        diagnostics::shown_text(text).is_prefix_of(
            diagnostics::printable_upto(text, text.len() as int),
        ),
{
}

/// A printable text that is not too long is shown as it is.
pub proof fn printable_texts_are_shown(text: Seq<char>)
    requires
        model::all_printable(text),
        text.len() <= 256,
    ensures
        diagnostics::shown_text(text) == text,
{
    lemma_printable(text, text.len() as int);
    assert(text.take(text.len() as int) =~= text);
}

proof fn lemma_printable(text: Seq<char>, n: int)
    requires
        model::all_printable(text),
        0 <= n <= text.len(),
    ensures
        diagnostics::printable_upto(text, n) == text.take(n),
    decreases n,
{
    if n > 0 {
        lemma_printable(text, n - 1);
        assert(model::printable(text[n - 1]));
        assert(text.take(n) =~= text.take(n - 1).push(text[n - 1]));
    } else {
        assert(text.take(0) =~= Seq::<char>::empty());
    }
}

/// Capital letters count as the small ones, and no other character is taken for another.
pub proof fn capitals_are_lowered(c: char)
    ensures
        'A' <= c <= 'Z' ==> diagnostics::lowered(c) as int == c as int + 32,
        !('A' <= c <= 'Z') ==> diagnostics::lowered(c) == c,
        !('A' <= diagnostics::lowered(c) <= 'Z'),
{
}

/// A text mentions words wherever they stand in it.
pub proof fn texts_mention_what_stands_in_them(
    before: Seq<char>,
    words: Seq<char>,
    after: Seq<char>,
)
    requires
        forall|i: int| 0 <= i < words.len() ==> !('A' <= #[trigger] words[i] <= 'Z'),
    ensures
        diagnostics::mentions(before + words + after, words),
{
    let text = before + words + after;
    assert(diagnostics::stands_at(text, words, before.len() as int)) by {
        assert forall|j: int| 0 <= j < words.len() implies diagnostics::lowered(
            #[trigger] text[before.len() + j],
        ) == words[j] by {
            assert(text[before.len() + j] == words[j]);
        }
    }
}

/// A text mentions nothing that is longer than it.
pub proof fn short_texts_mention_no_long_words(text: Seq<char>, words: Seq<char>)
    requires
        text.len() < words.len(),
    ensures
        !diagnostics::mentions(text, words),
{
    assert forall|i: int| !(#[trigger] diagnostics::stands_at(text, words, i)) by {}
}

/// A command was denied if it says so in either way.
pub proof fn denied_commands_say_so(before: Seq<char>, after: Seq<char>)
    ensures
        diagnostics::says_denied(before + "operation not permitted"@ + after),
        diagnostics::says_denied(before + "permission denied"@ + after),
        forall|message: Seq<char>|
            message.len() < 17 ==> !(#[trigger] diagnostics::says_denied(message)),
{
    reveal_strlit("operation not permitted");
    reveal_strlit("permission denied");
    texts_mention_what_stands_in_them(before, "operation not permitted"@, after);
    texts_mention_what_stands_in_them(before, "permission denied"@, after);
    assert forall|message: Seq<char>| message.len() < 17 implies !(
    #[trigger] diagnostics::says_denied(message)) by {
        short_texts_mention_no_long_words(message, "operation not permitted"@);
        short_texts_mention_no_long_words(message, "permission denied"@);
    }
}

/// Faults of the system keep their kind.
pub proof fn system_faults_keep_their_kind(kind: IoErrorKind)
    ensures
        diagnostics::io_code(kind) is PermissionDenied <==> kind is PermissionDenied,
        diagnostics::io_code(kind) is NotFound <==> kind is NotFound,
        diagnostics::io_code(kind) is Io <==> kind is Other,
{
}

/// Faults of queueing disciplines keep their kind. A command that fails was denied if it
/// says so.
pub proof fn discipline_faults_keep_their_kind(kind: TcErrorKind, message: Seq<char>)
    ensures
        ({
            let code = diagnostics::tc_code(kind, message);
            let failed = kind is CommandFailed;
            &&& code is Unsupported <==> kind is Unsupported
            &&& code is Internal <==> kind is InvalidRequest
            &&& code is PermissionDenied <==> kind is PermissionDenied || (failed
                && diagnostics::says_denied(message))
            &&& code is NotFound <==> kind is NotFound
            &&& code is Io <==> kind is Io || (failed && !diagnostics::says_denied(message))
            &&& code is Timeout <==> kind is Timeout
            &&& code is OutputLimit <==> kind is OutputLimit
            &&& code is CardinalityLimit <==> kind is CardinalityLimit
            &&& code is SchemaMismatch <==> kind is SchemaMismatch
        }),
{
}

/// Faults of packet filters keep their kind; a command that is not there is not supported.
pub proof fn filter_faults_keep_their_kind(kind: NetfilterErrorKind)
    ensures
        ({
            let code = diagnostics::netfilter_code(kind);
            &&& code is Unsupported <==> kind is NotFound
            &&& code is PermissionDenied <==> kind is PermissionDenied
            &&& code is Io <==> kind is Io || kind is CommandFailed
            &&& code is Timeout <==> kind is Timeout
            &&& code is OutputLimit <==> kind is OutputLimit
            &&& code is CardinalityLimit <==> kind is CardinalityLimit
            &&& code is SchemaMismatch <==> kind is SchemaMismatch
        }),
{
}

/// Labels can be made of entries exactly if every value can be shown and no name stands
/// twice.
pub proof fn labels_are_refused_for_a_reason(entries: Seq<Label<Seq<char>>>, n: int)
    requires
        0 <= n <= entries.len(),
    ensures
        model::labels_upto(entries, n) is Ok <==> {
            &&& forall|i: int| 0 <= i < n ==> model::valid_value((#[trigger] entries[i]).value)
            &&& forall|i: int, j: int|
                0 <= i < j < n ==> (#[trigger] entries[i]).label != (#[trigger] entries[j]).label
        },
        model::labels_upto(entries, n) matches Ok(labels) ==> labels.len() == n && forall|
            label: MetricLabel,
        |
            (#[trigger] model::label_value(labels, label) is Some) <==> exists|i: int|
                0 <= i < n && (#[trigger] entries[i]).label == label,
        model::labels_upto(entries, n) matches Err(error) ==> error
            == MonitorValidationError::InvalidLabelValue || error
            == MonitorValidationError::DuplicateLabel,
    decreases n,
{
    if n > 0 {
        labels_are_refused_for_a_reason(entries, n - 1);
        let new = entries[n - 1];
        if let Ok(labels) = model::labels_upto(entries, n - 1) {
            if model::label_value(labels, new.label) is Some {
                let i = choose|i: int|
                    0 <= i < n - 1 && (#[trigger] entries[i]).label == new.label;
                assert(entries[i].label == entries[n - 1].label);
            }
            if let Ok(all) = model::labels_upto(entries, n) {
                lemma_slot_within(labels, new.label);
                assert forall|label: MetricLabel|
                    (#[trigger] model::label_value(all, label) is Some) <==> exists|i: int|
                        0 <= i < n && (#[trigger] entries[i]).label == label by {
                    model::lemma_label_value_absent(all, label);
                    model::lemma_label_value_absent(labels, label);
                    let slot = model::label_slot(labels, new.label);
                    if label == new.label {
                        assert(all[slot].label == label);
                        assert(entries[n - 1].label == label);
                    } else if model::label_value(labels, label) is Some {
                        let k = choose|k: int|
                            0 <= k < labels.len() && (#[trigger] labels[k]).label == label;
                        if k < slot {
                            assert(all[k] == labels[k]);
                        } else {
                            assert(all[k + 1] == labels[k]);
                        }
                        let i = choose|i: int|
                            0 <= i < n - 1 && (#[trigger] entries[i]).label == label;
                        assert(entries[i].label == label);
                    } else {
                        if model::label_value(all, label) is Some {
                            let k = choose|k: int|
                                0 <= k < all.len() && (#[trigger] all[k]).label == label;
                            if k < slot {
                                assert(labels[k].label == label);
                            } else {
                                assert(labels[k - 1].label == label);
                            }
                        }
                    }
                }
            }
        }
    }
}

proof fn lemma_slot_within(labels: LabelsModel, label: MetricLabel)
    ensures
        0 <= model::label_slot(labels, label) <= labels.len(),
    decreases labels.len(),
{
    if labels.len() > 0 && labels.last().label.rank() >= label.rank() {
        lemma_slot_within(labels.drop_last(), label);
    }
}

/// A value of a label can be shown if it is not empty, not too long, and printable.
pub proof fn label_values_can_be_shown(value: Seq<char>)
    ensures
        model::valid_value(value) <==> {
            &&& 1 <= value.len() <= 256
            &&& forall|i: int| 0 <= i < value.len() ==> ' ' <= #[trigger] value[i] <= '~'
        },
{
    if forall|i: int| 0 <= i < value.len() ==> ' ' <= #[trigger] value[i] <= '~' {
        assert forall|i: int| 0 <= i < value.len() implies model::printable(
            #[trigger] value[i],
        ) by {}
    }
    if model::all_printable(value) {
        assert forall|i: int| 0 <= i < value.len() implies ' ' <= #[trigger] value[i] <= '~' by {
            assert(model::printable(value[i]));
        }
    }
}

/// Identities come by their metric first and by their labels next: a label that is missing
/// comes first, and of two labels of one name the lower value does.
pub proof fn identities_come_in_order(a: KeyModel, b: KeyModel, i: int)
    requires
        0 <= i <= a.labels.len(),
        i < b.labels.len(),
        forall|j: int| 0 <= j < i ==> #[trigger] a.labels[j] == b.labels[j],
    ensures
        text::text_before(a.metric, b.metric) ==> model::key_before(a, b),
        a.metric == b.metric && i == a.labels.len() ==> model::key_before(a, b),
        a.metric == b.metric && i < a.labels.len() && a.labels[i].label == b.labels[i].label
            && text::text_before(a.labels[i].value, b.labels[i].value) ==> model::key_before(a, b),
        a.metric == b.metric && i < a.labels.len() && a.labels[i].label.rank()
            < b.labels[i].label.rank() ==> model::key_before(a, b),
{
    lemma_labels_before(a.labels, b.labels, 0, i);
    if i < a.labels.len() && a.labels[i] == b.labels[i] {
        let value = a.labels[i].value;
        text::text_order_is_strict_and_total(value, value, value);
    }
}

proof fn lemma_labels_before(a: LabelsModel, b: LabelsModel, from: int, i: int)
    requires
        0 <= from <= i <= a.len(),
        i < b.len(),
        forall|j: int| 0 <= j < i ==> #[trigger] a[j] == b[j],
    ensures
        model::labels_before_from(a, b, from) == model::labels_before_from(a, b, i),
    decreases i - from,
{
    if from < i {
        assert(a[from] == b[from]);
        lemma_labels_before(a, b, from + 1, i);
    }
}

/// A provider delivers a metric under the name that the metric is read by, or under any name
/// that begins as a name with a star does.
pub proof fn sources_deliver_what_they_name(
    catalog: CatalogModel,
    provider: Seq<char>,
    raw: Seq<char>,
    d: int,
    s: int,
)
    requires
        0 <= d < catalog.len(),
        0 <= s < catalog[d].sources.len(),
        catalog[d].sources[s].provider == provider,
    ensures
        catalog[d].sources[s].raw_metric == raw ==> (catalog::metric_for_source(
            catalog,
            provider,
            raw,
        ) matches Some(found) && found <= d),
        ({
            let name = catalog[d].sources[s].raw_metric;
            let n = name.len() as int;
            n >= 2 && name[n - 2] == '.' && name[n - 1] == '*' && name.take(n - 2).is_prefix_of(raw)
        }) ==> (catalog::metric_for_source(catalog, provider, raw) matches Some(found) && found
            <= d),
{
    seqs::lemma_first_where(catalog, catalog::delivers(provider, raw), catalog.len() as int);
    let stem = catalog[d].sources[s].raw_metric.take(catalog[d].sources[s].raw_metric.len() - 2);
    if stem.is_prefix_of(raw) {
        assert(raw.take(stem.len() as int) =~= stem);
    }
    if catalog::source_matches(catalog[d].sources[s], provider, raw) {
        assert(catalog::delivers(provider, raw)(catalog[d]));
    }
}

/// The metric that a provider delivers under a name is the first that is read so.
pub proof fn delivered_metrics_are_read_so(
    catalog: CatalogModel,
    provider: Seq<char>,
    raw: Seq<char>,
)
    ensures
        catalog::metric_for_source(catalog, provider, raw) matches Some(d) ==> {
            &&& 0 <= d < catalog.len()
            &&& exists|s: int|
                0 <= s < catalog[d].sources.len() && (#[trigger] catalog[d].sources[s]).provider
                    == provider && {
                    let name = catalog[d].sources[s].raw_metric;
                    name == raw || (name.len() >= 2 && name[name.len() - 2] == '.'
                        && name[name.len() - 1] == '*' && raw.len() >= name.len() - 2 && forall|
                        i: int,
                    |
                        0 <= i < name.len() - 2 ==> #[trigger] raw[i] == name[i])
                }
        },
{
    seqs::lemma_first_where(catalog, catalog::delivers(provider, raw), catalog.len() as int);
    if let Some(d) = catalog::metric_for_source(catalog, provider, raw) {
        assert(catalog::delivers(provider, raw)(catalog[d]));
        let s = choose|s: int|
            0 <= s < catalog[d].sources.len() && catalog::source_matches(
                #[trigger] catalog[d].sources[s],
                provider,
                raw,
            );
        let name = catalog[d].sources[s].raw_metric;
        assert(catalog[d].sources[s].provider == provider);
        if name != raw {
            let stem = name.take(name.len() - 2);
            assert forall|i: int| 0 <= i < name.len() - 2 implies #[trigger] raw[i] == name[i] by {
                assert(stem[i] == name[i]);
                assert(raw.take(stem.len() as int)[i] == raw[i]);
            }
        }
    }
}

/// An attribute is the first of its name.
pub proof fn attributes_are_found_by_name(attributes: AttributesModel, name: Seq<char>, i: int)
    requires
        0 <= i < attributes.len(),
        attributes[i].name == name,
        forall|j: int| 0 <= j < i ==> (#[trigger] attributes[j]).name != name,
    ensures
        evidence::attribute(attributes, name) == Some(attributes[i].value),
{
    let wanted = evidence::is_named(name);
    seqs::lemma_first_where(attributes, wanted, attributes.len() as int);
    assert(wanted(attributes[i]));
    if let Some(j) = seqs::first_where(attributes, wanted, attributes.len() as int) {
        if j < i {
            assert(attributes[j].name != name);
        }
    }
}

/// What is wrong with a sample is told in words of its own.
pub proof fn problems_are_told_in_words(error: MonitorValidationError)
    ensures
        ({
            let words = diagnostics::explanation(error);
            &&& error is UnknownMetric ==> words == "metric is not catalogued"@
            &&& error is MetricSourceMismatch ==> words == "metric is not read from this provider"@
            &&& error is MetricKindMismatch ==> words
                == "reading does not have the kind of its metric"@
            &&& error is DuplicateProvider ==> words == "provider occurs twice"@
            &&& error is DuplicateReading ==> words == "metric identity occurs twice"@
            &&& error is TooManyProviderReadings ==> words == "provider has too many readings"@
            &&& error is UnexpectedReadings ==> words == "failed provider has readings"@
            &&& error is DuplicateLabel ==> words == "label occurs twice"@
            &&& error is InvalidLabelValue ==> words == "label value is not valid"@
            &&& error is InvalidStateValue ==> words == "state value is not valid"@
            &&& error is InvalidDiagnostic ==> words == "diagnostic is not valid"@
        }),
{
}

} // verus!
