//! Bounded diagnostics, and the samples that report a failed collection.
use crate::catalog;
use crate::catalog::{MetricCatalog, ProviderSample, SampleModel};
use crate::model;
use crate::model::{
    MonitorError, MonitorErrorCode, MonitorValidationError, Nanos, ProviderHealth, ReadingModel,
    SampleReading, MAX_DIAGNOSTIC_BYTES,
};
use crate::text;
use crate::text::{chars_of, owned};
use vstd::prelude::*;
use vstd::string::*;
use vstd::utf8::*;

verus! {

/// A byte as a diagnostic shows it: printable ASCII as it is, anything else as `?`.
pub open spec fn shown_byte(byte: u8) -> char {
    if 0x20 <= byte <= 0x7e {
        byte as char
    } else {
        '?'
    }
}

/// The text that stands for a diagnostic that says nothing.
pub const NO_DIAGNOSTIC: &'static str = "collector failed without a diagnostic";

/// A diagnostic made printable and cut to the limit.
pub open spec fn bounded_diagnostic(diagnostic: Seq<char>) -> Seq<char> {
    let bytes = encode_utf8(diagnostic);
    if bytes.len() == 0 {
        NO_DIAGNOSTIC@
    } else {
        Seq::new(
            if bytes.len() < MAX_DIAGNOSTIC_BYTES {
                bytes.len()
            } else {
                MAX_DIAGNOSTIC_BYTES as nat
            },
            |i: int| shown_byte(bytes[i]),
        )
    }
}

pub open spec fn error_with(code: MonitorErrorCode, diagnostic: Seq<char>) -> MonitorError<
    Seq<char>,
> {
    MonitorError { code, diagnostic: bounded_diagnostic(diagnostic) }
}

/// An error with its diagnostic made printable and cut to the limit.
pub fn monitor_error(code: MonitorErrorCode, diagnostic: &str) -> (error: MonitorError<String>)
    ensures
        error.deep_view() == error_with(code, diagnostic@),
{
    let bytes = diagnostic.as_bytes();
    if bytes.len() == 0 {
        return MonitorError { code, diagnostic: owned(NO_DIAGNOSTIC) };
    }
    let ghost target = bounded_diagnostic(diagnostic@);
    let mut shown = String::new();
    let mut i: usize = 0;
    while i < bytes.len() && i < MAX_DIAGNOSTIC_BYTES
        invariant
            i <= bytes.len(),
            i <= MAX_DIAGNOSTIC_BYTES,
            bytes@ == encode_utf8(diagnostic@),
            bytes@.len() > 0,
            target == bounded_diagnostic(diagnostic@),
            shown@.len() == i,
            forall|j: int| 0 <= j < i ==> shown@[j] == shown_byte(bytes@[j]),
        decreases bytes.len() - i,
    {
        let byte: u8 = bytes[i];
        if 0x20 <= byte && byte <= 0x7e {
            shown.push(byte as char);
        } else {
            shown.push('?');
        }
        i += 1;
    }
    assert(shown@ =~= target);
    MonitorError { code, diagnostic: shown }
}

/// Every diagnostic that is reported is printable, not empty and within the limit.
pub proof fn diagnostics_are_bounded_and_printable(diagnostic: Seq<char>)
    ensures
        1 <= bounded_diagnostic(diagnostic).len() <= MAX_DIAGNOSTIC_BYTES,
        model::all_printable(bounded_diagnostic(diagnostic)),
{
    reveal_strlit("collector failed without a diagnostic");
}

/// The printable ASCII characters among the first `n`.
pub open spec fn printable_upto(text: Seq<char>, n: int) -> Seq<char>
    decreases n,
{
    if n <= 0 {
        Seq::empty()
    } else if model::printable(text[n - 1]) {
        printable_upto(text, n - 1).push(text[n - 1])
    } else {
        printable_upto(text, n - 1)
    }
}

/// A text without what is not printable, cut to the limit of diagnostics.
pub open spec fn shown_text(text: Seq<char>) -> Seq<char> {
    let shown = printable_upto(text, text.len() as int);
    if shown.len() > MAX_DIAGNOSTIC_BYTES {
        shown.take(MAX_DIAGNOSTIC_BYTES as int)
    } else {
        shown
    }
}

proof fn lemma_printable(text: Seq<char>, n: int)
    requires
        0 <= n <= text.len(),
    ensures
        model::all_printable(printable_upto(text, n)),
        n > 0 && model::printable(text[0]) ==> printable_upto(text, n).len() > 0,
    decreases n,
{
    if n > 0 {
        lemma_printable(text, n - 1);
        let shorter = printable_upto(text, n - 1);
        let shown = printable_upto(text, n);
        assert forall|i: int| 0 <= i < shown.len() implies model::printable(
            #[trigger] shown[i],
        ) by {
            if i < shorter.len() {
                assert(shown[i] == shorter[i]);
            }
        }
    }
}

proof fn lemma_shown_prefix(text: Seq<char>, m: int, n: int)
    requires
        0 <= m <= n,
    ensures
        printable_upto(text, m).len() <= printable_upto(text, n).len(),
        printable_upto(text, n).take(printable_upto(text, m).len() as int) == printable_upto(
            text,
            m,
        ),
    decreases n - m,
{
    let a = printable_upto(text, m);
    let b = printable_upto(text, n);
    if m < n {
        lemma_shown_prefix(text, m, n - 1);
        let c = printable_upto(text, n - 1);
        assert(b.take(a.len() as int) =~= c.take(a.len() as int));
    } else {
        assert(b.take(a.len() as int) =~= a);
    }
}

/// A text without what is not printable, cut to the limit of diagnostics.
pub fn printable_text(text: &str) -> (shown: String)
    ensures
        shown@ == shown_text(text@),
{
    let chars = chars_of(text);
    let mut shown = String::new();
    let mut kept: usize = 0;
    for i in 0..chars.len()
        invariant
            chars@ == text@,
            kept <= MAX_DIAGNOSTIC_BYTES,
            kept == shown@.len(),
            shown@ == printable_upto(text@, i as int),
    {
        if ' ' <= chars[i] && chars[i] <= '~' {
            if kept == MAX_DIAGNOSTIC_BYTES {
                proof {
                    lemma_shown_prefix(text@, i + 1, text@.len() as int);
                    lemma_shown_prefix(text@, i as int, text@.len() as int);
                }
                return shown;
            }
            shown.push(chars[i]);
            kept += 1;
        }
    }
    shown
}

/// Such a text is printable and within the limit, and not empty if it starts with
/// something printable.
pub proof fn lemma_shown_text(text: Seq<char>)
    ensures
        model::all_printable(shown_text(text)),
        shown_text(text).len() <= MAX_DIAGNOSTIC_BYTES,
        text.len() > 0 && model::printable(text[0]) ==> shown_text(text).len() > 0,
{
    lemma_printable(text, text.len() as int);
}

/// The error that a health carries.
pub open spec fn health_error<T>(health: ProviderHealth<T>) -> Option<MonitorError<T>> {
    match health {
        ProviderHealth::Fresh => None,
        ProviderHealth::Partial { warning } => Some(warning),
        ProviderHealth::Stale { cause, .. } => Some(cause),
        ProviderHealth::Unsupported { reason } => Some(reason),
        ProviderHealth::PermissionDenied { reason } => Some(reason),
        ProviderHealth::Error { error } => Some(error),
    }
}

/// The health that reports an error: some codes have a health of their own.
pub open spec fn failed_health(error: MonitorError<Seq<char>>) -> ProviderHealth<Seq<char>> {
    match error.code {
        MonitorErrorCode::Unsupported => ProviderHealth::Unsupported { reason: error },
        MonitorErrorCode::PermissionDenied => ProviderHealth::PermissionDenied { reason: error },
        _ => ProviderHealth::Error { error },
    }
}

/// The sample that reports a failed collection.
pub open spec fn failed_sample(
    provider: Seq<char>,
    finished_at: Nanos,
    collection_duration: Nanos,
    code: MonitorErrorCode,
    diagnostic: Seq<char>,
) -> SampleModel {
    SampleModel {
        provider,
        finished_at,
        collection_duration,
        health: failed_health(error_with(code, diagnostic)),
        readings: Seq::empty(),
    }
}

pub fn error_sample(
    provider: &str,
    finished_at: Nanos,
    collection_duration: Nanos,
    code: MonitorErrorCode,
    diagnostic: &str,
) -> (sample: ProviderSample)
    ensures
        sample.deep_view() == failed_sample(
            provider@,
            finished_at,
            collection_duration,
            code,
            diagnostic@,
        ),
{
    let error = monitor_error(code, diagnostic);
    let health = match code {
        MonitorErrorCode::Unsupported => ProviderHealth::Unsupported { reason: error },
        MonitorErrorCode::PermissionDenied => ProviderHealth::PermissionDenied { reason: error },
        _ => ProviderHealth::Error { error },
    };
    let sample = ProviderSample {
        provider: owned(provider),
        finished_at,
        collection_duration,
        health,
        readings: Vec::new(),
    };
    assert(sample.deep_view().readings =~= Seq::<ReadingModel>::empty());
    sample
}

/// What is wrong with a sample, in words.
pub open spec fn explanation(error: MonitorValidationError) -> Seq<char> {
    match error {
        MonitorValidationError::UnknownMetric => "metric is not catalogued"@,
        MonitorValidationError::MetricSourceMismatch => "metric is not read from this provider"@,
        MonitorValidationError::MetricKindMismatch => "reading does not have the kind of its metric"@,
        MonitorValidationError::DuplicateProvider => "provider occurs twice"@,
        MonitorValidationError::DuplicateReading => "metric identity occurs twice"@,
        MonitorValidationError::TooManyProviderReadings => "provider has too many readings"@,
        MonitorValidationError::UnexpectedReadings => "failed provider has readings"@,
        MonitorValidationError::DuplicateLabel => "label occurs twice"@,
        MonitorValidationError::InvalidLabelValue => "label value is not valid"@,
        MonitorValidationError::InvalidStateValue => "state value is not valid"@,
        MonitorValidationError::InvalidDiagnostic => "diagnostic is not valid"@,
    }
}

pub fn explain(error: MonitorValidationError) -> (words: &'static str)
    ensures
        words@ == explanation(error),
{
    match error {
        MonitorValidationError::UnknownMetric => "metric is not catalogued",
        MonitorValidationError::MetricSourceMismatch => "metric is not read from this provider",
        MonitorValidationError::MetricKindMismatch => "reading does not have the kind of its metric",
        MonitorValidationError::DuplicateProvider => "provider occurs twice",
        MonitorValidationError::DuplicateReading => "metric identity occurs twice",
        MonitorValidationError::TooManyProviderReadings => "provider has too many readings",
        MonitorValidationError::UnexpectedReadings => "failed provider has readings",
        MonitorValidationError::DuplicateLabel => "label occurs twice",
        MonitorValidationError::InvalidLabelValue => "label value is not valid",
        MonitorValidationError::InvalidStateValue => "state value is not valid",
        MonitorValidationError::InvalidDiagnostic => "diagnostic is not valid",
    }
}

/// The sample that readings make; where they do not agree with the catalog, the
/// sample that says so.
pub open spec fn sample_or_failure(
    catalog: catalog::CatalogModel,
    provider: Seq<char>,
    finished_at: Nanos,
    collection_duration: Nanos,
    health: ProviderHealth<Seq<char>>,
    readings: Seq<ReadingModel>,
) -> SampleModel {
    match catalog::built_sample(
        catalog,
        provider,
        finished_at,
        collection_duration,
        health,
        readings,
    ) {
        Ok(sample) => sample,
        Err(error) => failed_sample(
            provider,
            finished_at,
            collection_duration,
            MonitorErrorCode::Internal,
            explanation(error),
        ),
    }
}

pub fn provider_sample(
    catalog: &MetricCatalog,
    provider: &str,
    finished_at: Nanos,
    collection_duration: Nanos,
    health: ProviderHealth<String>,
    readings: Vec<SampleReading>,
) -> (sample: ProviderSample)
    ensures
        sample.deep_view() == sample_or_failure(
            catalog.deep_view(),
            provider@,
            finished_at,
            collection_duration,
            health.deep_view(),
            readings.deep_view(),
        ),
        catalog::sample_valid(catalog.deep_view(), sample.deep_view()),
{
    match ProviderSample::new(
        catalog,
        owned(provider),
        finished_at,
        collection_duration,
        health,
        readings,
    ) {
        Ok(sample) => sample,
        Err(error) => error_sample(
            provider,
            finished_at,
            collection_duration,
            MonitorErrorCode::Internal,
            explain(error),
        ),
    }
}

/// A character with an upper-case ASCII letter made lower-case.
pub open spec fn lowered(c: char) -> char {
    if 'A' <= c <= 'Z' {
        ((c as u8) + 32) as u8 as char
    } else {
        c
    }
}

fn lower(c: char) -> (l: char)
    ensures
        l == lowered(c),
{
    if 'A' <= c && c <= 'Z' {
        (c as u8 + 32) as char
    } else {
        c
    }
}

/// Whether `words` stands in `text` at position `i`, whatever the case of the text.
pub open spec fn stands_at(text: Seq<char>, words: Seq<char>, i: int) -> bool {
    &&& 0 <= i
    &&& i + words.len() <= text.len()
    &&& forall|j: int| 0 <= j < words.len() ==> lowered(#[trigger] text[i + j]) == words[j]
}

/// Whether `words`, in lower case, stands somewhere in `text`.
pub open spec fn mentions(text: Seq<char>, words: Seq<char>) -> bool {
    exists|i: int| #[trigger] stands_at(text, words, i)
}

fn words_at(text: &Vec<char>, words: &Vec<char>, i: usize) -> (found: bool)
    requires
        i + words.len() <= text.len(),
    ensures
        found == stands_at(text@, words@, i as int),
{
    let mut j: usize = 0;
    while j < words.len()
        invariant
            j <= words.len(),
            i + words.len() <= text.len(),
            forall|k: int| 0 <= k < j ==> lowered(#[trigger] text@[i + k]) == words@[k],
        decreases words.len() - j,
    {
        if lower(text[i + j]) != words[j] {
            assert(lowered(text@[i + j]) != words@[j as int]);
            return false;
        }
        j += 1;
    }
    true
}

pub fn mentions_words(text: &str, words: &str) -> (found: bool)
    ensures
        found == mentions(text@, words@),
{
    let x = chars_of(text);
    let y = chars_of(words);
    if y.len() > x.len() {
        return false;
    }
    let last: usize = x.len() - y.len();
    let mut i: usize = 0;
    loop
        invariant
            x@ == text@,
            y@ == words@,
            last == x.len() - y.len(),
            i <= last,
            forall|k: int| 0 <= k < i ==> !#[trigger] stands_at(text@, words@, k),
        decreases last - i,
    {
        if words_at(&x, &y, i) {
            return true;
        }
        if i == last {
            assert forall|k: int| !#[trigger] stands_at(text@, words@, k) by {
                if stands_at(text@, words@, k) {
                    assert(k <= last);
                }
            }
            return false;
        }
        i += 1;
    }
}

/// Whether a message says that permission is missing.
pub open spec fn says_denied(message: Seq<char>) -> bool {
    mentions(message, "operation not permitted"@) || mentions(message, "permission denied"@)
}

pub fn is_permission_message(message: &str) -> (denied: bool)
    ensures
        denied == says_denied(message@),
{
    mentions_words(message, "operation not permitted") || mentions_words(
        message,
        "permission denied",
    )
}

/// What kind of I/O error stopped a collection.
#[derive(Clone, Copy, Debug, PartialEq, Eq, Structural)]
pub enum IoErrorKind {
    PermissionDenied,
    NotFound,
    Other,
}

pub open spec fn io_code(kind: IoErrorKind) -> MonitorErrorCode {
    match kind {
        IoErrorKind::PermissionDenied => MonitorErrorCode::PermissionDenied,
        IoErrorKind::NotFound => MonitorErrorCode::NotFound,
        IoErrorKind::Other => MonitorErrorCode::Io,
    }
}

pub fn io_error_kind_code(kind: IoErrorKind) -> (code: MonitorErrorCode)
    ensures
        code == io_code(kind),
{
    match kind {
        IoErrorKind::PermissionDenied => MonitorErrorCode::PermissionDenied,
        IoErrorKind::NotFound => MonitorErrorCode::NotFound,
        IoErrorKind::Other => MonitorErrorCode::Io,
    }
}

/// How an interrupt collection failed.
#[derive(Clone, Copy, Debug, PartialEq, Eq, Structural)]
pub enum IrqErrorKind {
    Io(IoErrorKind),
    Parse,
}

/// How a queueing discipline collection failed.
#[derive(Clone, Copy, Debug, PartialEq, Eq, Structural)]
pub enum TcErrorKind {
    Unsupported,
    InvalidRequest,
    PermissionDenied,
    NotFound,
    Io,
    Timeout,
    OutputLimit,
    CardinalityLimit,
    SchemaMismatch,
    CommandFailed,
}

/// How a rule set collection failed.
#[derive(Clone, Copy, Debug, PartialEq, Eq, Structural)]
pub enum NetfilterErrorKind {
    NotFound,
    PermissionDenied,
    Io,
    CommandFailed,
    Timeout,
    OutputLimit,
    CardinalityLimit,
    SchemaMismatch,
}

pub open spec fn tc_code(kind: TcErrorKind, message: Seq<char>) -> MonitorErrorCode {
    match kind {
        TcErrorKind::Unsupported => MonitorErrorCode::Unsupported,
        TcErrorKind::InvalidRequest => MonitorErrorCode::Internal,
        TcErrorKind::PermissionDenied => MonitorErrorCode::PermissionDenied,
        TcErrorKind::NotFound => MonitorErrorCode::NotFound,
        TcErrorKind::Io => MonitorErrorCode::Io,
        TcErrorKind::Timeout => MonitorErrorCode::Timeout,
        TcErrorKind::OutputLimit => MonitorErrorCode::OutputLimit,
        TcErrorKind::CardinalityLimit => MonitorErrorCode::CardinalityLimit,
        TcErrorKind::SchemaMismatch => MonitorErrorCode::SchemaMismatch,
        TcErrorKind::CommandFailed => if says_denied(message) {
            MonitorErrorCode::PermissionDenied
        } else {
            MonitorErrorCode::Io
        },
    }
}

pub open spec fn netfilter_code(kind: NetfilterErrorKind) -> MonitorErrorCode {
    match kind {
        NetfilterErrorKind::NotFound => MonitorErrorCode::Unsupported,
        NetfilterErrorKind::PermissionDenied => MonitorErrorCode::PermissionDenied,
        NetfilterErrorKind::Io => MonitorErrorCode::Io,
        NetfilterErrorKind::CommandFailed => MonitorErrorCode::Io,
        NetfilterErrorKind::Timeout => MonitorErrorCode::Timeout,
        NetfilterErrorKind::OutputLimit => MonitorErrorCode::OutputLimit,
        NetfilterErrorKind::CardinalityLimit => MonitorErrorCode::CardinalityLimit,
        NetfilterErrorKind::SchemaMismatch => MonitorErrorCode::SchemaMismatch,
    }
}

/// A collection that failed: the code that the monitor reports, and the message of
/// the collector.
#[derive(Clone, Debug, PartialEq, Eq)]
pub struct AttemptError {
    pub code: MonitorErrorCode,
    pub message: String,
}

impl AttemptError {
    pub fn internal(message: String) -> (error: AttemptError)
        ensures
            error == (AttemptError { code: MonitorErrorCode::Internal, message }),
    {
        AttemptError { code: MonitorErrorCode::Internal, message }
    }

    /// A procfs collection failed: on I/O if an I/O error is among the causes, else
    /// on the contents.
    pub fn proc(io: Option<IoErrorKind>, message: String) -> (error: AttemptError)
        ensures
            error == (AttemptError {
                code: match io {
                    Some(kind) => io_code(kind),
                    None => MonitorErrorCode::Parse,
                },
                message,
            }),
            error.code is Parse <==> io is None,
            error.code is NotFound <==> io == Some(IoErrorKind::NotFound),
    {
        let code = match io {
            Some(kind) => io_error_kind_code(kind),
            None => MonitorErrorCode::Parse,
        };
        AttemptError { code, message }
    }

    /// A link counter collection failed: on the contents if something could not be
    /// parsed, else on I/O.
    pub fn link(parse_errors: u64, message: String) -> (error: AttemptError)
        ensures
            error == (AttemptError {
                code: if parse_errors != 0 {
                    MonitorErrorCode::Parse
                } else {
                    MonitorErrorCode::Io
                },
                message,
            }),
            error.code is Parse <==> parse_errors > 0,
            error.code is Io <==> parse_errors == 0,
    {
        let code = if parse_errors != 0 {
            MonitorErrorCode::Parse
        } else {
            MonitorErrorCode::Io
        };
        AttemptError { code, message }
    }

    pub fn irq(kind: IrqErrorKind, message: String) -> (error: AttemptError)
        ensures
            error == (AttemptError {
                code: match kind {
                    IrqErrorKind::Io(io) => io_code(io),
                    IrqErrorKind::Parse => MonitorErrorCode::Parse,
                },
                message,
            }),
            error.code is Parse <==> kind is Parse,
            error.code is PermissionDenied <==> kind == IrqErrorKind::Io(
                IoErrorKind::PermissionDenied,
            ),
    {
        let code = match kind {
            IrqErrorKind::Io(io) => io_error_kind_code(io),
            IrqErrorKind::Parse => MonitorErrorCode::Parse,
        };
        AttemptError { code, message }
    }

    pub fn tc(kind: TcErrorKind, message: String) -> (error: AttemptError)
        ensures
            error == (AttemptError { code: tc_code(kind, message@), message }),
    {
        let code = match kind {
            TcErrorKind::Unsupported => MonitorErrorCode::Unsupported,
            TcErrorKind::InvalidRequest => MonitorErrorCode::Internal,
            TcErrorKind::PermissionDenied => MonitorErrorCode::PermissionDenied,
            TcErrorKind::NotFound => MonitorErrorCode::NotFound,
            TcErrorKind::Io => MonitorErrorCode::Io,
            TcErrorKind::Timeout => MonitorErrorCode::Timeout,
            TcErrorKind::OutputLimit => MonitorErrorCode::OutputLimit,
            TcErrorKind::CardinalityLimit => MonitorErrorCode::CardinalityLimit,
            TcErrorKind::SchemaMismatch => MonitorErrorCode::SchemaMismatch,
            TcErrorKind::CommandFailed => if is_permission_message(message.as_str()) {
                MonitorErrorCode::PermissionDenied
            } else {
                MonitorErrorCode::Io
            },
        };
        AttemptError { code, message }
    }

    pub fn netfilter(kind: NetfilterErrorKind, message: String) -> (error: AttemptError)
        ensures
            error == (AttemptError { code: netfilter_code(kind), message }),
    {
        let code = match kind {
            NetfilterErrorKind::NotFound => MonitorErrorCode::Unsupported,
            NetfilterErrorKind::PermissionDenied => MonitorErrorCode::PermissionDenied,
            NetfilterErrorKind::Io => MonitorErrorCode::Io,
            NetfilterErrorKind::CommandFailed => MonitorErrorCode::Io,
            NetfilterErrorKind::Timeout => MonitorErrorCode::Timeout,
            NetfilterErrorKind::OutputLimit => MonitorErrorCode::OutputLimit,
            NetfilterErrorKind::CardinalityLimit => MonitorErrorCode::CardinalityLimit,
            NetfilterErrorKind::SchemaMismatch => MonitorErrorCode::SchemaMismatch,
        };
        AttemptError { code, message }
    }
}

} // verus!
