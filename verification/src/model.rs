//! The monitor's data model: metric identities, readings, provider health and
//! projected series values.
//!
//! Types that carry text take the text type as a parameter, so that the value a
//! program holds (`String`) and the value a contract speaks of (`Seq<char>`) are
//! two instances of one definition. Times and durations are nanoseconds.
use crate::seqs;
use crate::text;
use crate::text::{chars_of, comes_before, owned, same_text};
use vstd::prelude::*;

verus! {

/// Nanoseconds since the start of the session, or a length of time.
pub type Nanos = u128;

pub const MAX_READINGS_PER_PROVIDER: usize = 4096;

pub const MAX_DIAGNOSTIC_BYTES: usize = 256;

pub const MAX_LABEL_VALUE_BYTES: usize = 256;

#[derive(Clone, Copy, Debug, PartialEq, Eq, Structural)]
pub enum CounterBits {
    Bits32,
    Bits64,
}

#[derive(Clone, Copy, Debug, PartialEq, Eq, Structural)]
pub enum MetricKind {
    Counter,
    Gauge,
    State,
}

#[derive(Clone, Copy, Debug, PartialEq, Eq, Structural)]
pub enum UnavailableReason {
    Missing,
    InvalidValue,
    NotApplicable,
}

#[derive(Clone, Copy, Debug, PartialEq, Eq, Structural)]
pub enum MonitorErrorCode {
    Io,
    Timeout,
    PermissionDenied,
    NotFound,
    Unsupported,
    Parse,
    SchemaMismatch,
    OutputLimit,
    CardinalityLimit,
    Internal,
}

#[derive(Clone, Copy, Debug, PartialEq, Eq, Structural)]
pub enum MonitorValidationError {
    UnknownMetric,
    MetricSourceMismatch,
    MetricKindMismatch,
    DuplicateProvider,
    DuplicateReading,
    TooManyProviderReadings,
    UnexpectedReadings,
    DuplicateLabel,
    InvalidLabelValue,
    InvalidStateValue,
    InvalidDiagnostic,
}

#[derive(Clone, Copy, Debug, PartialEq, Eq, Structural)]
pub enum MetricLabel {
    Interface,
    Ifindex,
    Cpu,
    InterruptClass,
    Statistic,
    Direction,
    ObjectKind,
    QdiscKind,
    QdiscAttachment,
    Handle,
    Execution,
    Backend,
    Family,
    Table,
    Chain,
    Hook,
    Priority,
    Verdict,
    RowId,
}

impl MetricLabel {
    /// The position of the label in the order of declaration, which is the order
    /// in which labels are kept.
    pub open spec fn rank(self) -> int {
        match self {
            MetricLabel::Interface => 0,
            MetricLabel::Ifindex => 1,
            MetricLabel::Cpu => 2,
            MetricLabel::InterruptClass => 3,
            MetricLabel::Statistic => 4,
            MetricLabel::Direction => 5,
            MetricLabel::ObjectKind => 6,
            MetricLabel::QdiscKind => 7,
            MetricLabel::QdiscAttachment => 8,
            MetricLabel::Handle => 9,
            MetricLabel::Execution => 10,
            MetricLabel::Backend => 11,
            MetricLabel::Family => 12,
            MetricLabel::Table => 13,
            MetricLabel::Chain => 14,
            MetricLabel::Hook => 15,
            MetricLabel::Priority => 16,
            MetricLabel::Verdict => 17,
            MetricLabel::RowId => 18,
        }
    }

    pub fn position(self) -> (p: u8)
        ensures
            p == self.rank(),
    {
        match self {
            MetricLabel::Interface => 0,
            MetricLabel::Ifindex => 1,
            MetricLabel::Cpu => 2,
            MetricLabel::InterruptClass => 3,
            MetricLabel::Statistic => 4,
            MetricLabel::Direction => 5,
            MetricLabel::ObjectKind => 6,
            MetricLabel::QdiscKind => 7,
            MetricLabel::QdiscAttachment => 8,
            MetricLabel::Handle => 9,
            MetricLabel::Execution => 10,
            MetricLabel::Backend => 11,
            MetricLabel::Family => 12,
            MetricLabel::Table => 13,
            MetricLabel::Chain => 14,
            MetricLabel::Hook => 15,
            MetricLabel::Priority => 16,
            MetricLabel::Verdict => 17,
            MetricLabel::RowId => 18,
        }
    }
}

/// Labels with the same rank are the same label.
proof fn lemma_rank_identifies(a: MetricLabel, b: MetricLabel)
    ensures
        a.rank() == b.rank() <==> a == b,
{
}

/// A label with its value.
#[derive(Clone, Debug, PartialEq, Eq)]
pub struct Label<T> {
    pub label: MetricLabel,
    pub value: T,
}

impl DeepView for Label<String> {
    type V = Label<Seq<char>>;

    open spec fn deep_view(&self) -> Label<Seq<char>> {
        Label { label: self.label, value: self.value@ }
    }
}

/// What a contract says of a set of labels: the pairs in label order.
pub type LabelsModel = Seq<Label<Seq<char>>>;

/// The labels of one metric identity, at most one value for each label, in label
/// order.
#[derive(Clone, Debug, PartialEq, Eq)]
pub struct MetricLabels {
    pub entries: Vec<Label<String>>,
}

impl DeepView for MetricLabels {
    type V = LabelsModel;

    open spec fn deep_view(&self) -> LabelsModel {
        self.entries.deep_view()
    }
}

/// Printable ASCII: the graphic characters and the space.
pub open spec fn printable(c: char) -> bool {
    ' ' <= c <= '~'
}

/// Whether every character is printable ASCII.
pub open spec fn all_printable(text: Seq<char>) -> bool {
    forall|i: int| 0 <= i < text.len() ==> printable(#[trigger] text[i])
}

/// Text that a label or a state may hold: printable, not empty and bounded.
pub open spec fn valid_value(text: Seq<char>) -> bool {
    1 <= text.len() <= MAX_LABEL_VALUE_BYTES && all_printable(text)
}

/// Whether `text` is printable, not empty and no longer than `limit` characters.
pub fn is_bounded_printable(text: &str, limit: usize) -> (valid: bool)
    ensures
        valid == (1 <= text@.len() <= limit && all_printable(text@)),
{
    let chars = chars_of(text);
    if chars.len() == 0 || chars.len() > limit {
        return false;
    }
    let mut i: usize = 0;
    while i < chars.len()
        invariant
            i <= chars.len(),
            chars@ == text@,
            forall|j: int| 0 <= j < i ==> printable(#[trigger] text@[j]),
        decreases chars.len() - i,
    {
        let c = chars[i];
        if !(' ' <= c && c <= '~') {
            assert(!printable(text@[i as int]));
            return false;
        }
        i += 1;
    }
    true
}

/// The decimal rendering of a number can be a label value.
pub proof fn lemma_decimal_is_valid(n: nat)
    requires
        n <= u64::MAX,
    ensures
        valid_value(text::decimal(n)),
{
    text::lemma_decimal_is_short(n);
    lemma_decimal_is_printable(n);
}

proof fn lemma_decimal_is_printable(n: nat)
    ensures
        all_printable(text::decimal(n)),
    decreases n,
{
    if n >= 10 {
        lemma_decimal_is_printable(n / 10);
    }
}

/// Whether the labels are in strictly ascending order.
pub open spec fn labels_ordered(labels: LabelsModel) -> bool {
    forall|i: int, j: int|
        0 <= i < j < labels.len() ==> (#[trigger] labels[i]).label.rank() < (
        #[trigger] labels[j]).label.rank()
}

/// The position at which `label` belongs among ordered labels: behind the lower ones.
pub open spec fn label_slot(labels: LabelsModel, label: MetricLabel) -> int
    decreases labels.len(),
{
    if labels.len() == 0 || labels.last().label.rank() < label.rank() {
        labels.len() as int
    } else {
        label_slot(labels.drop_last(), label)
    }
}

/// The value held for `label`, if there is one.
pub open spec fn label_value(labels: LabelsModel, label: MetricLabel) -> Option<Seq<char>>
    decreases labels.len(),
{
    if labels.len() == 0 {
        None
    } else if labels.last().label == label {
        Some(labels.last().value)
    } else {
        label_value(labels.drop_last(), label)
    }
}

/// The labels with one more pair put at its place.
pub open spec fn with_label(labels: LabelsModel, label: MetricLabel, value: Seq<char>) -> LabelsModel {
    labels.insert(label_slot(labels, label), Label { label, value })
}

pub proof fn lemma_label_slot(labels: LabelsModel, label: MetricLabel)
    requires
        labels_ordered(labels),
    ensures
        0 <= label_slot(labels, label) <= labels.len(),
        forall|i: int|
            0 <= i < label_slot(labels, label) ==> (#[trigger] labels[i]).label.rank()
                < label.rank(),
        forall|i: int|
            label_slot(labels, label) <= i < labels.len() ==> (#[trigger] labels[i]).label.rank()
                >= label.rank(),
    decreases labels.len(),
{
    if labels.len() > 0 && labels.last().label.rank() >= label.rank() {
        let rest = labels.drop_last();
        assert(labels_ordered(rest)) by {
            assert forall|i: int, j: int| 0 <= i < j < rest.len() implies (
            #[trigger] rest[i]).label.rank() < (#[trigger] rest[j]).label.rank() by {
                assert(rest[i] == labels[i] && rest[j] == labels[j]);
            }
        }
        lemma_label_slot(rest, label);
        assert forall|i: int| 0 <= i < label_slot(labels, label) implies (
        #[trigger] labels[i]).label.rank() < label.rank() by {
            assert(rest[i] == labels[i]);
        }
        assert forall|i: int| label_slot(labels, label) <= i < labels.len() implies (
        #[trigger] labels[i]).label.rank() >= label.rank() by {
            if i < rest.len() {
                assert(rest[i] == labels[i]);
            }
        }
    }
}

pub proof fn lemma_label_value_absent(labels: LabelsModel, label: MetricLabel)
    ensures
        label_value(labels, label) is None <==> forall|i: int|
            0 <= i < labels.len() ==> (#[trigger] labels[i]).label != label,
    decreases labels.len(),
{
    if labels.len() > 0 {
        let rest = labels.drop_last();
        lemma_label_value_absent(rest, label);
        if labels.last().label != label {
            if label_value(rest, label) is None {
                assert forall|i: int| 0 <= i < labels.len() implies (#[trigger] labels[i]).label
                    != label by {
                    if i < rest.len() {
                        assert(rest[i].label != label);
                        assert(rest[i] == labels[i]);
                    }
                }
            } else {
                let i = choose|i: int| 0 <= i < rest.len() && (#[trigger] rest[i]).label == label;
                assert(labels[i] == rest[i]);
            }
        } else {
            assert(labels[labels.len() - 1].label == label);
        }
    }
}

impl MetricLabels {
    pub open spec fn wf(&self) -> bool {
        labels_ordered(self.deep_view())
    }

    /// No labels.
    pub fn none() -> (labels: MetricLabels)
        ensures
            labels.deep_view() == LabelsModel::empty(),
            labels.wf(),
    {
        let labels = MetricLabels { entries: Vec::new() };
        assert(labels.deep_view() =~= LabelsModel::empty());
        labels
    }

    /// Adds one label. A label that is there already is an error, and so is a
    /// value that is empty, too long or not printable.
    pub fn put(&mut self, label: MetricLabel, value: String) -> (result: Result<
        (),
        MonitorValidationError,
    >)
        requires
            old(self).wf(),
        ensures
            final(self).wf(),
            match result {
                Ok(()) => valid_value(value@) && label_value(old(self).deep_view(), label) is None
                    && final(self).deep_view() == with_label(old(self).deep_view(), label, value@),
                Err(MonitorValidationError::InvalidLabelValue) => !valid_value(value@)
                    && final(self).deep_view() == old(self).deep_view(),
                Err(e) => e == MonitorValidationError::DuplicateLabel && valid_value(value@)
                    && label_value(old(self).deep_view(), label) is Some && final(self).deep_view()
                    == old(self).deep_view(),
            },
    {
        if !is_bounded_printable(value.as_str(), MAX_LABEL_VALUE_BYTES) {
            return Err(MonitorValidationError::InvalidLabelValue);
        }
        let ghost before = self.deep_view();
        proof {
            lemma_label_slot(before, label);
            lemma_label_value_absent(before, label);
        }
        let mut at: usize = self.entries.len();
        while at > 0 && self.entries[at - 1].label.position() >= label.position()
            invariant
                at <= self.entries.len(),
                self.deep_view() == before,
                labels_ordered(before),
                forall|i: int|
                    at <= i < before.len() ==> (#[trigger] before[i]).label.rank() >= label.rank(),
            decreases at,
        {
            at -= 1;
            assert(before[at as int].label == self.entries@[at as int].label);
        }
        proof {
            if at > 0 {
                assert(before[at - 1].label == self.entries@[at - 1].label);
                assert(before[at - 1].label.rank() < label.rank());
            }
            let slot = label_slot(before, label);
            if slot < at {
                assert(before[slot].label.rank() >= label.rank());
                assert(before[at - 1].label.rank() < label.rank());
                if slot < at - 1 {
                    assert(before[slot].label.rank() < before[at - 1].label.rank());
                }
            }
            if slot > at {
                assert(before[at as int].label.rank() < label.rank());
            }
            assert(slot == at);
        }
        if at < self.entries.len() && self.entries[at].label.position() == label.position() {
            proof {
                lemma_rank_identifies(before[at as int].label, label);
                assert(before[at as int].label == self.entries@[at as int].label);
            }
            return Err(MonitorValidationError::DuplicateLabel);
        }
        proof {
            assert forall|i: int| 0 <= i < before.len() implies (#[trigger] before[i]).label
                != label by {
                if i < at {
                    assert(before[i].label.rank() < label.rank());
                } else {
                    assert(before[at as int].label == self.entries@[at as int].label);
                    assert(before[at as int].label.rank() > label.rank());
                    if i > at {
                        assert(before[at as int].label.rank() < before[i].label.rank());
                    }
                }
            }
        }
        self.entries.insert(at, Label { label, value });
        proof {
            let after = with_label(before, label, value@);
            assert(self.deep_view() =~= after);
            assert forall|i: int, j: int| 0 <= i < j < after.len() implies (
            #[trigger] after[i]).label.rank() < (#[trigger] after[j]).label.rank() by {
                let a: int = if i < at { i } else { i - 1 };
                let b: int = if j < at { j } else { j - 1 };
                if i != at {
                    assert(after[i] == before[a]);
                }
                if j != at {
                    assert(after[j] == before[b]);
                }
                if i == at {
                    assert(before[b].label.rank() >= label.rank());
                    lemma_rank_identifies(before[b].label, label);
                }
            }
        }
        Ok(())
    }

    /// The value of one label.
    pub fn get(&self, label: MetricLabel) -> (value: Option<&str>)
        ensures
            match value {
                Some(text) => label_value(self.deep_view(), label) == Some(text@),
                None => label_value(self.deep_view(), label) is None,
            },
    {
        let ghost all = self.deep_view();
        let mut i: usize = self.entries.len();
        proof {
            assert(all.take(all.len() as int) =~= all);
        }
        while i > 0
            invariant
                i <= self.entries.len(),
                all == self.deep_view(),
                label_value(all, label) == label_value(all.take(i as int), label),
            decreases i,
        {
            proof {
                assert(all.take(i as int).drop_last() =~= all.take(i as int - 1));
                assert(all.take(i as int).last() == self.entries@[i as int - 1].deep_view());
            }
            if self.entries[i - 1].label == label {
                return Some(self.entries[i - 1].value.as_str());
            }
            i -= 1;
        }
        None
    }

    pub fn len(&self) -> (n: usize)
        ensures
            n == self.deep_view().len(),
    {
        self.entries.len()
    }

    pub fn is_empty(&self) -> (empty: bool)
        ensures
            empty == (self.deep_view().len() == 0),
    {
        self.entries.len() == 0
    }

    /// A copy of the labels.
    pub fn copy(&self) -> (labels: MetricLabels)
        ensures
            labels.deep_view() == self.deep_view(),
    {
        let mut entries: Vec<Label<String>> = Vec::new();
        for i in 0..self.entries.len()
            invariant
                entries.deep_view() == self.deep_view().take(i as int),
        {
            let ghost before = entries;
            entries.push(
                Label { label: self.entries[i].label, value: self.entries[i].value.clone() },
            );
            proof {
                seqs::lemma_deep_push(before, entries);
                seqs::lemma_take_push(self.deep_view(), i as int);
            }
        }
        assert(entries.deep_view() =~= self.deep_view());
        MetricLabels { entries }
    }

    /// Whether both hold the same labels with the same values.
    pub fn same(&self, other: &MetricLabels) -> (same: bool)
        ensures
            same == (self.deep_view() == other.deep_view()),
    {
        let ghost a = self.deep_view();
        let ghost b = other.deep_view();
        assert(a.len() == self.entries.len() && b.len() == other.entries.len());
        if self.entries.len() != other.entries.len() {
            return false;
        }
        let mut i: usize = 0;
        while i < self.entries.len()
            invariant
                i <= self.entries.len(),
                a == self.deep_view(),
                b == other.deep_view(),
                a.len() == b.len(),
                forall|j: int| 0 <= j < i ==> a[j] == b[j],
            decreases self.entries.len() - i,
        {
            let x = &self.entries[i];
            let y = &other.entries[i];
            if !(x.label == y.label && same_text(x.value.as_str(), y.value.as_str())) {
                assert(a[i as int] != b[i as int]);
                return false;
            }
            assert(a[i as int] == b[i as int]);
            i += 1;
        }
        assert(a =~= b);
        true
    }
}

/// The labels that the first `n` entries make, put one after the other.
pub open spec fn labels_upto(entries: Seq<Label<Seq<char>>>, n: int) -> Result<
    LabelsModel,
    MonitorValidationError,
>
    decreases n,
{
    if n <= 0 {
        Ok(LabelsModel::empty())
    } else {
        match labels_upto(entries, n - 1) {
            Err(error) => Err(error),
            Ok(labels) => if !valid_value(entries[n - 1].value) {
                Err(MonitorValidationError::InvalidLabelValue)
            } else if label_value(labels, entries[n - 1].label) is Some {
                Err(MonitorValidationError::DuplicateLabel)
            } else {
                Ok(with_label(labels, entries[n - 1].label, entries[n - 1].value))
            },
        }
    }
}

/// The labels that entries make.
pub open spec fn labels_of(entries: Seq<Label<Seq<char>>>) -> Result<
    LabelsModel,
    MonitorValidationError,
> {
    labels_upto(entries, entries.len() as int)
}

/// Labels are found by their name.
proof fn lemma_value_found(labels: LabelsModel, i: int)
    requires
        labels_ordered(labels),
        0 <= i < labels.len(),
    ensures
        label_value(labels, labels[i].label) == Some(labels[i].value),
    decreases labels.len(),
{
    let rest = labels.drop_last();
    if i < rest.len() {
        assert(labels_ordered(rest)) by {
            assert forall|a: int, b: int| 0 <= a < b < rest.len() implies (
            #[trigger] rest[a]).label.rank() < (#[trigger] rest[b]).label.rank() by {
                assert(rest[a] == labels[a] && rest[b] == labels[b]);
            }
        }
        assert(labels[i].label.rank() < labels[labels.len() - 1].label.rank());
        assert(rest[i] == labels[i]);
        lemma_value_found(rest, i);
    }
}

proof fn lemma_entries_held(entries: Seq<Label<Seq<char>>>, n: int)
    requires
        0 <= n <= entries.len(),
    ensures
        labels_upto(entries, n) matches Ok(labels) ==> labels_ordered(labels) && forall|i: int|
            0 <= i < n ==> labels.contains(#[trigger] entries[i]),
    decreases n,
{
    if n > 0 {
        lemma_entries_held(entries, n - 1);
        if let (Ok(before), Ok(after)) = (labels_upto(entries, n - 1), labels_upto(entries, n)) {
            let new = entries[n - 1];
            let slot = label_slot(before, new.label);
            lemma_label_slot(before, new.label);
            lemma_label_value_absent(before, new.label);
            assert(after == before.insert(slot, new));
            assert forall|i: int, j: int| 0 <= i < j < after.len() implies (
            #[trigger] after[i]).label.rank() < (#[trigger] after[j]).label.rank() by {
                let a = if i < slot {
                    i
                } else {
                    i - 1
                };
                let b = if j < slot {
                    j
                } else {
                    j - 1
                };
                if i == slot {
                    assert(after[j] == before[b]);
                    lemma_rank_identifies(before[b].label, new.label);
                } else if j == slot {
                    assert(after[i] == before[a]);
                } else {
                    assert(after[i] == before[a] && after[j] == before[b]);
                }
            }
            assert forall|i: int| 0 <= i < n implies after.contains(#[trigger] entries[i]) by {
                if i == n - 1 {
                    assert(after[slot] == new);
                } else {
                    assert(before.contains(entries[i]));
                    let k = choose|k: int| 0 <= k < before.len() && before[k] == entries[i];
                    if k < slot {
                        assert(after[k] == entries[i]);
                    } else {
                        assert(after[k + 1] == entries[i]);
                    }
                }
            }
        }
    }
}

/// Labels hold what they were made of: each name has the value that was given with it.
pub proof fn labels_hold_what_was_given(entries: Seq<Label<Seq<char>>>, i: int)
    requires
        0 <= i < entries.len(),
        labels_of(entries) is Ok,
    ensures
        label_value(labels_of(entries)->Ok_0, entries[i].label) == Some(entries[i].value),
{
    lemma_entries_held(entries, entries.len() as int);
    let labels = labels_of(entries)->Ok_0;
    assert(labels.contains(entries[i]));
    let k = choose|k: int| 0 <= k < labels.len() && labels[k] == entries[i];
    lemma_value_found(labels, k);
}

proof fn lemma_labels_fail(entries: Seq<Label<Seq<char>>>, m: int, n: int)
    requires
        m <= n,
        labels_upto(entries, m) is Err,
    ensures
        labels_upto(entries, n) == labels_upto(entries, m),
    decreases n - m,
{
    if m < n {
        lemma_labels_fail(entries, m, n - 1);
    }
}

/// One label with its value.
pub fn entry(label: MetricLabel, value: &str) -> (entry: Label<String>)
    ensures
        entry.deep_view() == (Label { label, value: value@ }),
{
    Label { label, value: owned(value) }
}

impl MetricLabels {
    /// The labels that entries make. The first entry that cannot be put decides the
    /// error.
    pub fn new(entries: Vec<Label<String>>) -> (result: Result<
        MetricLabels,
        MonitorValidationError,
    >)
        ensures
            labels_of(entries.deep_view()) == match result {
                Ok(labels) => Ok(labels.deep_view()),
                Err(error) => Err(error),
            },
            result matches Ok(labels) ==> labels.wf(),
    {
        let ghost all = entries.deep_view();
        let mut labels = MetricLabels::none();
        for i in 0..entries.len()
            invariant
                all == entries.deep_view(),
                all.len() == entries@.len(),
                labels.wf(),
                labels_upto(all, i as int) == Ok::<LabelsModel, MonitorValidationError>(
                    labels.deep_view(),
                ),
        {
            assert(all[i as int] == entries@[i as int].deep_view());
            if let Err(error) = labels.put(entries[i].label, owned(entries[i].value.as_str())) {
                proof {
                    lemma_labels_fail(all, i as int + 1, all.len() as int);
                }
                return Err(error);
            }
        }
        Ok(labels)
    }
}

/// The identity of a series: a metric and its labels.
#[verifier::ext_equal]
pub struct KeyModel {
    pub metric: Seq<char>,
    pub labels: LabelsModel,
}

/// Whether the pair `a` comes before the pair `b`: by label, then by value.
pub open spec fn pair_before(a: Label<Seq<char>>, b: Label<Seq<char>>) -> bool {
    a.label.rank() < b.label.rank() || (a.label == b.label && text::text_before(a.value, b.value))
}

/// Whether the labels `a` come before `b`, looking from position `i` on.
pub open spec fn labels_before_from(a: LabelsModel, b: LabelsModel, i: int) -> bool
    decreases a.len() - i,
{
    if i < 0 || i >= b.len() {
        false
    } else if i >= a.len() {
        true
    } else if a[i] == b[i] {
        labels_before_from(a, b, i + 1)
    } else {
        pair_before(a[i], b[i])
    }
}

/// The canonical order of series: by metric, then by labels.
pub open spec fn key_before(a: KeyModel, b: KeyModel) -> bool {
    text::text_before(a.metric, b.metric) || (a.metric == b.metric && labels_before_from(
        a.labels,
        b.labels,
        0,
    ))
}

proof fn lemma_pairs(a: Label<Seq<char>>, b: Label<Seq<char>>, c: Label<Seq<char>>)
    ensures
        !pair_before(a, a),
        pair_before(a, b) && pair_before(b, c) ==> pair_before(a, c),
        a == b || pair_before(a, b) || pair_before(b, a),
{
    text::text_order_is_strict_and_total(a.value, b.value, c.value);
    lemma_rank_identifies(a.label, b.label);
    lemma_rank_identifies(b.label, c.label);
}

proof fn lemma_labels_irreflexive(a: LabelsModel, i: int)
    ensures
        !labels_before_from(a, a, i),
    decreases a.len() - i,
{
    if 0 <= i < a.len() {
        lemma_labels_irreflexive(a, i + 1);
    }
}

proof fn lemma_labels_transitive(a: LabelsModel, b: LabelsModel, c: LabelsModel, i: int)
    requires
        labels_before_from(a, b, i),
        labels_before_from(b, c, i),
    ensures
        labels_before_from(a, c, i),
    decreases a.len() - i,
{
    if 0 <= i < a.len() && i < b.len() && i < c.len() {
        if a[i] == b[i] && b[i] == c[i] {
            lemma_labels_transitive(a, b, c, i + 1);
        } else {
            lemma_pairs(a[i], b[i], c[i]);
            lemma_pairs(b[i], a[i], b[i]);
            lemma_pairs(b[i], c[i], b[i]);
        }
    }
}

proof fn lemma_labels_total(a: LabelsModel, b: LabelsModel, i: int)
    requires
        0 <= i <= a.len(),
        i <= b.len(),
        forall|j: int| 0 <= j < i ==> a[j] == b[j],
    ensures
        a == b || labels_before_from(a, b, i) || labels_before_from(b, a, i),
    decreases a.len() - i,
{
    if i < a.len() && i < b.len() {
        if a[i] == b[i] {
            lemma_labels_total(a, b, i + 1);
        } else {
            lemma_pairs(a[i], b[i], a[i]);
        }
    } else if i == a.len() && i == b.len() {
        assert(a =~= b);
    }
}

/// The canonical order of series is a strict total order.
pub proof fn key_order_is_strict_and_total(a: KeyModel, b: KeyModel, c: KeyModel)
    ensures
        !key_before(a, a),
        key_before(a, b) && key_before(b, c) ==> key_before(a, c),
        a == b || key_before(a, b) || key_before(b, a),
        !(key_before(a, b) && key_before(b, a)),
{
    text::text_order_is_strict_and_total(a.metric, b.metric, c.metric);
    text::text_order_is_strict_and_total(a.metric, b.metric, a.metric);
    lemma_labels_irreflexive(a.labels, 0);
    lemma_labels_total(a.labels, b.labels, 0);
    if labels_before_from(a.labels, b.labels, 0) && labels_before_from(b.labels, c.labels, 0) {
        lemma_labels_transitive(a.labels, b.labels, c.labels, 0);
    }
    if labels_before_from(a.labels, b.labels, 0) && labels_before_from(b.labels, a.labels, 0) {
        lemma_labels_transitive(a.labels, b.labels, a.labels, 0);
    }
    if a.metric == b.metric && a.labels == b.labels {
        assert(a == b);
    }
}

/// Whether the labels `a` come strictly before `b`.
pub fn labels_come_before(a: &MetricLabels, b: &MetricLabels) -> (before: bool)
    ensures
        before == labels_before_from(a.deep_view(), b.deep_view(), 0),
{
    let ghost x = a.deep_view();
    let ghost y = b.deep_view();
    let mut i: usize = 0;
    while i < a.entries.len() && i < b.entries.len()
        invariant
            i <= a.entries.len(),
            i <= b.entries.len(),
            x == a.deep_view(),
            y == b.deep_view(),
            labels_before_from(x, y, 0) == labels_before_from(x, y, i as int),
        decreases a.entries.len() - i,
    {
        let p = &a.entries[i];
        let q = &b.entries[i];
        assert(x[i as int] == p.deep_view() && y[i as int] == q.deep_view());
        proof {
            lemma_rank_identifies(p.label, q.label);
        }
        if p.label.position() != q.label.position() {
            return p.label.position() < q.label.position();
        }
        if !same_text(p.value.as_str(), q.value.as_str()) {
            return comes_before(p.value.as_str(), q.value.as_str());
        }
        i += 1;
    }
    i < b.entries.len()
}

/// One value as a provider observed it.
#[derive(Clone, Debug, PartialEq, Eq)]
pub enum MetricReading<T> {
    Counter { value: u64, bits: Option<CounterBits> },
    Gauge(u64),
    State(T),
}

impl<T> MetricReading<T> {
    pub open spec fn kind_of(self) -> MetricKind {
        match self {
            MetricReading::Counter { .. } => MetricKind::Counter,
            MetricReading::Gauge(_) => MetricKind::Gauge,
            MetricReading::State(_) => MetricKind::State,
        }
    }

    pub fn kind(&self) -> (kind: MetricKind)
        ensures
            kind == self.kind_of(),
    {
        match self {
            MetricReading::Counter { .. } => MetricKind::Counter,
            MetricReading::Gauge(_) => MetricKind::Gauge,
            MetricReading::State(_) => MetricKind::State,
        }
    }
}

impl DeepView for MetricReading<String> {
    type V = MetricReading<Seq<char>>;

    open spec fn deep_view(&self) -> MetricReading<Seq<char>> {
        match *self {
            MetricReading::Counter { value, bits } => MetricReading::Counter { value, bits },
            MetricReading::Gauge(value) => MetricReading::Gauge(value),
            MetricReading::State(text) => MetricReading::State(text@),
        }
    }
}

impl MetricReading<String> {
    pub fn copy(&self) -> (reading: MetricReading<String>)
        ensures
            reading.deep_view() == self.deep_view(),
            reading == *self,
    {
        match self {
            MetricReading::Counter { value, bits } => MetricReading::Counter {
                value: *value,
                bits: *bits,
            },
            MetricReading::Gauge(value) => MetricReading::Gauge(*value),
            MetricReading::State(text) => MetricReading::State(text.clone()),
        }
    }
}

/// What one collection cycle says of a metric identity.
#[derive(Clone, Debug, PartialEq, Eq)]
pub enum ReadingOutcome<T> {
    Observed(MetricReading<T>),
    Unavailable(UnavailableReason),
}

impl DeepView for ReadingOutcome<String> {
    type V = ReadingOutcome<Seq<char>>;

    open spec fn deep_view(&self) -> ReadingOutcome<Seq<char>> {
        match *self {
            ReadingOutcome::Observed(reading) => ReadingOutcome::Observed(reading.deep_view()),
            ReadingOutcome::Unavailable(reason) => ReadingOutcome::Unavailable(reason),
        }
    }
}

impl ReadingOutcome<String> {
    pub fn copy(&self) -> (outcome: ReadingOutcome<String>)
        ensures
            outcome.deep_view() == self.deep_view(),
            outcome == *self,
    {
        match self {
            ReadingOutcome::Observed(reading) => ReadingOutcome::Observed(reading.copy()),
            ReadingOutcome::Unavailable(reason) => ReadingOutcome::Unavailable(*reason),
        }
    }
}

/// What a contract says of a reading.
#[verifier::ext_equal]
pub struct ReadingModel {
    pub key: KeyModel,
    pub outcome: ReadingOutcome<Seq<char>>,
}

/// One reading of a provider's sample.
#[derive(Clone, Debug, PartialEq, Eq)]
pub struct SampleReading {
    pub metric: String,
    pub labels: MetricLabels,
    pub outcome: ReadingOutcome<String>,
}

impl DeepView for SampleReading {
    type V = ReadingModel;

    open spec fn deep_view(&self) -> ReadingModel {
        ReadingModel {
            key: KeyModel { metric: self.metric@, labels: self.labels.deep_view() },
            outcome: self.outcome.deep_view(),
        }
    }
}

impl SampleReading {
    pub fn observed(metric: String, labels: MetricLabels, reading: MetricReading<String>) -> (r:
        SampleReading)
        ensures
            r == (SampleReading { metric, labels, outcome: ReadingOutcome::Observed(reading) }),
    {
        SampleReading { metric, labels, outcome: ReadingOutcome::Observed(reading) }
    }

    pub fn unavailable(metric: String, labels: MetricLabels, reason: UnavailableReason) -> (r:
        SampleReading)
        ensures
            r == (SampleReading { metric, labels, outcome: ReadingOutcome::Unavailable(reason) }),
    {
        SampleReading { metric, labels, outcome: ReadingOutcome::Unavailable(reason) }
    }

    pub fn copy(&self) -> (r: SampleReading)
        ensures
            r.deep_view() == self.deep_view(),
    {
        SampleReading {
            metric: self.metric.clone(),
            labels: self.labels.copy(),
            outcome: self.outcome.copy(),
        }
    }

    /// Whether both readings have the same metric and labels.
    pub fn same_identity(&self, other: &SampleReading) -> (same: bool)
        ensures
            same == (self.deep_view().key == other.deep_view().key),
    {
        same_text(self.metric.as_str(), other.metric.as_str()) && self.labels.same(&other.labels)
    }

    /// Whether this reading's identity comes strictly before the other's.
    pub fn precedes(&self, other: &SampleReading) -> (before: bool)
        ensures
            before == key_before(self.deep_view().key, other.deep_view().key),
    {
        if same_text(self.metric.as_str(), other.metric.as_str()) {
            proof {
                text::text_order_is_strict_and_total(self.metric@, self.metric@, self.metric@);
            }
            labels_come_before(&self.labels, &other.labels)
        } else {
            comes_before(self.metric.as_str(), other.metric.as_str())
        }
    }
}

/// A copy of a list of readings.
pub fn copy_readings(readings: &Vec<SampleReading>) -> (copy: Vec<SampleReading>)
    ensures
        copy.deep_view() == readings.deep_view(),
{
    let mut copy: Vec<SampleReading> = Vec::new();
    for i in 0..readings.len()
        invariant
            copy.deep_view() == readings.deep_view().take(i as int),
    {
        let ghost before = copy;
        copy.push(readings[i].copy());
        proof {
            seqs::lemma_deep_push(before, copy);
            seqs::lemma_take_push(readings.deep_view(), i as int);
        }
    }
    assert(copy.deep_view() =~= readings.deep_view());
    copy
}

/// Whether no reading comes before an earlier one in canonical order.
pub open spec fn readings_sorted(readings: Seq<ReadingModel>) -> bool {
    forall|i: int, j: int|
        0 <= i < j < readings.len() ==> !key_before(
            (#[trigger] readings[j]).key,
            (#[trigger] readings[i]).key,
        )
}

/// Whether some identity occurs twice.
pub open spec fn has_duplicate(readings: Seq<ReadingModel>) -> bool {
    exists|i: int, j: int|
        0 <= i < j < readings.len() && (#[trigger] readings[i]).key == (
        #[trigger] readings[j]).key
}

/// The readings in canonical order.
pub open spec fn in_canonical_order(readings: Seq<ReadingModel>) -> Seq<ReadingModel> {
    choose|sorted: Seq<ReadingModel>|
        readings_sorted(sorted) && #[trigger] sorted.to_multiset() == readings.to_multiset()
}

/// Every list of readings has a canonical order.
pub proof fn lemma_canonical_exists(readings: Seq<ReadingModel>)
    ensures
        readings_sorted(in_canonical_order(readings)),
        in_canonical_order(readings).to_multiset() == readings.to_multiset(),
{
    let sorted = lemma_sortable(readings);
    assert(readings_sorted(sorted) && sorted.to_multiset() == readings.to_multiset());
}

proof fn lemma_sortable(readings: Seq<ReadingModel>) -> (sorted: Seq<ReadingModel>)
    ensures
        readings_sorted(sorted),
        sorted.to_multiset() == readings.to_multiset(),
    decreases readings.len(),
{
    broadcast use vstd::seq_lib::group_to_multiset_ensures;

    if readings.len() == 0 {
        readings
    } else {
        let x = readings.last();
        let rest = lemma_sortable(readings.drop_last());
        let at = lemma_place(rest, x, rest.len() as int);
        let sorted = rest.insert(at, x);
        assert(readings =~= readings.drop_last().push(x));
        vstd::seq_lib::to_multiset_build(readings.drop_last(), x);
        vstd::seq_lib::to_multiset_insert(rest, at, x);
        assert forall|i: int, j: int| 0 <= i < j < sorted.len() implies !key_before(
            (#[trigger] sorted[j]).key,
            (#[trigger] sorted[i]).key,
        ) by {
            let a: int = if i < at { i } else { i - 1 };
            let b: int = if j < at { j } else { j - 1 };
            if i != at {
                assert(sorted[i] == rest[a]);
            }
            if j != at {
                assert(sorted[j] == rest[b]);
            }
            if i == at {
                key_order_is_strict_and_total(x.key, rest[b].key, x.key);
            }
        }
        sorted
    }
}

proof fn lemma_place(sorted: Seq<ReadingModel>, x: ReadingModel, n: int) -> (at: int)
    requires
        readings_sorted(sorted),
        0 <= n <= sorted.len(),
        forall|i: int| n <= i < sorted.len() ==> key_before(x.key, (#[trigger] sorted[i]).key),
    ensures
        0 <= at <= sorted.len(),
        forall|i: int| 0 <= i < at ==> !key_before(x.key, (#[trigger] sorted[i]).key),
        forall|i: int| at <= i < sorted.len() ==> key_before(x.key, (#[trigger] sorted[i]).key),
    decreases n,
{
    if n == 0 {
        0
    } else if key_before(x.key, sorted[n - 1].key) {
        lemma_place(sorted, x, n - 1)
    } else {
        assert forall|i: int| 0 <= i < n implies !key_before(
            x.key,
            (#[trigger] sorted[i]).key,
        ) by {
            if i < n - 1 {
                key_order_is_strict_and_total(sorted[i].key, sorted[n - 1].key, x.key);
                key_order_is_strict_and_total(x.key, sorted[i].key, sorted[n - 1].key);
            }
        }
        n
    }
}

/// Where no identity occurs twice, there is one canonical order.
pub proof fn canonical_order_is_unique(a: Seq<ReadingModel>, b: Seq<ReadingModel>)
    requires
        readings_sorted(a),
        readings_sorted(b),
        a.to_multiset() == b.to_multiset(),
        !has_duplicate(a),
    ensures
        a == b,
    decreases a.len(),
{
    broadcast use vstd::seq_lib::group_to_multiset_ensures;

    assert(a.len() == a.to_multiset().len() && b.len() == b.to_multiset().len());
    if a.len() == 0 {
        assert(a =~= b);
    } else {
        let x = a.last();
        let y = b.last();
        assert(a.contains(x) && b.contains(y));
        assert(a.to_multiset().count(x) > 0 && b.to_multiset().count(y) > 0);
        assert(b.contains(x) && a.contains(y));
        let i = choose|i: int| 0 <= i < a.len() && a[i] == y;
        let k = choose|k: int| 0 <= k < b.len() && b[k] == x;
        if x != y {
            assert(i < a.len() - 1 && k < b.len() - 1);
            assert(a[i].key != a[a.len() - 1].key);
            assert(!key_before(a[a.len() - 1].key, a[i].key));
            assert(!key_before(b[b.len() - 1].key, b[k].key));
            key_order_is_strict_and_total(x.key, y.key, x.key);
            assert(false);
        }
        let c = a.drop_last();
        let d = b.drop_last();
        assert(a =~= c.push(x) && b =~= d.push(x));
        vstd::seq_lib::to_multiset_build(c, x);
        vstd::seq_lib::to_multiset_build(d, x);
        assert(c.to_multiset() =~= a.to_multiset().remove(x));
        assert(d.to_multiset() =~= b.to_multiset().remove(x));
        assert forall|p: int, q: int| 0 <= p < q < c.len() implies !key_before(
            (#[trigger] c[q]).key,
            (#[trigger] c[p]).key,
        ) by {
            assert(c[p] == a[p] && c[q] == a[q]);
        }
        assert forall|p: int, q: int| 0 <= p < q < d.len() implies !key_before(
            (#[trigger] d[q]).key,
            (#[trigger] d[p]).key,
        ) by {
            assert(d[p] == b[p] && d[q] == b[q]);
        }
        if has_duplicate(c) {
            let (p, q) = choose|p: int, q: int|
                0 <= p < q < c.len() && (#[trigger] c[p]).key == (#[trigger] c[q]).key;
            assert(a[p].key == a[q].key);
        }
        canonical_order_is_unique(c, d);
    }
}

/// The position behind every reading that does not come after `reading`.
fn insertion_point(sorted: &Vec<SampleReading>, reading: &SampleReading) -> (at: usize)
    requires
        readings_sorted(sorted.deep_view()),
    ensures
        at <= sorted.len(),
        forall|i: int|
            0 <= i < at ==> !key_before(
                reading.deep_view().key,
                (#[trigger] sorted.deep_view()[i]).key,
            ),
        forall|i: int|
            at <= i < sorted.len() ==> key_before(
                reading.deep_view().key,
                (#[trigger] sorted.deep_view()[i]).key,
            ),
{
    let ghost all = sorted.deep_view();
    let ghost key = reading.deep_view().key;
    let mut low: usize = 0;
    let mut high: usize = sorted.len();
    while low < high
        invariant
            low <= high <= sorted.len(),
            all == sorted.deep_view(),
            key == reading.deep_view().key,
            readings_sorted(all),
            forall|i: int| 0 <= i < low ==> !key_before(key, (#[trigger] all[i]).key),
            forall|i: int| high <= i < all.len() ==> key_before(key, (#[trigger] all[i]).key),
        decreases high - low,
    {
        let middle: usize = low + (high - low) / 2;
        let ghost at = all[middle as int].key;
        if reading.precedes(&sorted[middle]) {
            assert forall|i: int| middle <= i < all.len() implies key_before(
                key,
                (#[trigger] all[i]).key,
            ) by {
                key_order_is_strict_and_total(key, at, all[i].key);
                key_order_is_strict_and_total(at, all[i].key, key);
            }
            high = middle;
        } else {
            assert forall|i: int| 0 <= i <= middle implies !key_before(
                key,
                (#[trigger] all[i]).key,
            ) by {
                key_order_is_strict_and_total(all[i].key, at, key);
                key_order_is_strict_and_total(key, all[i].key, at);
            }
            low = middle + 1;
        }
    }
    low
}

/// Puts readings into canonical order.
pub fn sort_readings(readings: Vec<SampleReading>) -> (sorted: Vec<SampleReading>)
    ensures
        readings_sorted(sorted.deep_view()),
        sorted.deep_view().to_multiset() == readings.deep_view().to_multiset(),
        sorted.len() == readings.len(),
{
    broadcast use vstd::seq_lib::group_to_multiset_ensures;

    let ghost all = readings.deep_view();
    let mut rest = readings;
    let mut sorted: Vec<SampleReading> = Vec::new();
    assert(sorted.deep_view() =~= Seq::<ReadingModel>::empty());
    assert(all =~= rest.deep_view());
    assert(Seq::<ReadingModel>::empty().to_multiset() =~= vstd::multiset::Multiset::empty());
    assert(sorted.deep_view().to_multiset().add(rest.deep_view().to_multiset())
        =~= all.to_multiset());
    loop
        invariant
            readings_sorted(sorted.deep_view()),
            sorted.deep_view().to_multiset().add(rest.deep_view().to_multiset())
                == all.to_multiset(),
            sorted.len() + rest.len() == all.len(),
        ensures
            rest.len() == 0,
        decreases rest.len(),
    {
        let ghost before_rest = rest.deep_view();
        let ghost before_sorted = sorted.deep_view();
        match rest.pop() {
            None => {
                break;
            },
            Some(reading) => {
                let at: usize = insertion_point(&sorted, &reading);
                let ghost model = reading.deep_view();
                sorted.insert(at, reading);
                proof {
                    let after = before_sorted.insert(at as int, model);
                    assert(sorted.deep_view() =~= after);
                    assert(rest.deep_view() =~= before_rest.drop_last());
                    assert(before_rest =~= rest.deep_view().push(model));
                    vstd::seq_lib::to_multiset_build(rest.deep_view(), model);
                    vstd::seq_lib::to_multiset_insert(before_sorted, at as int, model);
                    assert(after.to_multiset() =~= before_sorted.to_multiset().insert(model));
                    assert(after.to_multiset().add(rest.deep_view().to_multiset())
                        =~= before_sorted.to_multiset().add(before_rest.to_multiset()));
                    assert forall|i: int, j: int| 0 <= i < j < after.len() implies !key_before(
                        (#[trigger] after[j]).key,
                        (#[trigger] after[i]).key,
                    ) by {
                        let a: int = if i < at { i } else { i - 1 };
                        let b: int = if j < at { j } else { j - 1 };
                        if i != at {
                            assert(after[i] == before_sorted[a]);
                        }
                        if j != at {
                            assert(after[j] == before_sorted[b]);
                        }
                        if i == at {
                            key_order_is_strict_and_total(model.key, before_sorted[b].key, model.key);
                        }
                    }
                }
            },
        }
    }
    assert(rest.deep_view() =~= Seq::<ReadingModel>::empty());
    assert(sorted.deep_view().to_multiset() =~= all.to_multiset());
    sorted
}

/// A failure with a bounded, printable explanation.
#[derive(Clone, Debug, PartialEq, Eq)]
pub struct MonitorError<T> {
    pub code: MonitorErrorCode,
    pub diagnostic: T,
}

impl DeepView for MonitorError<String> {
    type V = MonitorError<Seq<char>>;

    open spec fn deep_view(&self) -> MonitorError<Seq<char>> {
        MonitorError { code: self.code, diagnostic: self.diagnostic@ }
    }
}

impl MonitorError<String> {
    /// An error whose diagnostic is printable, not empty and no longer than the
    /// limit; any other diagnostic is refused.
    pub fn new(code: MonitorErrorCode, diagnostic: &str) -> (result: Result<
        MonitorError<String>,
        MonitorValidationError,
    >)
        ensures
            match result {
                Ok(error) => 1 <= diagnostic@.len() <= MAX_DIAGNOSTIC_BYTES && all_printable(
                    diagnostic@,
                ) && error.deep_view() == (MonitorError { code, diagnostic: diagnostic@ }),
                Err(e) => e == MonitorValidationError::InvalidDiagnostic && !(1
                    <= diagnostic@.len() <= MAX_DIAGNOSTIC_BYTES && all_printable(diagnostic@)),
            },
    {
        if is_bounded_printable(diagnostic, MAX_DIAGNOSTIC_BYTES) {
            Ok(MonitorError { code, diagnostic: owned(diagnostic) })
        } else {
            Err(MonitorValidationError::InvalidDiagnostic)
        }
    }

    pub fn copy(&self) -> (error: MonitorError<String>)
        ensures
            error == *self,
    {
        MonitorError { code: self.code, diagnostic: self.diagnostic.clone() }
    }

    pub fn code(&self) -> (code: MonitorErrorCode)
        ensures
            code == self.code,
    {
        self.code
    }

    pub fn diagnostic(&self) -> (text: &str)
        ensures
            text@ == self.diagnostic@,
    {
        self.diagnostic.as_str()
    }
}

/// How a provider's last collection went.
#[derive(Clone, Debug, PartialEq, Eq)]
pub enum ProviderHealth<T> {
    Fresh,
    Partial { warning: MonitorError<T> },
    Stale { last_success_at: Nanos, age: Nanos, cause: MonitorError<T> },
    Unsupported { reason: MonitorError<T> },
    PermissionDenied { reason: MonitorError<T> },
    Error { error: MonitorError<T> },
}

impl DeepView for ProviderHealth<String> {
    type V = ProviderHealth<Seq<char>>;

    open spec fn deep_view(&self) -> ProviderHealth<Seq<char>> {
        match *self {
            ProviderHealth::Fresh => ProviderHealth::Fresh,
            ProviderHealth::Partial { warning } => ProviderHealth::Partial {
                warning: warning.deep_view(),
            },
            ProviderHealth::Stale { last_success_at, age, cause } => ProviderHealth::Stale {
                last_success_at,
                age,
                cause: cause.deep_view(),
            },
            ProviderHealth::Unsupported { reason } => ProviderHealth::Unsupported {
                reason: reason.deep_view(),
            },
            ProviderHealth::PermissionDenied { reason } => ProviderHealth::PermissionDenied {
                reason: reason.deep_view(),
            },
            ProviderHealth::Error { error } => ProviderHealth::Error { error: error.deep_view() },
        }
    }
}

impl<T> ProviderHealth<T> {
    /// Whether a sample with this health carries readings.
    pub open spec fn readable(self) -> bool {
        self is Fresh || self is Partial
    }

    /// The name of the health.
    pub open spec fn word(self) -> Seq<char> {
        match self {
            ProviderHealth::Fresh => "fresh"@,
            ProviderHealth::Partial { .. } => "partial"@,
            ProviderHealth::Stale { .. } => "stale"@,
            ProviderHealth::Unsupported { .. } => "unsupported"@,
            ProviderHealth::PermissionDenied { .. } => "permission-denied"@,
            ProviderHealth::Error { .. } => "error"@,
        }
    }
}

impl ProviderHealth<String> {
    pub fn as_str(&self) -> (word: &'static str)
        ensures
            word@ == self.deep_view().word(),
    {
        match self {
            ProviderHealth::Fresh => "fresh",
            ProviderHealth::Partial { .. } => "partial",
            ProviderHealth::Stale { .. } => "stale",
            ProviderHealth::Unsupported { .. } => "unsupported",
            ProviderHealth::PermissionDenied { .. } => "permission-denied",
            ProviderHealth::Error { .. } => "error",
        }
    }

    pub fn copy(&self) -> (health: ProviderHealth<String>)
        ensures
            health == *self,
    {
        match self {
            ProviderHealth::Fresh => ProviderHealth::Fresh,
            ProviderHealth::Partial { warning } => ProviderHealth::Partial {
                warning: warning.copy(),
            },
            ProviderHealth::Stale { last_success_at, age, cause } => ProviderHealth::Stale {
                last_success_at: *last_success_at,
                age: *age,
                cause: cause.copy(),
            },
            ProviderHealth::Unsupported { reason } => ProviderHealth::Unsupported {
                reason: reason.copy(),
            },
            ProviderHealth::PermissionDenied { reason } => ProviderHealth::PermissionDenied {
                reason: reason.copy(),
            },
            ProviderHealth::Error { error } => ProviderHealth::Error { error: error.copy() },
        }
    }

    pub fn allows_readings(&self) -> (allowed: bool)
        ensures
            allowed == self.readable(),
    {
        match self {
            ProviderHealth::Fresh | ProviderHealth::Partial { .. } => true,
            _ => false,
        }
    }

    pub fn is_fresh(&self) -> (fresh: bool)
        ensures
            fresh == (*self is Fresh),
    {
        match self {
            ProviderHealth::Fresh => true,
            _ => false,
        }
    }
}

} // verus!
