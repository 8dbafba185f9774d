//! The metric catalog, and provider samples that agree with it.
use crate::model;
use crate::model::{
    sort_readings, CounterBits, KeyModel, MetricKind, MetricLabel, MetricReading,
    MonitorValidationError, Nanos, ProviderHealth, ReadingModel, ReadingOutcome, SampleReading,
    MAX_READINGS_PER_PROVIDER,
};
use crate::seqs;
use crate::text;
use crate::text::{chars_of, same_text, starts_with, text_of};
use vstd::prelude::*;

verus! {

/// One place a metric is read from: a provider, and the name the provider gives
/// to the value. A name that ends in `.*` stands for every name with that prefix.
#[derive(Clone, Debug, PartialEq, Eq)]
pub struct MetricSource<T> {
    pub provider: T,
    pub raw_metric: T,
}

impl DeepView for MetricSource<String> {
    type V = MetricSource<Seq<char>>;

    open spec fn deep_view(&self) -> MetricSource<Seq<char>> {
        MetricSource { provider: self.provider@, raw_metric: self.raw_metric@ }
    }
}

/// What a contract says of a catalogued metric.
#[verifier::ext_equal]
pub struct DescriptorModel {
    pub id: Seq<char>,
    pub kind: MetricKind,
    pub owner: Seq<char>,
    pub allowed_labels: Seq<MetricLabel>,
    pub sources: Seq<MetricSource<Seq<char>>>,
}

/// A catalogued metric: its kind, the component that owns it, the labels that
/// identify one series of it, and its sources, the preferred one first.
#[derive(Clone, Debug, PartialEq, Eq)]
pub struct MetricDescriptor {
    pub id: String,
    pub kind: MetricKind,
    pub owner: String,
    pub allowed_labels: Vec<MetricLabel>,
    pub sources: Vec<MetricSource<String>>,
}

impl DeepView for MetricDescriptor {
    type V = DescriptorModel;

    open spec fn deep_view(&self) -> DescriptorModel {
        DescriptorModel {
            id: self.id@,
            kind: self.kind,
            owner: self.owner@,
            allowed_labels: self.allowed_labels@,
            sources: self.sources.deep_view(),
        }
    }
}

/// Whether a source is the one of `provider`.
pub open spec fn is_from(provider: Seq<char>) -> spec_fn(MetricSource<Seq<char>>) -> bool {
    |source: MetricSource<Seq<char>>| source.provider == provider
}

/// The place of `provider` among the sources: lower is preferred.
pub open spec fn priority_of(descriptor: DescriptorModel, provider: Seq<char>) -> Option<int> {
    seqs::first_where(descriptor.sources, is_from(provider), descriptor.sources.len() as int)
}

impl MetricDescriptor {
    /// The place of `provider` among the sources, if it is one of them.
    pub fn source_priority(&self, provider: &str) -> (priority: Option<usize>)
        ensures
            match priority {
                Some(p) => priority_of(self.deep_view(), provider@) == Some(p as int),
                None => priority_of(self.deep_view(), provider@) is None,
            },
    {
        let ghost sources = self.deep_view().sources;
        let ghost p = is_from(provider@);
        let mut i: usize = 0;
        while i < self.sources.len()
            invariant
                i <= self.sources.len(),
                sources == self.deep_view().sources,
                p == is_from(provider@),
                seqs::first_where(sources, p, i as int) is None,
            decreases self.sources.len() - i,
        {
            assert(sources[i as int] == self.sources@[i as int].deep_view());
            if same_text(self.sources[i].provider.as_str(), provider) {
                proof {
                    assert(seqs::first_where(sources, p, i as int + 1) == Some(i as int));
                    seqs::lemma_first_where_stays(sources, p, i as int + 1, sources.len() as int);
                }
                return Some(i);
            }
            i += 1;
        }
        None
    }
}

pub type CatalogModel = Seq<DescriptorModel>;

/// The catalogued metrics, in catalog order.
#[derive(Clone, Debug, PartialEq, Eq)]
pub struct MetricCatalog {
    pub metrics: Vec<MetricDescriptor>,
}

impl DeepView for MetricCatalog {
    type V = CatalogModel;

    open spec fn deep_view(&self) -> CatalogModel {
        self.metrics.deep_view()
    }
}

/// Whether a descriptor is the one with this id.
pub open spec fn has_id(id: Seq<char>) -> spec_fn(DescriptorModel) -> bool {
    |descriptor: DescriptorModel| descriptor.id == id
}

/// The position of the metric with this id in the catalog.
pub open spec fn metric_at(catalog: CatalogModel, id: Seq<char>) -> Option<int> {
    seqs::first_where(catalog, has_id(id), catalog.len() as int)
}

/// The wildcard suffix of a raw metric name.
pub open spec fn is_wildcard(raw: Seq<char>) -> bool {
    raw.len() >= 2 && raw[raw.len() - 2] == '.' && raw[raw.len() - 1] == '*'
}

/// Whether a source delivers the value that `provider` calls `raw`: by its exact
/// name, or by a wildcard whose prefix `raw` starts with.
pub open spec fn source_matches(
    source: MetricSource<Seq<char>>,
    provider: Seq<char>,
    raw: Seq<char>,
) -> bool {
    source.provider == provider && (source.raw_metric == raw || (is_wildcard(source.raw_metric)
        && text::has_prefix(raw, source.raw_metric.take(source.raw_metric.len() - 2))))
}

/// Whether some source of the metric delivers the value.
pub open spec fn delivers(provider: Seq<char>, raw: Seq<char>) -> spec_fn(DescriptorModel) -> bool {
    |descriptor: DescriptorModel|
        exists|i: int|
            0 <= i < descriptor.sources.len() && source_matches(
                #[trigger] descriptor.sources[i],
                provider,
                raw,
            )
}

/// The position of the first metric in catalog order that the value belongs to.
pub open spec fn metric_for_source(
    catalog: CatalogModel,
    provider: Seq<char>,
    raw: Seq<char>,
) -> Option<int> {
    seqs::first_where(catalog, delivers(provider, raw), catalog.len() as int)
}

fn matches_source(source: &MetricSource<String>, provider: &str, raw: &str) -> (found: bool)
    ensures
        found == source_matches(source.deep_view(), provider@, raw@),
{
    if !same_text(source.provider.as_str(), provider) {
        return false;
    }
    if same_text(source.raw_metric.as_str(), raw) {
        return true;
    }
    let mut name = chars_of(source.raw_metric.as_str());
    let n: usize = name.len();
    if n < 2 || name[n - 2] != '.' || name[n - 1] != '*' {
        return false;
    }
    name.truncate(n - 2);
    assert(name@ =~= source.raw_metric@.take(n - 2));
    let prefix = text_of(&name);
    starts_with(raw, prefix.as_str())
}

impl MetricCatalog {
    /// The metric with this id.
    pub fn descriptor(&self, id: &str) -> (found: Option<&MetricDescriptor>)
        ensures
            match found {
                Some(descriptor) => metric_at(self.deep_view(), id@) is Some
                    && descriptor.deep_view() == self.deep_view()[metric_at(
                    self.deep_view(),
                    id@,
                )->0],
                None => metric_at(self.deep_view(), id@) is None,
            },
    {
        let ghost all = self.deep_view();
        let ghost p = has_id(id@);
        let mut i: usize = 0;
        while i < self.metrics.len()
            invariant
                i <= self.metrics.len(),
                all == self.deep_view(),
                p == has_id(id@),
                seqs::first_where(all, p, i as int) is None,
            decreases self.metrics.len() - i,
        {
            assert(all[i as int] == self.metrics@[i as int].deep_view());
            if same_text(self.metrics[i].id.as_str(), id) {
                proof {
                    assert(seqs::first_where(all, p, i as int + 1) == Some(i as int));
                    seqs::lemma_first_where_stays(all, p, i as int + 1, all.len() as int);
                }
                return Some(&self.metrics[i]);
            }
            i += 1;
        }
        None
    }

    /// The first metric in catalog order that `provider` delivers under the name
    /// `raw_metric`.
    pub fn descriptor_for_source(&self, provider: &str, raw_metric: &str) -> (found: Option<
        &MetricDescriptor,
    >)
        ensures
            match found {
                Some(descriptor) => metric_for_source(self.deep_view(), provider@, raw_metric@)
                    is Some && descriptor.deep_view() == self.deep_view()[metric_for_source(
                    self.deep_view(),
                    provider@,
                    raw_metric@,
                )->0],
                None => metric_for_source(self.deep_view(), provider@, raw_metric@) is None,
            },
    {
        let ghost all = self.deep_view();
        let ghost p = delivers(provider@, raw_metric@);
        let mut i: usize = 0;
        while i < self.metrics.len()
            invariant
                i <= self.metrics.len(),
                all == self.deep_view(),
                p == delivers(provider@, raw_metric@),
                seqs::first_where(all, p, i as int) is None,
            decreases self.metrics.len() - i,
        {
            let metric = &self.metrics[i];
            let ghost sources = all[i as int].sources;
            assert(all[i as int] == metric.deep_view());
            let mut j: usize = 0;
            while j < metric.sources.len()
                invariant
                    i < self.metrics.len(),
                    metric == self.metrics@[i as int],
                    all == self.deep_view(),
                    p == delivers(provider@, raw_metric@),
                    seqs::first_where(all, p, i as int) is None,
                    sources == metric.sources.deep_view(),
                    all[i as int].sources == sources,
                    j <= metric.sources.len(),
                    forall|k: int|
                        0 <= k < j ==> !source_matches(
                            #[trigger] sources[k],
                            provider@,
                            raw_metric@,
                        ),
                decreases metric.sources.len() - j,
            {
                assert(sources[j as int] == metric.sources@[j as int].deep_view());
                if matches_source(&metric.sources[j], provider, raw_metric) {
                    proof {
                        assert(p(all[i as int]));
                        assert(seqs::first_where(all, p, i as int + 1) == Some(i as int));
                        seqs::lemma_first_where_stays(all, p, i as int + 1, all.len() as int);
                    }
                    return Some(metric);
                }
                j += 1;
            }
            assert(!p(all[i as int]));
            i += 1;
        }
        None
    }
}

/// Whether a counter's value fits the width it claims.
pub open spec fn fits_width(value: u64, bits: Option<CounterBits>) -> bool {
    bits == Some(CounterBits::Bits32) ==> value <= u32::MAX
}

/// Whether the catalog has the metric.
pub open spec fn is_known(catalog: CatalogModel, key: KeyModel) -> bool {
    metric_at(catalog, key.metric) is Some
}

/// The kind the catalog gives to the metric.
pub open spec fn kind_in(catalog: CatalogModel, key: KeyModel) -> MetricKind {
    catalog[metric_at(catalog, key.metric)->0].kind
}

/// The place of `provider` among the sources of the metric.
pub open spec fn priority_in(catalog: CatalogModel, key: KeyModel, provider: Seq<char>) -> Option<
    int,
> {
    priority_of(catalog[metric_at(catalog, key.metric)->0], provider)
}

/// Whether an observed value has the kind of its metric and fits its width.
pub open spec fn value_agrees(catalog: CatalogModel, reading: ReadingModel) -> bool {
    match reading.outcome {
        ReadingOutcome::Observed(value) => value.kind_of() == kind_in(catalog, reading.key) && (
        value matches MetricReading::Counter { value: v, bits } ==> fits_width(v, bits)),
        ReadingOutcome::Unavailable(_) => true,
    }
}

/// What is wrong with the readings of a sample, if anything is.
pub open spec fn sample_problem(
    catalog: CatalogModel,
    provider: Seq<char>,
    health: ProviderHealth<Seq<char>>,
    readings: Seq<ReadingModel>,
) -> Option<MonitorValidationError> {
    if readings.len() > MAX_READINGS_PER_PROVIDER {
        Some(MonitorValidationError::TooManyProviderReadings)
    } else if !health.readable() && readings.len() > 0 {
        Some(MonitorValidationError::UnexpectedReadings)
    } else if exists|i: int|
        0 <= i < readings.len() && !is_known(catalog, (#[trigger] readings[i]).key) {
        Some(MonitorValidationError::UnknownMetric)
    } else if exists|i: int|
        0 <= i < readings.len() && priority_in(
            catalog,
            (#[trigger] readings[i]).key,
            provider,
        ) is None {
        Some(MonitorValidationError::MetricSourceMismatch)
    } else if exists|i: int|
        0 <= i < readings.len() && !value_agrees(catalog, #[trigger] readings[i]) {
        Some(MonitorValidationError::MetricKindMismatch)
    } else if model::has_duplicate(readings) {
        Some(MonitorValidationError::DuplicateReading)
    } else {
        None
    }
}

/// What a contract says of a sample.
#[verifier::ext_equal]
pub struct SampleModel {
    pub provider: Seq<char>,
    pub finished_at: Nanos,
    pub collection_duration: Nanos,
    pub health: ProviderHealth<Seq<char>>,
    pub readings: Seq<ReadingModel>,
}

/// What one provider delivered in one collection cycle.
#[derive(Clone, Debug, PartialEq, Eq)]
pub struct ProviderSample {
    pub provider: String,
    pub finished_at: Nanos,
    pub collection_duration: Nanos,
    pub health: ProviderHealth<String>,
    pub readings: Vec<SampleReading>,
}

impl DeepView for ProviderSample {
    type V = SampleModel;

    open spec fn deep_view(&self) -> SampleModel {
        SampleModel {
            provider: self.provider@,
            finished_at: self.finished_at,
            collection_duration: self.collection_duration,
            health: self.health.deep_view(),
            readings: self.readings.deep_view(),
        }
    }
}

/// The sample that a provider's readings make: in canonical order, or the first
/// thing that is wrong with them.
pub open spec fn built_sample(
    catalog: CatalogModel,
    provider: Seq<char>,
    finished_at: Nanos,
    collection_duration: Nanos,
    health: ProviderHealth<Seq<char>>,
    readings: Seq<ReadingModel>,
) -> Result<SampleModel, MonitorValidationError> {
    match sample_problem(catalog, provider, health, readings) {
        Some(error) => Err(error),
        None => Ok(
            SampleModel {
                provider,
                finished_at,
                collection_duration,
                health,
                readings: model::in_canonical_order(readings),
            },
        ),
    }
}

/// Whether a sample agrees with the catalog and holds its readings in canonical order.
pub open spec fn sample_valid(catalog: CatalogModel, sample: SampleModel) -> bool {
    sample_problem(catalog, sample.provider, sample.health, sample.readings) is None
        && model::readings_sorted(sample.readings)
}

enum Aspect {
    Known,
    Source,
    Value,
}

spec fn aspect_fails(
    aspect: Aspect,
    catalog: CatalogModel,
    provider: Seq<char>,
    reading: ReadingModel,
) -> bool {
    match aspect {
        Aspect::Known => !is_known(catalog, reading.key),
        Aspect::Source => priority_in(catalog, reading.key, provider) is None,
        Aspect::Value => !value_agrees(catalog, reading),
    }
}

/// Whether some reading fails one aspect of validation.
fn any_fails(
    aspect: Aspect,
    catalog: &MetricCatalog,
    provider: &str,
    readings: &Vec<SampleReading>,
) -> (fails: bool)
    requires
        !(aspect is Known) ==> forall|i: int|
            0 <= i < readings.len() ==> is_known(
                catalog.deep_view(),
                (#[trigger] readings.deep_view()[i]).key,
            ),
    ensures
        fails == exists|i: int|
            0 <= i < readings.deep_view().len() && aspect_fails(
                aspect,
                catalog.deep_view(),
                provider@,
                #[trigger] readings.deep_view()[i],
            ),
{
    let ghost all = readings.deep_view();
    let mut i: usize = 0;
    while i < readings.len()
        invariant
            i <= readings.len(),
            all == readings.deep_view(),
            !(aspect is Known) ==> forall|j: int|
                0 <= j < all.len() ==> is_known(catalog.deep_view(), (#[trigger] all[j]).key),
            forall|j: int|
                0 <= j < i ==> !aspect_fails(
                    aspect,
                    catalog.deep_view(),
                    provider@,
                    #[trigger] all[j],
                ),
        decreases readings.len() - i,
    {
        let reading = &readings[i];
        assert(all[i as int] == reading.deep_view());
        let fails: bool = match catalog.descriptor(reading.metric.as_str()) {
            None => true,
            Some(descriptor) => match aspect {
                Aspect::Known => false,
                Aspect::Source => descriptor.source_priority(provider).is_none(),
                Aspect::Value => match &reading.outcome {
                    ReadingOutcome::Unavailable(_) => false,
                    ReadingOutcome::Observed(value) => {
                        let wide: bool = match value {
                            MetricReading::Counter { value: v, bits: Some(CounterBits::Bits32) } => *v
                                > u32::MAX as u64,
                            _ => false,
                        };
                        value.kind() != descriptor.kind || wide
                    },
                },
            },
        };
        if fails {
            assert(aspect_fails(aspect, catalog.deep_view(), provider@, all[i as int]));
            return true;
        }
        i += 1;
    }
    false
}

/// Whether some identity occurs twice among readings in canonical order.
fn repeats(sorted: &Vec<SampleReading>) -> (found: bool)
    requires
        model::readings_sorted(sorted.deep_view()),
    ensures
        found == model::has_duplicate(sorted.deep_view()),
{
    let ghost all = sorted.deep_view();
    let mut i: usize = 1;
    while i < sorted.len()
        invariant
            1 <= i,
            all == sorted.deep_view(),
            model::readings_sorted(all),
            forall|j: int|
                1 <= j < i && j < all.len() ==> (#[trigger] all[j]).key != all[j - 1].key,
        decreases sorted.len() - i,
    {
        assert(all[i as int] == sorted@[i as int].deep_view());
        assert(all[i - 1] == sorted@[i - 1].deep_view());
        if sorted[i - 1].same_identity(&sorted[i]) {
            assert(all[i - 1].key == all[i as int].key);
            return true;
        }
        i += 1;
    }
    proof {
        if model::has_duplicate(all) {
            let (a, b) = choose|a: int, b: int|
                0 <= a < b < all.len() && (#[trigger] all[a]).key == (#[trigger] all[b]).key;
            assert(all[b].key != all[b - 1].key);
            if a < b - 1 {
                model::key_order_is_strict_and_total(all[b - 1].key, all[b].key, all[b].key);
                assert(!model::key_before(all[b].key, all[b - 1].key));
                assert(!model::key_before(all[b - 1].key, all[a].key));
            }
            assert(false);
        }
    }
    false
}

proof fn lemma_problem_ignores_order(
    catalog: CatalogModel,
    provider: Seq<char>,
    a: Seq<ReadingModel>,
    b: Seq<ReadingModel>,
)
    requires
        a.to_multiset() == b.to_multiset(),
    ensures
        forall|r: ReadingModel| a.contains(r) <==> b.contains(r),
        model::has_duplicate(a) ==> model::has_duplicate(b),
{
    broadcast use vstd::seq_lib::group_to_multiset_ensures;

    assert forall|r: ReadingModel| a.contains(r) <==> b.contains(r) by {
        assert(a.to_multiset().count(r) > 0 <==> a.contains(r));
        assert(b.to_multiset().count(r) > 0 <==> b.contains(r));
    }
    if model::has_duplicate(a) {
        let (i, j) = choose|i: int, j: int|
            0 <= i < j < a.len() && (#[trigger] a[i]).key == (#[trigger] a[j]).key;
        assert(a.contains(a[i]) && a.contains(a[j]));
        if a[i] != a[j] {
            let k = choose|k: int| 0 <= k < b.len() && b[k] == a[i];
            let l = choose|l: int| 0 <= l < b.len() && b[l] == a[j];
            if k < l {
                assert(b[k].key == b[l].key);
            } else {
                assert(b[l].key == b[k].key);
            }
        } else {
            let r = a[i];
            let rest = a.remove(j);
            vstd::seq_lib::to_multiset_remove(a, j);
            assert(rest[i] == r);
            assert(rest.contains(r));
            assert(rest.to_multiset().count(r) > 0);
            assert(a.to_multiset().count(r) >= 2);
            let k = choose|k: int| 0 <= k < b.len() && b[k] == r;
            let other = b.remove(k);
            vstd::seq_lib::to_multiset_remove(b, k);
            assert(other.to_multiset().count(r) >= 1);
            assert(other.contains(r));
            let l = choose|l: int| 0 <= l < other.len() && other[l] == r;
            if l < k {
                assert(b[l] == r && b[l].key == b[k].key);
            } else {
                assert(b[l + 1] == r && b[k].key == b[l + 1].key);
            }
        }
    }
}

/// What is wrong with readings, and what they make, does not depend on the order
/// in which they come.
pub proof fn samples_ignore_the_order_of_readings(
    catalog: CatalogModel,
    provider: Seq<char>,
    finished_at: Nanos,
    collection_duration: Nanos,
    health: ProviderHealth<Seq<char>>,
    a: Seq<ReadingModel>,
    b: Seq<ReadingModel>,
)
    requires
        a.to_multiset() == b.to_multiset(),
    ensures
        sample_problem(catalog, provider, health, a) == sample_problem(
            catalog,
            provider,
            health,
            b,
        ),
        built_sample(catalog, provider, finished_at, collection_duration, health, a)
            == built_sample(catalog, provider, finished_at, collection_duration, health, b),
{
    broadcast use vstd::seq_lib::group_to_multiset_ensures;

    lemma_problem_ignores_order(catalog, provider, a, b);
    lemma_problem_ignores_order(catalog, provider, b, a);
    assert(a.len() == a.to_multiset().len() && b.len() == b.to_multiset().len());
    lemma_problem_carries_over(catalog, provider, a, b);
    lemma_problem_carries_over(catalog, provider, b, a);
    if sample_problem(catalog, provider, health, a) is None {
        model::lemma_canonical_exists(a);
        model::lemma_canonical_exists(b);
        let c = model::in_canonical_order(a);
        let d = model::in_canonical_order(b);
        lemma_problem_ignores_order(catalog, provider, c, a);
        model::canonical_order_is_unique(c, d);
    }
}

proof fn lemma_problem_carries_over(
    catalog: CatalogModel,
    provider: Seq<char>,
    a: Seq<ReadingModel>,
    b: Seq<ReadingModel>,
)
    requires
        forall|r: ReadingModel| a.contains(r) <==> b.contains(r),
    ensures
        (exists|i: int| 0 <= i < a.len() && !is_known(catalog, (#[trigger] a[i]).key)) ==> (exists|
            i: int,
        | 0 <= i < b.len() && !is_known(catalog, (#[trigger] b[i]).key)),
        (exists|i: int|
            0 <= i < a.len() && priority_in(catalog, (#[trigger] a[i]).key, provider) is None)
            ==> (exists|i: int|
            0 <= i < b.len() && priority_in(catalog, (#[trigger] b[i]).key, provider) is None),
        (exists|i: int| 0 <= i < a.len() && !value_agrees(catalog, #[trigger] a[i])) ==> (exists|
            i: int,
        | 0 <= i < b.len() && !value_agrees(catalog, #[trigger] b[i])),
{
    if exists|i: int| 0 <= i < a.len() && !is_known(catalog, (#[trigger] a[i]).key) {
        let i = choose|i: int| 0 <= i < a.len() && !is_known(catalog, (#[trigger] a[i]).key);
        assert(a.contains(a[i]));
        let j = choose|j: int| 0 <= j < b.len() && b[j] == a[i];
        assert(!is_known(catalog, b[j].key));
    }
    if exists|i: int|
        0 <= i < a.len() && priority_in(catalog, (#[trigger] a[i]).key, provider) is None {
        let i = choose|i: int|
            0 <= i < a.len() && priority_in(catalog, (#[trigger] a[i]).key, provider) is None;
        assert(a.contains(a[i]));
        let j = choose|j: int| 0 <= j < b.len() && b[j] == a[i];
        assert(priority_in(catalog, b[j].key, provider) is None);
    }
    if exists|i: int| 0 <= i < a.len() && !value_agrees(catalog, #[trigger] a[i]) {
        let i = choose|i: int| 0 <= i < a.len() && !value_agrees(catalog, #[trigger] a[i]);
        assert(a.contains(a[i]));
        let j = choose|j: int| 0 <= j < b.len() && b[j] == a[i];
        assert(!value_agrees(catalog, b[j]));
    }
}

impl ProviderSample {
    /// A sample whose readings agree with the catalog, put into canonical order.
    pub fn new(
        catalog: &MetricCatalog,
        provider: String,
        finished_at: Nanos,
        collection_duration: Nanos,
        health: ProviderHealth<String>,
        readings: Vec<SampleReading>,
    ) -> (result: Result<ProviderSample, MonitorValidationError>)
        ensures
            built_sample(
                catalog.deep_view(),
                provider@,
                finished_at,
                collection_duration,
                health.deep_view(),
                readings.deep_view(),
            ) == match result {
                Ok(sample) => Ok(sample.deep_view()),
                Err(error) => Err(error),
            },
            result matches Ok(sample) ==> sample_valid(catalog.deep_view(), sample.deep_view()),
            result matches Ok(sample) ==> sample.deep_view().readings.to_multiset()
                == readings.deep_view().to_multiset(),
    {
        let ghost given = readings.deep_view();
        if readings.len() > MAX_READINGS_PER_PROVIDER {
            return Err(MonitorValidationError::TooManyProviderReadings);
        }
        if !health.allows_readings() && readings.len() > 0 {
            return Err(MonitorValidationError::UnexpectedReadings);
        }
        if any_fails(Aspect::Known, catalog, provider.as_str(), &readings) {
            let ghost i = choose|i: int|
                0 <= i < given.len() && aspect_fails(
                    Aspect::Known,
                    catalog.deep_view(),
                    provider@,
                    #[trigger] given[i],
                );
            assert(!is_known(catalog.deep_view(), given[i].key));
            return Err(MonitorValidationError::UnknownMetric);
        }
        assert forall|i: int| 0 <= i < given.len() implies is_known(
            catalog.deep_view(),
            (#[trigger] given[i]).key,
        ) by {
            assert(!aspect_fails(Aspect::Known, catalog.deep_view(), provider@, given[i]));
        }
        if any_fails(Aspect::Source, catalog, provider.as_str(), &readings) {
            let ghost i = choose|i: int|
                0 <= i < given.len() && aspect_fails(
                    Aspect::Source,
                    catalog.deep_view(),
                    provider@,
                    #[trigger] given[i],
                );
            assert(priority_in(catalog.deep_view(), given[i].key, provider@) is None);
            return Err(MonitorValidationError::MetricSourceMismatch);
        }
        assert forall|i: int| 0 <= i < given.len() implies priority_in(
            catalog.deep_view(),
            (#[trigger] given[i]).key,
            provider@,
        ) is Some by {
            assert(!aspect_fails(Aspect::Source, catalog.deep_view(), provider@, given[i]));
        }
        if any_fails(Aspect::Value, catalog, provider.as_str(), &readings) {
            let ghost i = choose|i: int|
                0 <= i < given.len() && aspect_fails(
                    Aspect::Value,
                    catalog.deep_view(),
                    provider@,
                    #[trigger] given[i],
                );
            assert(!value_agrees(catalog.deep_view(), given[i]));
            return Err(MonitorValidationError::MetricKindMismatch);
        }
        assert forall|i: int| 0 <= i < given.len() implies value_agrees(
            catalog.deep_view(),
            #[trigger] given[i],
        ) by {
            assert(!aspect_fails(Aspect::Value, catalog.deep_view(), provider@, given[i]));
        }
        let sorted = sort_readings(readings);
        let ghost after = sorted.deep_view();
        proof {
            lemma_problem_ignores_order(catalog.deep_view(), provider@, given, after);
            lemma_problem_ignores_order(catalog.deep_view(), provider@, after, given);
        }
        if repeats(&sorted) {
            return Err(MonitorValidationError::DuplicateReading);
        }
        proof {
            assert forall|i: int| 0 <= i < after.len() implies is_known(
                catalog.deep_view(),
                (#[trigger] after[i]).key,
            ) && priority_in(catalog.deep_view(), after[i].key, provider@) is Some
                && value_agrees(catalog.deep_view(), after[i]) by {
                assert(after.contains(after[i]));
                let j = choose|j: int| 0 <= j < given.len() && given[j] == after[i];
                assert(given[j] == after[i]);
            }
            assert(after.to_multiset() == given.to_multiset());
            let canonical = model::in_canonical_order(given);
            assert(model::readings_sorted(canonical) && canonical.to_multiset()
                == given.to_multiset());
            model::canonical_order_is_unique(after, canonical);
        }
        Ok(
            ProviderSample {
                provider,
                finished_at,
                collection_duration,
                health,
                readings: sorted,
            },
        )
    }

    pub fn provider(&self) -> (provider: &str)
        ensures
            provider@ == self.deep_view().provider,
    {
        self.provider.as_str()
    }

    pub fn finished_at(&self) -> (at: Nanos)
        ensures
            at == self.deep_view().finished_at,
    {
        self.finished_at
    }

    /// A copy of the sample.
    pub fn copy(&self) -> (sample: ProviderSample)
        ensures
            sample.deep_view() == self.deep_view(),
    {
        ProviderSample {
            provider: self.provider.clone(),
            finished_at: self.finished_at,
            collection_duration: self.collection_duration,
            health: self.health.copy(),
            readings: model::copy_readings(&self.readings),
        }
    }
}

} // verus!
