//! What a cycle finds does not depend on the order in which its samples come.
use crate::catalog;
use crate::catalog::{CatalogModel, SampleModel};
use crate::engine;
use crate::engine::{CycleModel, EngineModel, EntryModel, ProviderRowModel};
use crate::model;
use crate::model::{KeyModel, Nanos, ProviderHealth, ReadingModel};
use crate::seqs;
use crate::text;
use vstd::prelude::*;

verus! {

/// Whether no two samples are of one provider.
pub open spec fn one_each(samples: Seq<SampleModel>) -> bool {
    forall|i: int, j: int|
        0 <= i < j < samples.len() ==> (#[trigger] samples[i]).provider != (
        #[trigger] samples[j]).provider
}

proof fn lemma_no_repeat(samples: Seq<SampleModel>, n: int)
    requires
        0 <= n <= samples.len(),
    ensures
        engine::first_repeat(samples, n) is None <==> forall|i: int, j: int|
            0 <= i < j < n ==> (#[trigger] samples[i]).provider != (
            #[trigger] samples[j]).provider,
    decreases n,
{
    if n > 0 {
        lemma_no_repeat(samples, n - 1);
        if engine::repeats_provider(samples, n - 1) {
            let j = choose|j: int|
                0 <= j < n - 1 && (#[trigger] samples[j]).provider == samples[n - 1].provider;
            assert(samples[j].provider == samples[n - 1].provider);
        } else {
            assert forall|i: int| 0 <= i < n - 1 implies (#[trigger] samples[i]).provider
                != samples[n - 1].provider by {
                assert(!engine::repeats_provider(samples, n - 1));
            }
        }
    }
}

/// Lists that hold the same samples, one for each provider.
pub open spec fn same_samples(a: Seq<SampleModel>, b: Seq<SampleModel>) -> bool {
    &&& one_each(a)
    &&& one_each(b)
    &&& forall|sample: SampleModel| a.contains(sample) <==> #[trigger] b.contains(sample)
}

proof fn lemma_same_samples(a: Seq<SampleModel>, b: Seq<SampleModel>)
    requires
        one_each(a),
        a.to_multiset() == b.to_multiset(),
    ensures
        same_samples(a, b),
        same_samples(b, a),
{
    broadcast use vstd::seq_lib::group_to_multiset_ensures;

    assert forall|sample: SampleModel| a.contains(sample) <==> #[trigger] b.contains(sample) by {
        assert(a.contains(sample) <==> a.to_multiset().count(sample) > 0);
        assert(b.contains(sample) <==> b.to_multiset().count(sample) > 0);
    }
    assert(a.no_duplicates());
    a.lemma_multiset_has_no_duplicates();
    b.lemma_multiset_has_no_duplicates_conv();
    assert forall|i: int, j: int| 0 <= i < j < b.len() implies (#[trigger] b[i]).provider != (
    #[trigger] b[j]).provider by {
        assert(b.contains(b[i]));
        assert(b.contains(b[j]));
        let k = choose|k: int| 0 <= k < a.len() && a[k] == b[i];
        let l = choose|l: int| 0 <= l < a.len() && a[l] == b[j];
        assert(b[i] != b[j]);
        if k < l {
            assert(a[k].provider != a[l].provider);
        } else {
            assert(l < k);
            assert(a[l].provider != a[k].provider);
        }
    }
}

/// Whether the reading at `(q, s)` comes before sample `p` or among its first `r` readings.
pub open spec fn is_scanned(samples: Seq<SampleModel>, p: int, r: int, q: int, s: int) -> bool {
    0 <= q < samples.len() && 0 <= s < samples[q].readings.len() && (q < p || (q == p && s < r))
}

/// The candidate of a series is one to which no other reading is preferred.
pub proof fn lemma_candidate_is_best(
    catalog: CatalogModel,
    samples: Seq<SampleModel>,
    key: KeyModel,
    p: int,
    r: int,
)
    requires
        0 <= p <= samples.len(),
        0 <= r,
        p < samples.len() ==> r <= samples[p].readings.len(),
        p == samples.len() ==> r == 0,
    ensures
        match engine::candidate_upto(catalog, samples, key, p, r) {
            None => forall|q: int, s: int| #[trigger]
                is_scanned(samples, p, r, q, s) ==> samples[q].readings[s].key != key,
            Some((a, b)) => is_scanned(samples, p, r, a, b) && samples[a].readings[b].key == key
                && forall|q: int, s: int| #[trigger]
                is_scanned(samples, p, r, q, s) && samples[q].readings[s].key == key
                    ==> !engine::preferred(catalog, samples, (q, s), (a, b)),
        },
    decreases p, r,
{
    if r > 0 {
        lemma_candidate_is_best(catalog, samples, key, p, r - 1);
        assert forall|q: int, s: int| #[trigger] is_scanned(samples, p, r, q, s) implies (q == p
            && s == r - 1) || is_scanned(samples, p, r - 1, q, s) by {}
        let before = engine::candidate_upto(catalog, samples, key, p, r - 1);
        if let Some((a, b)) = before {
            assert(is_scanned(samples, p, r, a, b));
        }
        assert(is_scanned(samples, p, r, p, r - 1));
    } else if p > 0 {
        let last = samples[p - 1].readings.len() as int;
        lemma_candidate_is_best(catalog, samples, key, p - 1, last);
        assert forall|q: int, s: int| #[trigger]
            is_scanned(samples, p, r, q, s) == is_scanned(samples, p - 1, last, q, s) by {}
    }
}

/// The sample and the reading that a cycle takes for a series.
spec fn taken(catalog: CatalogModel, samples: Seq<SampleModel>, key: KeyModel) -> Option<
    (SampleModel, ReadingModel),
> {
    match engine::candidate_of(catalog, samples, key) {
        Some((p, r)) => Some((samples[p], samples[p].readings[r])),
        None => None,
    }
}

spec fn all_valid(catalog: CatalogModel, samples: Seq<SampleModel>) -> bool {
    forall|i: int| 0 <= i < samples.len() ==> catalog::sample_valid(catalog, #[trigger] samples[i])
}

/// Different sources of a metric have different places.
proof fn lemma_priorities_differ(
    catalog: CatalogModel,
    key: KeyModel,
    a: Seq<char>,
    b: Seq<char>,
)
    requires
        a != b,
        catalog::priority_in(catalog, key, a) is Some,
        catalog::priority_in(catalog, key, b) is Some,
    ensures
        catalog::priority_in(catalog, key, a)->0 != catalog::priority_in(catalog, key, b)->0,
{
    let sources = catalog[catalog::metric_at(catalog, key.metric)->0].sources;
    seqs::lemma_first_where(sources, catalog::is_from(a), sources.len() as int);
    seqs::lemma_first_where(sources, catalog::is_from(b), sources.len() as int);
}

proof fn lemma_same_choice(
    catalog: CatalogModel,
    a: Seq<SampleModel>,
    b: Seq<SampleModel>,
    key: KeyModel,
)
    requires
        all_valid(catalog, a),
        all_valid(catalog, b),
        same_samples(a, b),
    ensures
        taken(catalog, a, key) == taken(catalog, b, key),
{
    let n = a.len() as int;
    let m = b.len() as int;
    lemma_candidate_is_best(catalog, a, key, n, 0);
    lemma_candidate_is_best(catalog, b, key, m, 0);
    match (engine::candidate_of(catalog, a, key), engine::candidate_of(catalog, b, key)) {
        (None, None) => {},
        (Some((p, r)), None) => {
            assert(a.contains(a[p]));
            assert(b.contains(a[p]));
            let j = choose|j: int| 0 <= j < b.len() && b[j] == a[p];
            assert(is_scanned(b, m, 0, j, r));
        },
        (None, Some((q, s))) => {
            assert(b.contains(b[q]));
            assert(a.contains(b[q]));
            let i = choose|i: int| 0 <= i < a.len() && a[i] == b[q];
            assert(is_scanned(a, n, 0, i, s));
        },
        (Some((p, r)), Some((q, s))) => {
            assert(a.contains(a[p]));
            assert(b.contains(a[p]));
            assert(b.contains(b[q]));
            assert(a.contains(b[q]));
            let j = choose|j: int| 0 <= j < b.len() && b[j] == a[p];
            let i = choose|i: int| 0 <= i < a.len() && a[i] == b[q];
            assert(is_scanned(b, m, 0, j, r));
            assert(is_scanned(a, n, 0, i, s));
            assert(!engine::preferred(catalog, b, (j, r), (q, s)));
            assert(!engine::preferred(catalog, a, (i, s), (p, r)));
            assert(catalog::sample_valid(catalog, a[p]) && catalog::sample_valid(catalog, b[q]));
            assert(a[p].readings[r].key == key && b[q].readings[s].key == key);
            if a[p].provider != b[q].provider {
                lemma_priorities_differ(catalog, key, a[p].provider, b[q].provider);
            }
            assert(a[p].provider == b[q].provider);
            if i < p {
                assert(a[i].provider != a[p].provider);
            } else if p < i {
                assert(a[p].provider != a[i].provider);
            }
            assert(a[p] == b[q]);
            if r < s {
                assert(a[p].readings[r].key == a[p].readings[s].key);
            } else if s < r {
                assert(a[p].readings[s].key == a[p].readings[r].key);
            }
        },
    }
}

/// The health of a provider in a cycle is that of its sample.
proof fn lemma_same_healths(
    successes: Map<Seq<char>, Nanos>,
    a: Seq<SampleModel>,
    b: Seq<SampleModel>,
)
    requires
        same_samples(a, b),
    ensures
        engine::health_of(a, engine::cycle_healths(successes, a)) == engine::health_of(
            b,
            engine::cycle_healths(successes, b),
        ),
{
    let f = engine::health_of(a, engine::cycle_healths(successes, a));
    let g = engine::health_of(b, engine::cycle_healths(successes, b));
    assert forall|provider: Seq<char>| #[trigger] f(provider) == g(provider) by {
        let p = engine::sampled_by(provider);
        seqs::lemma_first_where(a, p, a.len() as int);
        seqs::lemma_first_where(b, p, b.len() as int);
        let x = seqs::first_where(a, p, a.len() as int);
        let y = seqs::first_where(b, p, b.len() as int);
        if let Some(i) = x {
            assert(a.contains(a[i]));
            assert(b.contains(a[i]));
            let j = choose|j: int| 0 <= j < b.len() && b[j] == a[i];
            assert(p(b[j]));
            let k = y->0;
            if k < j {
                assert(b[k].provider != b[j].provider);
            }
            assert(b[k] == a[i]);
        } else if let Some(j) = y {
            assert(b.contains(b[j]));
            assert(a.contains(b[j]));
            let i = choose|i: int| 0 <= i < a.len() && a[i] == b[j];
            assert(p(a[i]));
        }
    }
    assert(f =~= g);
}

/// Whether one of the first `n` samples is a readable one of `provider`.
spec fn delivers(samples: Seq<SampleModel>, n: int, provider: Seq<char>, i: int) -> bool {
    0 <= i < n && samples[i].provider == provider && samples[i].health.readable()
}

/// Whether none is.
spec fn is_silent(samples: Seq<SampleModel>, n: int, provider: Seq<char>) -> bool {
    forall|i: int| !#[trigger] delivers(samples, n, provider, i)
}

proof fn lemma_successes(
    successes: Map<Seq<char>, Nanos>,
    samples: Seq<SampleModel>,
    n: int,
)
    requires
        0 <= n <= samples.len(),
        one_each(samples),
    ensures
        forall|provider: Seq<char>, i: int| #[trigger]
            delivers(samples, n, provider, i) ==> engine::successes_after(successes, samples, n)
                .dom().contains(provider) && engine::successes_after(successes, samples, n)[provider]
                == samples[i].finished_at,
        forall|provider: Seq<char>| #[trigger]
            is_silent(samples, n, provider) ==> {
                let after = engine::successes_after(successes, samples, n);
                &&& after.dom().contains(provider) == successes.dom().contains(provider)
                &&& successes.dom().contains(provider) ==> after[provider] == successes[provider]
            },
    decreases n,
{
    if n > 0 {
        lemma_successes(successes, samples, n - 1);
        let before = engine::successes_after(successes, samples, n - 1);
        let after = engine::successes_after(successes, samples, n);
        let last = samples[n - 1];
        assert forall|provider: Seq<char>, i: int| #[trigger]
            delivers(samples, n, provider, i) implies after.dom().contains(provider)
            && after[provider] == samples[i].finished_at by {
            if i < n - 1 {
                assert(delivers(samples, n - 1, provider, i));
                assert(samples[i].provider != samples[n - 1].provider);
            }
        }
        assert forall|provider: Seq<char>| #[trigger] is_silent(samples, n, provider) implies {
            &&& after.dom().contains(provider) == successes.dom().contains(provider)
            &&& successes.dom().contains(provider) ==> after[provider] == successes[provider]
        } by {
            assert(!delivers(samples, n, provider, n - 1));
            assert(is_silent(samples, n - 1, provider)) by {
                assert forall|i: int| !#[trigger] delivers(samples, n - 1, provider, i) by {
                    assert(!delivers(samples, n, provider, i));
                }
            }
        }
    }
}

proof fn lemma_same_successes(
    successes: Map<Seq<char>, Nanos>,
    a: Seq<SampleModel>,
    b: Seq<SampleModel>,
)
    requires
        same_samples(a, b),
    ensures
        engine::successes_after(successes, a, a.len() as int) == engine::successes_after(
            successes,
            b,
            b.len() as int,
        ),
{
    let n = a.len() as int;
    let m = b.len() as int;
    lemma_successes(successes, a, n);
    lemma_successes(successes, b, m);
    let x = engine::successes_after(successes, a, n);
    let y = engine::successes_after(successes, b, m);
    assert forall|provider: Seq<char>| #[trigger]
        x.dom().contains(provider) == y.dom().contains(provider) && (x.dom().contains(provider)
            ==> x[provider] == y[provider]) by {
        if exists|i: int| delivers(a, n, provider, i) {
            let i = choose|i: int| delivers(a, n, provider, i);
            assert(a.contains(a[i]));
            assert(b.contains(a[i]));
            let j = choose|j: int| 0 <= j < b.len() && b[j] == a[i];
            assert(delivers(b, m, provider, j));
        } else {
            assert(is_silent(a, n, provider));
            assert forall|j: int| !#[trigger] delivers(b, m, provider, j) by {
                if delivers(b, m, provider, j) {
                    assert(b.contains(b[j]));
                    assert(a.contains(b[j]));
                    let i = choose|i: int| 0 <= i < a.len() && a[i] == b[j];
                    assert(delivers(a, n, provider, i));
                }
            }
            assert(is_silent(b, m, provider));
        }
    }
    assert(x =~= y);
}

/// Whether an identity is that of the reading at `(q, s)`.
pub open spec fn is_key_of(samples: Seq<SampleModel>, key: KeyModel, q: int, s: int) -> bool {
    samples[q].readings[s].key == key
}

/// The new identities are those of all readings that have no series.
pub proof fn lemma_new_keys_hold(
    entries: Seq<EntryModel>,
    samples: Seq<SampleModel>,
    p: int,
    r: int,
)
    requires
        0 <= p <= samples.len(),
        0 <= r,
        p < samples.len() ==> r <= samples[p].readings.len(),
        p == samples.len() ==> r == 0,
    ensures
        engine::keys_ordered(engine::new_keys_upto(entries, samples, p, r)),
        forall|key: KeyModel| #[trigger]
            engine::new_keys_upto(entries, samples, p, r).contains(key) <==> !engine::has_key(
                entries,
                key,
            ) && exists|q: int, s: int|
                is_scanned(samples, p, r, q, s) && #[trigger] is_key_of(samples, key, q, s),
    decreases p, r,
{
    let after = engine::new_keys_upto(entries, samples, p, r);
    if r > 0 {
        lemma_new_keys_hold(entries, samples, p, r - 1);
        let before = engine::new_keys_upto(entries, samples, p, r - 1);
        let new = samples[p].readings[r - 1].key;
        engine::lemma_key_slot(before, new);
        let slot = engine::key_slot(before, new);
        assert forall|key: KeyModel| #[trigger] after.contains(key) <==> (before.contains(key) || (
        key == new && !engine::has_key(entries, new))) by {
            if after != before {
                assert(after == before.insert(slot, new));
                assert(after[slot] == new);
                if before.contains(key) {
                    let i = choose|i: int| 0 <= i < before.len() && before[i] == key;
                    if i < slot {
                        assert(after[i] == key);
                    } else {
                        assert(after[i + 1] == key);
                    }
                }
                if after.contains(key) && key != new {
                    let i = choose|i: int| 0 <= i < after.len() && after[i] == key;
                    if i < slot {
                        assert(before[i] == key);
                    } else {
                        assert(before[i - 1] == key);
                    }
                }
            }
        }
        assert forall|key: KeyModel| #[trigger] after.contains(key) <==> !engine::has_key(
            entries,
            key,
        ) && exists|q: int, s: int|
            is_scanned(samples, p, r, q, s) && #[trigger] is_key_of(samples, key, q, s) by {
            if before.contains(key) {
                let (q, s) = choose|q: int, s: int|
                    is_scanned(samples, p, r - 1, q, s) && #[trigger] is_key_of(
                        samples,
                        key,
                        q,
                        s,
                    );
                assert(is_scanned(samples, p, r, q, s) && is_key_of(samples, key, q, s));
            }
            if key == new {
                assert(is_scanned(samples, p, r, p, r - 1) && is_key_of(samples, key, p, r - 1));
            } else if exists|q: int, s: int|
                is_scanned(samples, p, r, q, s) && #[trigger] is_key_of(samples, key, q, s) {
                let (q, s) = choose|q: int, s: int|
                    is_scanned(samples, p, r, q, s) && #[trigger] is_key_of(samples, key, q, s);
                assert(is_scanned(samples, p, r - 1, q, s) && is_key_of(samples, key, q, s));
            }
        }
    } else if p > 0 {
        let last = samples[p - 1].readings.len() as int;
        lemma_new_keys_hold(entries, samples, p - 1, last);
        assert forall|q: int, s: int| #[trigger]
            is_scanned(samples, p, r, q, s) == is_scanned(samples, p - 1, last, q, s) by {}
    }
}

proof fn lemma_same_keys(entries: Seq<EntryModel>, a: Seq<SampleModel>, b: Seq<SampleModel>)
    requires
        same_samples(a, b),
        same_samples(b, a),
    ensures
        engine::new_keys_upto(entries, a, a.len() as int, 0) == engine::new_keys_upto(
            entries,
            b,
            b.len() as int,
            0,
        ),
{
    let n = a.len() as int;
    let m = b.len() as int;
    lemma_new_keys_hold(entries, a, n, 0);
    lemma_new_keys_hold(entries, b, m, 0);
    let x = engine::new_keys_upto(entries, a, n, 0);
    let y = engine::new_keys_upto(entries, b, m, 0);
    assert forall|key: KeyModel| #[trigger] x.contains(key) <==> y.contains(key) by {
        if x.contains(key) {
            lemma_key_carries(a, b, key);
        }
        if y.contains(key) {
            lemma_key_carries(b, a, key);
        }
    }
    let before = |k: KeyModel, l: KeyModel| model::key_before(k, l);
    assert forall|k: KeyModel, l: KeyModel| #[trigger] before(k, l) implies !before(l, k) by {
        model::key_order_is_strict_and_total(k, l, k);
    }
    seqs::lemma_strict_order_is_unique(x, y, before);
}

/// A key that some reading has is also among the readings of the other list.
proof fn lemma_key_carries(a: Seq<SampleModel>, b: Seq<SampleModel>, key: KeyModel)
    requires
        same_samples(a, b),
        exists|q: int, s: int|
            is_scanned(a, a.len() as int, 0, q, s) && #[trigger] is_key_of(a, key, q, s),
    ensures
        exists|q: int, s: int|
            is_scanned(b, b.len() as int, 0, q, s) && #[trigger] is_key_of(b, key, q, s),
{
    let (q, s) = choose|q: int, s: int|
        is_scanned(a, a.len() as int, 0, q, s) && #[trigger] is_key_of(a, key, q, s);
    assert(a.contains(a[q]));
    assert(b.contains(a[q]));
    let j = choose|j: int| 0 <= j < b.len() && b[j] == a[q];
    assert(is_scanned(b, b.len() as int, 0, j, s) && is_key_of(b, key, j, s));
}

/// The order of provider rows.
spec fn row_order() -> spec_fn(ProviderRowModel, ProviderRowModel) -> bool {
    |a: ProviderRowModel, b: ProviderRowModel| text::text_before(a.provider, b.provider)
}

spec fn rows_ordered(rows: Seq<ProviderRowModel>) -> bool {
    forall|i: int, j: int|
        0 <= i < j < rows.len() ==> text::text_before(
            (#[trigger] rows[i]).provider,
            (#[trigger] rows[j]).provider,
        )
}

proof fn lemma_row_slot(rows: Seq<ProviderRowModel>, provider: Seq<char>)
    requires
        rows_ordered(rows),
    ensures
        0 <= engine::row_slot(rows, provider) <= rows.len(),
        forall|i: int|
            0 <= i < engine::row_slot(rows, provider) ==> text::text_before(
                (#[trigger] rows[i]).provider,
                provider,
            ),
        forall|i: int|
            engine::row_slot(rows, provider) <= i < rows.len() ==> !text::text_before(
                (#[trigger] rows[i]).provider,
                provider,
            ),
    decreases rows.len(),
{
    if rows.len() > 0 {
        let rest = rows.drop_last();
        if text::text_before(rows.last().provider, provider) {
            assert forall|i: int| 0 <= i < rows.len() implies text::text_before(
                (#[trigger] rows[i]).provider,
                provider,
            ) by {
                if i < rows.len() - 1 {
                    assert(text::text_before(rows[i].provider, rows[rows.len() - 1].provider));
                    text::text_order_is_strict_and_total(
                        rows[i].provider,
                        rows.last().provider,
                        provider,
                    );
                }
            }
        } else {
            assert(rows_ordered(rest)) by {
                assert forall|i: int, j: int| 0 <= i < j < rest.len() implies text::text_before(
                    (#[trigger] rest[i]).provider,
                    (#[trigger] rest[j]).provider,
                ) by {
                    assert(rest[i] == rows[i] && rest[j] == rows[j]);
                }
            }
            lemma_row_slot(rest, provider);
            assert forall|i: int| 0 <= i < rest.len() implies #[trigger] rows[i] == rest[i] by {}
        }
    }
}

/// Whether a row is that of sample `i`.
spec fn is_row_of(
    samples: Seq<SampleModel>,
    healths: Seq<ProviderHealth<Seq<char>>>,
    row: ProviderRowModel,
    i: int,
) -> bool {
    row == engine::provider_row(samples[i], healths[i])
}

proof fn lemma_provider_rows(
    samples: Seq<SampleModel>,
    healths: Seq<ProviderHealth<Seq<char>>>,
    n: int,
)
    requires
        0 <= n <= samples.len(),
        one_each(samples),
    ensures
        rows_ordered(engine::provider_rows_upto(samples, healths, n)),
        forall|row: ProviderRowModel| #[trigger]
            engine::provider_rows_upto(samples, healths, n).contains(row) <==> exists|i: int|
                0 <= i < n && #[trigger] is_row_of(samples, healths, row, i),
    decreases n,
{
    if n > 0 {
        lemma_provider_rows(samples, healths, n - 1);
        let before = engine::provider_rows_upto(samples, healths, n - 1);
        let after = engine::provider_rows_upto(samples, healths, n);
        let new = engine::provider_row(samples[n - 1], healths[n - 1]);
        let slot = engine::row_slot(before, new.provider);
        lemma_row_slot(before, new.provider);
        assert(after == before.insert(slot, new));
        assert forall|k: int| 0 <= k < before.len() implies (#[trigger] before[k]).provider
            != new.provider by {
            assert(before.contains(before[k]));
            let i = choose|i: int| 0 <= i < n - 1 && is_row_of(samples, healths, before[k], i);
            assert(samples[i].provider != samples[n - 1].provider);
        }
        assert forall|i: int, j: int| 0 <= i < j < after.len() implies text::text_before(
            (#[trigger] after[i]).provider,
            (#[trigger] after[j]).provider,
        ) by {
            let k: int = if i < slot { i } else { i - 1 };
            let l: int = if j < slot { j } else { j - 1 };
            if i == slot {
                text::text_order_is_strict_and_total(new.provider, before[l].provider, new.provider);
            } else if j == slot {
                assert(after[i] == before[k]);
            } else {
                assert(after[i] == before[k] && after[j] == before[l]);
            }
        }
        assert forall|row: ProviderRowModel| #[trigger] after.contains(row) <==> exists|i: int|
            0 <= i < n && #[trigger] is_row_of(samples, healths, row, i) by {
            if after.contains(row) {
                let k = choose|k: int| 0 <= k < after.len() && after[k] == row;
                if k == slot {
                    assert(is_row_of(samples, healths, row, n - 1));
                } else {
                    let l: int = if k < slot { k } else { k - 1 };
                    assert(before[l] == row);
                    assert(before.contains(row));
                    let i = choose|i: int| 0 <= i < n - 1 && is_row_of(samples, healths, row, i);
                    assert(0 <= i < n && is_row_of(samples, healths, row, i));
                }
            }
            if exists|i: int| 0 <= i < n && is_row_of(samples, healths, row, i) {
                let i = choose|i: int| 0 <= i < n && is_row_of(samples, healths, row, i);
                if i == n - 1 {
                    assert(after[slot] == row);
                } else {
                    assert(0 <= i < n - 1 && is_row_of(samples, healths, row, i));
                    assert(before.contains(row));
                    let k = choose|k: int| 0 <= k < before.len() && before[k] == row;
                    if k < slot {
                        assert(after[k] == row);
                    } else {
                        assert(after[k + 1] == row);
                    }
                }
            }
        }
    }
}

proof fn lemma_row_carries(
    successes: Map<Seq<char>, Nanos>,
    a: Seq<SampleModel>,
    b: Seq<SampleModel>,
    row: ProviderRowModel,
    i: int,
)
    requires
        same_samples(a, b),
        0 <= i < a.len(),
        is_row_of(a, engine::cycle_healths(successes, a), row, i),
    ensures
        exists|j: int|
            0 <= j < b.len() && #[trigger] is_row_of(
                b,
                engine::cycle_healths(successes, b),
                row,
                j,
            ),
{
    assert(a.contains(a[i]));
    assert(b.contains(a[i]));
    let j = choose|j: int| 0 <= j < b.len() && b[j] == a[i];
    assert(is_row_of(b, engine::cycle_healths(successes, b), row, j));
}

proof fn lemma_same_provider_rows(
    successes: Map<Seq<char>, Nanos>,
    a: Seq<SampleModel>,
    b: Seq<SampleModel>,
)
    requires
        same_samples(a, b),
        same_samples(b, a),
    ensures
        engine::provider_rows_upto(a, engine::cycle_healths(successes, a), a.len() as int)
            == engine::provider_rows_upto(b, engine::cycle_healths(successes, b), b.len() as int),
{
    let ha = engine::cycle_healths(successes, a);
    let hb = engine::cycle_healths(successes, b);
    let n = a.len() as int;
    let m = b.len() as int;
    lemma_provider_rows(a, ha, n);
    lemma_provider_rows(b, hb, m);
    let x = engine::provider_rows_upto(a, ha, n);
    let y = engine::provider_rows_upto(b, hb, m);
    assert forall|row: ProviderRowModel| #[trigger] x.contains(row) <==> y.contains(row) by {
        if x.contains(row) {
            let i = choose|i: int| 0 <= i < n && is_row_of(a, ha, row, i);
            lemma_row_carries(successes, a, b, row, i);
        }
        if y.contains(row) {
            let j = choose|j: int| 0 <= j < m && is_row_of(b, hb, row, j);
            lemma_row_carries(successes, b, a, row, j);
        }
    }
    let before = row_order();
    assert forall|r: ProviderRowModel, s: ProviderRowModel| #[trigger] before(r, s) implies !before(
        s,
        r,
    ) by {
        text::text_order_is_strict_and_total(r.provider, s.provider, r.provider);
    }
    seqs::lemma_strict_order_is_unique(x, y, before);
}

/// Cycles that do the same to every series show the same rows and events.
proof fn lemma_same_projection(a: CycleModel, b: CycleModel, n: int)
    requires
        forall|i: int| 0 <= i < n ==> #[trigger] engine::step_at(a, i) == engine::step_at(b, i),
    ensures
        engine::rows_upto(a, n) == engine::rows_upto(b, n),
        engine::events_upto(a, n) == engine::events_upto(b, n),
    decreases n,
{
    if n > 0 {
        lemma_same_projection(a, b, n - 1);
        assert(engine::step_at(a, n - 1) == engine::step_at(b, n - 1));
    }
}

/// A cycle does not depend on the order of its samples: the same samples, one for each
/// provider, give the same snapshot, the same events and the same engine in any order.
pub proof fn cycles_ignore_the_order_of_samples(
    engine: EngineModel,
    elapsed: Nanos,
    a: Seq<SampleModel>,
    b: Seq<SampleModel>,
    network_namespace: Option<Seq<char>>,
)
    requires
        forall|i: int|
            0 <= i < a.len() ==> catalog::sample_valid(engine.catalog, #[trigger] a[i]),
        engine::first_repeat(a, a.len() as int) is None,
        a.to_multiset() == b.to_multiset(),
    ensures
        engine::first_repeat(b, b.len() as int) is None,
        engine::snapshot_of(engine, elapsed, a, network_namespace) == engine::snapshot_of(
            engine,
            elapsed,
            b,
            network_namespace,
        ),
        engine::after_cycle(engine, elapsed, a) == engine::after_cycle(engine, elapsed, b),
        ({
            let x = engine::cycle_of(engine, elapsed, a);
            let y = engine::cycle_of(engine, elapsed, b);
            engine::events_upto(x, x.entries.len() as int) == engine::events_upto(
                y,
                y.entries.len() as int,
            )
        }),
{
    lemma_no_repeat(a, a.len() as int);
    lemma_same_samples(a, b);
    lemma_no_repeat(b, b.len() as int);
    assert forall|j: int| 0 <= j < b.len() implies catalog::sample_valid(
        engine.catalog,
        #[trigger] b[j],
    ) by {
        assert(b.contains(b[j]));
        assert(a.contains(b[j]));
        let i = choose|i: int| 0 <= i < a.len() && a[i] == b[j];
        assert(catalog::sample_valid(engine.catalog, a[i]));
    }
    lemma_same_keys(engine.entries, a, b);
    lemma_same_healths(engine.successes, a, b);
    lemma_same_successes(engine.successes, a, b);
    lemma_same_provider_rows(engine.successes, a, b);
    let x = engine::cycle_of(engine, elapsed, a);
    let y = engine::cycle_of(engine, elapsed, b);
    let n = x.entries.len() as int;
    assert(x.entries == y.entries);
    assert forall|i: int| 0 <= i < n implies #[trigger] engine::step_at(x, i) == engine::step_at(
        y,
        i,
    ) by {
        lemma_same_choice(engine.catalog, a, b, x.entries[i].key);
    }
    lemma_same_projection(x, y, n);
    let after = engine::after_cycle(engine, elapsed, a);
    let other = engine::after_cycle(engine, elapsed, b);
    assert(after.entries =~= other.entries);
}

} // verus!
