//! The canonical order of readings, remembered for a stable set of identities.
use crate::engine::SeriesKey;
use crate::model;
use crate::model::{
    KeyModel, MetricLabels, ReadingModel, SampleReading, UnavailableReason,
    MAX_READINGS_PER_PROVIDER,
};
use crate::seqs;
use vstd::prelude::*;

verus! {

/// The sequence with the elements at `a` and `b` exchanged.
pub open spec fn swapped<A>(s: Seq<A>, a: int, b: int) -> Seq<A> {
    s.update(a, s[b]).update(b, s[a])
}

/// The sequence after the first `n` exchanges.
pub open spec fn apply_swaps<A>(s: Seq<A>, swaps: Seq<(usize, usize)>, n: int) -> Seq<A>
    decreases n,
{
    if n <= 0 {
        s
    } else {
        swapped(
            apply_swaps(s, swaps, n - 1),
            swaps[n - 1].0 as int,
            swaps[n - 1].1 as int,
        )
    }
}

/// Whether every exchange is within `length`.
pub open spec fn swaps_within(swaps: Seq<(usize, usize)>, length: int) -> bool {
    forall|i: int|
        0 <= i < swaps.len() ==> (#[trigger] swaps[i]).0 < length && swaps[i].1 < length
}

/// Whether no identity comes before an earlier one.
pub open spec fn keys_sorted(keys: Seq<KeyModel>) -> bool {
    forall|i: int, j: int|
        0 <= i < j < keys.len() ==> !model::key_before(#[trigger] keys[j], #[trigger] keys[i])
}

/// The identities of readings.
pub open spec fn keys_of(readings: Seq<ReadingModel>) -> Seq<KeyModel> {
    Seq::new(readings.len(), |i: int| readings[i].key)
}

pub proof fn lemma_swaps_length<A>(s: Seq<A>, swaps: Seq<(usize, usize)>, n: int)
    requires
        0 <= n <= swaps.len(),
        swaps_within(swaps, s.len() as int),
    ensures
        apply_swaps(s, swaps, n).len() == s.len(),
    decreases n,
{
    if n > 0 {
        lemma_swaps_length(s, swaps, n - 1);
        assert(swaps[n - 1].0 < s.len() && swaps[n - 1].1 < s.len());
    }
}

proof fn lemma_swaps_commute(
    readings: Seq<ReadingModel>,
    swaps: Seq<(usize, usize)>,
    n: int,
)
    requires
        0 <= n <= swaps.len(),
        swaps_within(swaps, readings.len() as int),
    ensures
        keys_of(apply_swaps(readings, swaps, n)) == apply_swaps(keys_of(readings), swaps, n),
    decreases n,
{
    lemma_swaps_length(readings, swaps, n);
    lemma_swaps_length(keys_of(readings), swaps, n);
    if n > 0 {
        lemma_swaps_commute(readings, swaps, n - 1);
        lemma_swaps_length(readings, swaps, n - 1);
        let before = apply_swaps(readings, swaps, n - 1);
        assert(swaps[n - 1].0 < readings.len() && swaps[n - 1].1 < readings.len());
        assert(keys_of(swapped(before, swaps[n - 1].0 as int, swaps[n - 1].1 as int)) =~= swapped(
            keys_of(before),
            swaps[n - 1].0 as int,
            swaps[n - 1].1 as int,
        ));
    }
}

proof fn lemma_swap_keeps_elements<A>(s: Seq<A>, a: int, b: int)
    requires
        0 <= a < s.len(),
        0 <= b < s.len(),
    ensures
        swapped(s, a, b).to_multiset() == s.to_multiset(),
{
    broadcast use vstd::seq_lib::group_to_multiset_ensures;

    let first = s.update(a, s[b]);
    vstd::seq_lib::to_multiset_update(s, a, s[b]);
    vstd::seq_lib::to_multiset_update(first, b, s[a]);
    assert(s.contains(s[a]) && s.contains(s[b]));
    assert(s.to_multiset().count(s[a]) > 0);
    if a == b {
        assert(swapped(s, a, b) =~= s);
    } else {
        assert(first[b] == s[b]);
        assert(swapped(s, a, b).to_multiset() =~= s.to_multiset());
    }
}

pub proof fn lemma_swaps_keep_elements<A>(s: Seq<A>, swaps: Seq<(usize, usize)>, n: int)
    requires
        0 <= n <= swaps.len(),
        swaps_within(swaps, s.len() as int),
    ensures
        apply_swaps(s, swaps, n).to_multiset() == s.to_multiset(),
    decreases n,
{
    if n > 0 {
        lemma_swaps_keep_elements(s, swaps, n - 1);
        lemma_swaps_length(s, swaps, n - 1);
        assert(swaps[n - 1].0 < s.len() && swaps[n - 1].1 < s.len());
        lemma_swap_keeps_elements(
            apply_swaps(s, swaps, n - 1),
            swaps[n - 1].0 as int,
            swaps[n - 1].1 as int,
        );
    }
}

/// How many of the first `n` elements are not at their destination.
spec fn unplaced(destinations: Seq<usize>, n: int) -> nat
    decreases n,
{
    if n <= 0 {
        0
    } else if destinations[n - 1] != n - 1 {
        unplaced(destinations, n - 1) + 1
    } else {
        unplaced(destinations, n - 1)
    }
}

proof fn lemma_unplaced_update(destinations: Seq<usize>, i: int, value: usize, n: int)
    requires
        0 <= i < destinations.len(),
        0 <= n <= destinations.len(),
    ensures
        unplaced(destinations.update(i, value), n) == unplaced(destinations, n) + (if i < n && value
            != i {
            1int
        } else {
            0
        }) - (if i < n && destinations[i] != i {
            1int
        } else {
            0
        }),
    decreases n,
{
    if n > 0 {
        lemma_unplaced_update(destinations, i, value, n - 1);
    }
}

/// The positions of the identities in canonical order.
fn sorted_positions(keys: &Vec<SeriesKey>) -> (order: Vec<usize>)
    ensures
        order.len() == keys.len(),
        order@.no_duplicates(),
        forall|k: int| 0 <= k < keys.len() ==> #[trigger] order@.contains(k as usize),
        forall|i: int| 0 <= i < order.len() ==> (#[trigger] order@[i]) < keys.len(),
        forall|i: int, j: int|
            0 <= i < j < order.len() ==> !model::key_before(
                keys.deep_view()[(#[trigger] order@[j]) as int],
                keys.deep_view()[(#[trigger] order@[i]) as int],
            ),
{
    let ghost all = keys.deep_view();
    let mut order: Vec<usize> = Vec::new();
    for k in 0..keys.len()
        invariant
            all == keys.deep_view(),
            order.len() == k,
            order@.no_duplicates(),
            forall|i: int| 0 <= i < k ==> #[trigger] order@.contains(i as usize),
            forall|i: int| 0 <= i < order.len() ==> (#[trigger] order@[i]) < k,
            forall|i: int, j: int|
                0 <= i < j < order.len() ==> !model::key_before(
                    all[(#[trigger] order@[j]) as int],
                    all[(#[trigger] order@[i]) as int],
                ),
    {
        let ghost key = all[k as int];
        let ghost before = order@;
        assert(key == keys@[k as int].deep_view());
        let mut low: usize = 0;
        let mut high: usize = order.len();
        while low < high
            invariant
                low <= high <= order.len(),
                order@ == before,
                k < keys.len(),
                all == keys.deep_view(),
                key == all[k as int],
                key == keys@[k as int].deep_view(),
                forall|i: int| 0 <= i < order.len() ==> (#[trigger] order@[i]) < k,
                forall|i: int, j: int|
                    0 <= i < j < order.len() ==> !model::key_before(
                        all[(#[trigger] order@[j]) as int],
                        all[(#[trigger] order@[i]) as int],
                    ),
                forall|i: int|
                    0 <= i < low ==> !model::key_before(key, all[(#[trigger] order@[i]) as int]),
                forall|i: int|
                    high <= i < order.len() ==> model::key_before(
                        key,
                        all[(#[trigger] order@[i]) as int],
                    ),
            decreases high - low,
        {
            let middle: usize = low + (high - low) / 2;
            let position: usize = order[middle];
            let ghost at = all[position as int];
            assert(at == keys@[position as int].deep_view());
            if keys[k].precedes(&keys[position]) {
                assert forall|i: int| middle <= i < order.len() implies model::key_before(
                    key,
                    all[(#[trigger] order@[i]) as int],
                ) by {
                    if i > middle {
                        let other = all[order@[i] as int];
                        assert(!model::key_before(all[order@[i] as int], all[order@[middle as int] as int]));
                        model::key_order_is_strict_and_total(key, at, other);
                        model::key_order_is_strict_and_total(at, other, key);
                    }
                }
                high = middle;
            } else {
                assert forall|i: int| 0 <= i <= middle implies !model::key_before(
                    key,
                    all[(#[trigger] order@[i]) as int],
                ) by {
                    if i < middle {
                        let other = all[order@[i] as int];
                        assert(!model::key_before(all[order@[middle as int] as int], all[order@[i] as int]));
                        model::key_order_is_strict_and_total(other, at, key);
                        model::key_order_is_strict_and_total(key, other, at);
                    }
                }
                low = middle + 1;
            }
        }
        order.insert(low, k);
        proof {
            let after = order@;
            assert(after == before.insert(low as int, k));
            assert forall|i: int| 0 <= i < k + 1 implies #[trigger] after.contains(i as usize) by {
                if i == k {
                    assert(after[low as int] == k);
                } else {
                    assert(before.contains(i as usize));
                    let p = choose|p: int| 0 <= p < before.len() && before[p] == i as usize;
                    if p < low {
                        assert(after[p] == i as usize);
                    } else {
                        assert(after[p + 1] == i as usize);
                    }
                }
            }
            assert forall|i: int, j: int|
                0 <= i < after.len() && 0 <= j < after.len() && i != j implies after[i]
                != after[j] by {
                let a: int = if i < low { i } else { i - 1 };
                let b: int = if j < low { j } else { j - 1 };
                if i != low {
                    assert(after[i] == before[a]);
                    assert(before[a] < k);
                }
                if j != low {
                    assert(after[j] == before[b]);
                    assert(before[b] < k);
                }
            }
            assert forall|i: int| 0 <= i < after.len() implies (#[trigger] after[i]) < k + 1 by {
                let a: int = if i < low { i } else { i - 1 };
                if i != low {
                    assert(after[i] == before[a]);
                }
            }
            assert forall|i: int, j: int| 0 <= i < j < after.len() implies !model::key_before(
                all[(#[trigger] after[j]) as int],
                all[(#[trigger] after[i]) as int],
            ) by {
                let a: int = if i < low { i } else { i - 1 };
                let b: int = if j < low { j } else { j - 1 };
                if i != low {
                    assert(after[i] == before[a]);
                }
                if j != low {
                    assert(after[j] == before[b]);
                }
                if i == low {
                    assert(model::key_before(key, all[before[b] as int]));
                    model::key_order_is_strict_and_total(key, all[before[b] as int], key);
                } else if j == low {
                    assert(!model::key_before(key, all[before[a] as int]));
                }
            }
        }
    }
    order
}

/// Exchanges that put identities into canonical order.
pub fn sorting_swaps(keys: &Vec<SeriesKey>) -> (swaps: Vec<(usize, usize)>)
    ensures
        swaps_within(swaps@, keys.len() as int),
        keys_sorted(apply_swaps(keys.deep_view(), swaps@, swaps.len() as int)),
{
    let ghost all = keys.deep_view();
    let order = sorted_positions(keys);
    let n: usize = keys.len();
    let ghost sorted = Seq::new(n as nat, |i: int| all[order@[i] as int]);
    let mut destinations: Vec<usize> = Vec::new();
    for i in 0..n
        invariant
            destinations.len() == i,
    {
        destinations.push(0);
    }
    for d in 0..n
        invariant
            n == order.len() == keys.len(),
            destinations.len() == n,
            order@.no_duplicates(),
            forall|i: int| 0 <= i < order.len() ==> (#[trigger] order@[i]) < n,
            forall|e: int| 0 <= e < d ==> destinations@[(#[trigger] order@[e]) as int] == e,
    {
        let source: usize = order[d];
        destinations.set(source, d);
        assert forall|e: int| 0 <= e < d + 1 implies destinations@[(#[trigger] order@[e]) as int]
            == e by {
            if e < d {
                assert(order@[e] != order@[d as int]);
            }
        }
    }
    proof {
        assert forall|j: int| 0 <= j < n implies (#[trigger] destinations@[j]) < n && all[j]
            == sorted[destinations@[j] as int] && order@[destinations@[j] as int] == j by {
            assert(order@.contains(j as usize));
            let e = choose|e: int| 0 <= e < order@.len() && order@[e] == j as usize;
            assert(destinations@[order@[e] as int] == e);
        }
    }
    let mut swaps: Vec<(usize, usize)> = Vec::new();
    let ghost mut current = all;
    proof {
        assert forall|i: int, j: int| 0 <= i < n && 0 <= j < n && i != j implies (
        #[trigger] destinations@[i]) != (#[trigger] destinations@[j]) by {
            assert(order@[destinations@[i] as int] == i);
            assert(order@[destinations@[j] as int] == j);
        }
    }
    for index in 0..n
        invariant
            n == keys.len() == destinations.len(),
            all == keys.deep_view(),
            all.len() == n,
            sorted.len() == n,
            current.len() == n,
            current == apply_swaps(all, swaps@, swaps.len() as int),
            swaps_within(swaps@, n as int),
            forall|j: int|
                0 <= j < n ==> (#[trigger] destinations@[j]) < n && current[j]
                    == sorted[destinations@[j] as int],
            forall|i: int, j: int|
                0 <= i < n && 0 <= j < n && i != j ==> (#[trigger] destinations@[i]) != (
                #[trigger] destinations@[j]),
            forall|j: int| 0 <= j < index ==> #[trigger] destinations@[j] == j,
    {
        while destinations[index] != index
            invariant
                index < n,
                n == keys.len() == destinations.len(),
                all == keys.deep_view(),
                all.len() == n,
                sorted.len() == n,
                current.len() == n,
                current == apply_swaps(all, swaps@, swaps.len() as int),
                swaps_within(swaps@, n as int),
                forall|j: int|
                    0 <= j < n ==> (#[trigger] destinations@[j]) < n && current[j]
                        == sorted[destinations@[j] as int],
                forall|i: int, j: int|
                    0 <= i < n && 0 <= j < n && i != j ==> (#[trigger] destinations@[i]) != (
                    #[trigger] destinations@[j]),
                forall|j: int| 0 <= j < index ==> #[trigger] destinations@[j] == j,
            decreases unplaced(destinations@, n as int),
        {
            let destination: usize = destinations[index];
            let next: usize = destinations[destination];
            let ghost before = destinations@;
            let ghost held = current;
            let ghost old_swaps = swaps@;
            proof {
                assert(before[index as int] != before[destination as int]);
                assert forall|j: int| 0 <= j < index implies #[trigger] before[j]
                    != destination by {
                    assert(before[j] != before[index as int]);
                }
                lemma_unplaced_update(before, index as int, next, n as int);
                lemma_unplaced_update(
                    before.update(index as int, next),
                    destination as int,
                    destination,
                    n as int,
                );
            }
            swaps.push((index, destination));
            destinations.set(index, next);
            destinations.set(destination, destination);
            proof {
                current = swapped(held, index as int, destination as int);
                assert(swaps@ == old_swaps.push((index, destination)));
                lemma_swaps_prefix(all, old_swaps, swaps@, old_swaps.len() as int);
                assert forall|i: int| 0 <= i < swaps@.len() implies (#[trigger] swaps@[i]).0 < n
                    && swaps@[i].1 < n by {
                    if i < old_swaps.len() {
                        assert(swaps@[i] == old_swaps[i]);
                    }
                }
                let after = destinations@;
                assert forall|j: int| 0 <= j < n implies (#[trigger] after[j]) < n && current[j]
                    == sorted[after[j] as int] by {
                    assert(before[j] < n && held[j] == sorted[before[j] as int]);
                    assert(before[index as int] < n && held[index as int]
                        == sorted[before[index as int] as int]);
                    assert(before[destination as int] < n && held[destination as int]
                        == sorted[before[destination as int] as int]);
                }
                assert forall|i: int, j: int| 0 <= i < n && 0 <= j < n && i != j implies (
                #[trigger] after[i]) != (#[trigger] after[j]) by {
                    assert(before[i] != before[j]);
                    assert(i != index ==> before[i] != before[index as int]);
                    assert(j != index ==> before[j] != before[index as int]);
                    assert(i != destination ==> before[i] != before[destination as int]);
                    assert(j != destination ==> before[j] != before[destination as int]);
                }
                assert forall|j: int| 0 <= j < index implies #[trigger] after[j] == j by {
                    assert(before[j] == j);
                }
            }
        }
    }
    proof {
        assert forall|i: int, j: int| 0 <= i < j < current.len() implies !model::key_before(
            #[trigger] current[j],
            #[trigger] current[i],
        ) by {
            assert(destinations@[i] == i && destinations@[j] == j);
            assert(current[i] == all[order@[i] as int]);
            assert(current[j] == all[order@[j] as int]);
        }
    }
    swaps
}

proof fn lemma_swaps_prefix<A>(
    s: Seq<A>,
    a: Seq<(usize, usize)>,
    b: Seq<(usize, usize)>,
    n: int,
)
    requires
        0 <= n <= a.len(),
        n <= b.len(),
        forall|i: int| 0 <= i < n ==> a[i] == b[i],
    ensures
        apply_swaps(s, a, n) == apply_swaps(s, b, n),
    decreases n,
{
    if n > 0 {
        lemma_swaps_prefix(s, a, b, n - 1);
    }
}

/// Exchanges two readings.
fn swap_readings(readings: &mut Vec<SampleReading>, a: usize, b: usize)
    requires
        a < old(readings).len(),
        b < old(readings).len(),
    ensures
        final(readings).deep_view() == swapped(old(readings).deep_view(), a as int, b as int),
{
    let ghost before = readings.deep_view();
    if a == b {
        assert(before =~= swapped(before, a as int, b as int));
        return;
    }
    let mut spare = SampleReading::unavailable(
        String::new(),
        MetricLabels::none(),
        UnavailableReason::Missing,
    );
    std::mem::swap(&mut spare, &mut readings[a]);
    std::mem::swap(&mut spare, &mut readings[b]);
    std::mem::swap(&mut spare, &mut readings[a]);
    assert(readings.deep_view() =~= swapped(before, a as int, b as int));
}

/// The canonical order of the readings that were seen last. While a provider keeps
/// its identities, putting new readings in order takes no comparisons but the one
/// with the remembered identities.
#[derive(Clone, Debug, PartialEq, Eq)]
pub struct CanonicalReadingOrder {
    pub identities: Vec<SeriesKey>,
    pub swaps: Vec<(usize, usize)>,
}

impl CanonicalReadingOrder {
    /// The remembered exchanges put the remembered identities into canonical order.
    pub open spec fn wf(&self) -> bool {
        &&& swaps_within(self.swaps@, self.identities.len() as int)
        &&& keys_sorted(
            apply_swaps(self.identities.deep_view(), self.swaps@, self.swaps.len() as int),
        )
    }

    pub fn new() -> (order: CanonicalReadingOrder)
        ensures
            order.wf(),
            order.identities.len() == 0,
    {
        CanonicalReadingOrder { identities: Vec::new(), swaps: Vec::new() }
    }

    /// Whether the readings have the remembered identities, in the same order.
    fn remembers(&self, readings: &Vec<SampleReading>) -> (same: bool)
        ensures
            same == (self.identities.deep_view() == keys_of(readings.deep_view())),
    {
        let ghost a = self.identities.deep_view();
        let ghost b = keys_of(readings.deep_view());
        assert(a.len() == self.identities.len() && b.len() == readings.len());
        if self.identities.len() != readings.len() {
            return false;
        }
        let mut i: usize = 0;
        while i < readings.len()
            invariant
                i <= readings.len() == self.identities.len(),
                a == self.identities.deep_view(),
                b == keys_of(readings.deep_view()),
                forall|j: int| 0 <= j < i ==> a[j] == b[j],
            decreases readings.len() - i,
        {
            assert(a[i as int] == self.identities@[i as int].deep_view());
            assert(b[i as int] == readings@[i as int].deep_view().key);
            if !self.identities[i].is_of(&readings[i]) {
                return false;
            }
            i += 1;
        }
        assert(a =~= b);
        true
    }

    /// Puts readings into canonical order. More readings than a provider may have
    /// are left as they are, and nothing is remembered of them.
    pub fn reorder(&mut self, readings: &mut Vec<SampleReading>)
        requires
            old(self).wf(),
        ensures
            final(self).wf(),
            old(readings).len() > MAX_READINGS_PER_PROVIDER ==> final(readings).deep_view() == old(
                readings,
            ).deep_view() && final(self).identities.len() == 0,
            old(readings).len() <= MAX_READINGS_PER_PROVIDER ==> {
                &&& model::readings_sorted(final(readings).deep_view())
                &&& final(readings).deep_view().to_multiset() == old(readings).deep_view().to_multiset()
                &&& !model::has_duplicate(old(readings).deep_view()) ==> final(readings).deep_view()
                    == model::in_canonical_order(old(readings).deep_view())
                &&& final(self).identities.deep_view() == keys_of(old(readings).deep_view())
            },
    {
        if readings.len() > MAX_READINGS_PER_PROVIDER {
            self.identities = Vec::new();
            self.swaps = Vec::new();
            return;
        }
        let ghost given = readings.deep_view();
        if !self.remembers(readings) {
            let mut identities: Vec<SeriesKey> = Vec::new();
            for i in 0..readings.len()
                invariant
                    readings.deep_view() == given,
                    identities.deep_view() == keys_of(given).take(i as int),
            {
                let ghost before = identities;
                identities.push(SeriesKey::of(&readings[i]));
                proof {
                    seqs::lemma_deep_push(before, identities);
                    seqs::lemma_take_push(keys_of(given), i as int);
                    assert(given[i as int] == readings@[i as int].deep_view());
                }
            }
            proof {
                seqs::lemma_take_all(keys_of(given));
            }
            let swaps = sorting_swaps(&identities);
            self.identities = identities;
            self.swaps = swaps;
        }
        let count: usize = self.swaps.len();
        for k in 0..count
            invariant
                count == self.swaps.len(),
                swaps_within(self.swaps@, given.len() as int),
                readings.len() == given.len(),
                readings.deep_view() == apply_swaps(given, self.swaps@, k as int),
        {
            let pair: (usize, usize) = self.swaps[k];
            assert(self.swaps@[k as int].0 < given.len() && self.swaps@[k as int].1 < given.len());
            swap_readings(readings, pair.0, pair.1);
            proof {
                assert(readings.deep_view().len() == readings.len());
                lemma_swaps_length(given, self.swaps@, k as int);
            }
        }
        proof {
            let after = readings.deep_view();
            lemma_swaps_commute(given, self.swaps@, count as int);
            lemma_swaps_keep_elements(given, self.swaps@, count as int);
            assert forall|i: int, j: int| 0 <= i < j < after.len() implies !model::key_before(
                (#[trigger] after[j]).key,
                (#[trigger] after[i]).key,
            ) by {
                assert(keys_of(after)[i] == after[i].key && keys_of(after)[j] == after[j].key);
            }
            if !model::has_duplicate(given) {
                lemma_no_duplicate(given, after);
                let canonical = model::in_canonical_order(given);
                assert(model::readings_sorted(after) && after.to_multiset()
                    == given.to_multiset());
                model::canonical_order_is_unique(after, canonical);
            }
        }
    }
}

proof fn lemma_no_duplicate(a: Seq<ReadingModel>, b: Seq<ReadingModel>)
    requires
        a.to_multiset() == b.to_multiset(),
        !model::has_duplicate(a),
    ensures
        !model::has_duplicate(b),
{
    broadcast use vstd::seq_lib::group_to_multiset_ensures;

    if model::has_duplicate(b) {
        let (i, j) = choose|i: int, j: int|
            0 <= i < j < b.len() && (#[trigger] b[i]).key == (#[trigger] b[j]).key;
        assert(b.contains(b[i]) && b.contains(b[j]));
        assert(a.to_multiset().count(b[i]) > 0 && a.to_multiset().count(b[j]) > 0);
        assert(a.contains(b[i]) && a.contains(b[j]));
        if b[i] != b[j] {
            let k = choose|k: int| 0 <= k < a.len() && a[k] == b[i];
            let l = choose|l: int| 0 <= l < a.len() && a[l] == b[j];
            if k < l {
                assert(a[k].key == a[l].key);
            } else {
                assert(a[l].key == a[k].key);
            }
        } else {
            let r = b[i];
            let rest = b.remove(j);
            vstd::seq_lib::to_multiset_remove(b, j);
            assert(rest[i] == r);
            assert(rest.contains(r));
            assert(rest.to_multiset().count(r) > 0);
            let k = choose|k: int| 0 <= k < a.len() && a[k] == r;
            let other = a.remove(k);
            vstd::seq_lib::to_multiset_remove(a, k);
            assert(other.to_multiset().count(r) >= 1);
            assert(other.contains(r));
            let l = choose|l: int| 0 <= l < other.len() && other[l] == r;
            if l < k {
                assert(a[l].key == a[k].key);
            } else {
                assert(a[k].key == a[l + 1].key);
            }
        }
    }
}

} // verus!
