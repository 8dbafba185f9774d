//! Rows in order: each kind of row has a list of numbers that it is ordered by.
use crate::seqs;
use vstd::prelude::*;

verus! {

/// The numbers of a list, as contracts speak of them.
pub open spec fn ints(values: Seq<u128>) -> Seq<int> {
    Seq::new(values.len(), |i: int| values[i] as int)
}

/// A row that is ordered by a list of numbers, the first one that differs counts.
pub trait Ordered: DeepView + Sized {
    spec fn key(row: Self::V) -> Seq<int>;

    proof fn keys_have_one_length(a: Self::V, b: Self::V)
        ensures
            Self::key(a).len() == Self::key(b).len(),
    ;

    fn sort_key(&self) -> (key: Vec<u128>)
        ensures
            ints(key@) == Self::key(self.deep_view()),
    ;

    fn copied(&self) -> (row: Self)
        ensures
            row.deep_view() == self.deep_view(),
    ;
}

/// Which of two rows comes first.
pub open spec fn key_order<T: Ordered>() -> spec_fn(T::V, T::V) -> bool {
    |a: T::V, b: T::V| seqs::lex_before(T::key(a), T::key(b), 0)
}

pub proof fn lemma_key_order<T: Ordered>()
    ensures
        seqs::is_order(key_order::<T>()),
{
    let order = key_order::<T>();
    assert forall|a: T::V, b: T::V| #[trigger] order(a, b) implies !order(b, a) by {
        T::keys_have_one_length(a, b);
        seqs::lemma_lex_orders(T::key(a), T::key(b), T::key(a), 0);
    }
    assert forall|a: T::V, b: T::V, c: T::V|
        !#[trigger] order(b, a) && !#[trigger] order(c, b) implies !order(c, a) by {
        T::keys_have_one_length(a, b);
        T::keys_have_one_length(b, c);
        seqs::lemma_lex_orders(T::key(a), T::key(b), T::key(c), 0);
    }
}

/// All rows in order; rows of which none comes first stay as they were.
pub open spec fn in_order<T: Ordered>(rows: Seq<T::V>) -> Seq<T::V> {
    seqs::ordered_upto(rows, key_order::<T>(), rows.len() as int)
}

/// The first rows in order, at most `limit`.
pub open spec fn first_in_order<T: Ordered>(rows: Seq<T::V>, limit: int) -> Seq<T::V> {
    if rows.len() > limit {
        in_order::<T>(rows).take(limit)
    } else {
        in_order::<T>(rows)
    }
}

pub(crate) fn numbers_come_first(a: &Vec<u128>, b: &Vec<u128>) -> (first: bool)
    requires
        a@.len() == b@.len(),
    ensures
        first == seqs::lex_before(ints(a@), ints(b@), 0),
{
    let mut i: usize = 0;
    while i < a.len()
        invariant
            i <= a@.len(),
            a@.len() == b@.len(),
            seqs::lex_before(ints(a@), ints(b@), 0) == seqs::lex_before(
                ints(a@),
                ints(b@),
                i as int,
            ),
        decreases a@.len() - i,
    {
        assert(ints(a@)[i as int] == a@[i as int] && ints(b@)[i as int] == b@[i as int]);
        if a[i] != b[i] {
            return a[i] < b[i];
        }
        i += 1;
    }
    false
}

/// The rows at positions.
spec fn picked<M>(all: Seq<M>, positions: Seq<usize>) -> Seq<M> {
    Seq::new(positions.len(), |i: int| all[positions[i] as int])
}

fn positions_in_order<T: Ordered>(rows: &Vec<T>) -> (positions: Vec<usize>)
    ensures
        positions@.len() == rows@.len(),
        forall|i: int| 0 <= i < positions@.len() ==> (#[trigger] positions@[i]) < rows@.len(),
        picked(rows.deep_view(), positions@) == in_order::<T>(rows.deep_view()),
{
    let ghost all = rows.deep_view();
    let ghost order = key_order::<T>();
    assert(all.len() == rows@.len());
    let mut keys: Vec<Vec<u128>> = Vec::new();
    for k in 0..rows.len()
        invariant
            all == rows.deep_view(),
            all.len() == rows@.len(),
            keys@.len() == k,
            forall|i: int| 0 <= i < k ==> ints((#[trigger] keys@[i])@) == T::key(all[i]),
    {
        assert(all[k as int] == rows@[k as int].deep_view());
        keys.push(rows[k].sort_key());
    }
    let mut positions: Vec<usize> = Vec::new();
    proof {
        lemma_key_order::<T>();
        assert(picked(all, positions@) =~= Seq::<T::V>::empty());
    }
    for k in 0..rows.len()
        invariant
            all.len() == rows@.len(),
            order == key_order::<T>(),
            seqs::is_order(order),
            keys@.len() == all.len(),
            forall|i: int| 0 <= i < all.len() ==> ints((#[trigger] keys@[i])@) == T::key(all[i]),
            positions@.len() == k,
            forall|i: int| 0 <= i < k ==> (#[trigger] positions@[i]) < k,
            picked(all, positions@) == seqs::ordered_upto(all, order, k as int),
    {
        let ghost sorted = picked(all, positions@);
        let ghost before = positions@;
        let ghost new = all[k as int];
        proof {
            seqs::ordering_sorts(all, order, k as int);
        }
        let mut low: usize = 0;
        let mut high: usize = positions.len();
        while low < high
            invariant
                low <= high <= positions@.len(),
                positions@ == before,
                k < all.len(),
                order == key_order::<T>(),
                new == all[k as int],
                keys@.len() == all.len(),
                forall|i: int|
                    0 <= i < all.len() ==> ints((#[trigger] keys@[i])@) == T::key(all[i]),
                forall|i: int| 0 <= i < positions@.len() ==> (#[trigger] positions@[i]) < k,
                sorted == picked(all, positions@),
                high == positions@.len() || order(new, sorted[high as int]),
                low == 0 || !order(new, sorted[low - 1]),
            decreases high - low,
        {
            let middle: usize = low + (high - low) / 2;
            let position: usize = positions[middle];
            proof {
                assert(sorted[middle as int] == all[position as int]);
                assert(ints(keys@[k as int]@) == T::key(new));
                assert(ints(keys@[position as int]@) == T::key(all[position as int]));
                T::keys_have_one_length(new, all[position as int]);
                assert(ints(keys@[k as int]@).len() == keys@[k as int]@.len());
                assert(ints(keys@[position as int]@).len() == keys@[position as int]@.len());
            }
            if numbers_come_first(&keys[k], &keys[position]) {
                high = middle;
            } else {
                low = middle + 1;
            }
        }
        proof {
            seqs::lemma_place_found(sorted, order, new, sorted.len() as int, low as int);
        }
        positions.insert(low, k);
        proof {
            let after = positions@;
            assert(after == before.insert(low as int, k));
            assert forall|i: int| 0 <= i < after.len() implies (#[trigger] after[i]) < k + 1 by {
                if i < low {
                    assert(after[i] == before[i]);
                } else if i > low {
                    assert(after[i] == before[i - 1]);
                }
            }
            assert(picked(all, after) =~= sorted.insert(low as int, new));
        }
    }
    positions
}

/// The first rows in order, at most `limit`.
pub fn first_rows<T: Ordered>(rows: &Vec<T>, limit: usize) -> (first: Vec<T>)
    ensures
        first.deep_view() == first_in_order::<T>(rows.deep_view(), limit as int),
{
    let ghost all = rows.deep_view();
    assert(all.len() == rows@.len());
    let positions = positions_in_order(rows);
    let count: usize = if rows.len() > limit {
        limit
    } else {
        rows.len()
    };
    let ghost target = first_in_order::<T>(all, limit as int);
    proof {
        lemma_key_order::<T>();
        seqs::ordering_sorts(all, key_order::<T>(), all.len() as int);
    }
    let mut first: Vec<T> = Vec::new();
    for i in 0..count
        invariant
            all == rows.deep_view(),
            all.len() == rows@.len(),
            count <= positions@.len(),
            positions@.len() == all.len(),
            target.len() == count,
            forall|j: int| 0 <= j < count ==> #[trigger] target[j] == picked(all, positions@)[j],
            forall|j: int| 0 <= j < positions@.len() ==> (#[trigger] positions@[j]) < all.len(),
            first@.len() == i,
            forall|j: int| 0 <= j < i ==> (#[trigger] first@[j]).deep_view() == target[j],
    {
        let position: usize = positions[i];
        assert(target[i as int] == all[position as int]);
        assert(all[position as int] == rows@[position as int].deep_view());
        first.push(rows[position].copied());
    }
    assert(first.deep_view() =~= target);
    first
}

/// The first rows in order are in order, none that is left out comes before one of
/// them, and they are among the rows.
pub proof fn first_rows_come_first<T: Ordered>(rows: Seq<T::V>, limit: int)
    requires
        0 <= limit,
    ensures
        seqs::sorted(first_in_order::<T>(rows, limit), key_order::<T>()),
        first_in_order::<T>(rows, limit).len() == if rows.len() > limit {
            limit as nat
        } else {
            rows.len()
        },
        rows.len() <= limit ==> first_in_order::<T>(rows, limit).to_multiset()
            == rows.to_multiset(),
        exists|rest: Seq<T::V>|
            {
                &&& #[trigger] (first_in_order::<T>(rows, limit) + rest).to_multiset()
                    == rows.to_multiset()
                &&& forall|i: int, j: int|
                    0 <= i < first_in_order::<T>(rows, limit).len() && 0 <= j < rest.len()
                        ==> !key_order::<T>()(
                        #[trigger] rest[j],
                        #[trigger] first_in_order::<T>(rows, limit)[i],
                    )
            },
{
    lemma_key_order::<T>();
    let order = key_order::<T>();
    let ordered = in_order::<T>(rows);
    seqs::ordering_sorts(rows, order, rows.len() as int);
    seqs::lemma_take_all(rows);
    let shown = first_in_order::<T>(rows, limit);
    let rest = ordered.skip(shown.len() as int);
    assert(shown + rest =~= ordered);
    assert forall|i: int, j: int| 0 <= i < shown.len() && 0 <= j < rest.len() implies !order(
        #[trigger] rest[j],
        #[trigger] shown[i],
    ) by {
        assert(rest[j] == ordered[shown.len() + j]);
        assert(shown[i] == ordered[i]);
    }
    assert((shown + rest).to_multiset() == rows.to_multiset());
}

} // verus!
