//! Facts about sequences and the models of vectors.
use vstd::prelude::*;

verus! {

/// The model of a vector that one element was pushed to.
pub proof fn lemma_deep_push<T: DeepView>(before: Vec<T>, after: Vec<T>)
    requires
        after@.len() == before@.len() + 1,
        after@ == before@.push(after@.last()),
    ensures
        after.deep_view() == before.deep_view().push(after@.last().deep_view()),
{
    assert(after.deep_view() =~= before.deep_view().push(after@.last().deep_view()));
}

/// A prefix with the next element is the next prefix.
pub proof fn lemma_take_push<A>(s: Seq<A>, i: int)
    requires
        0 <= i < s.len(),
    ensures
        s.take(i).push(s[i]) == s.take(i + 1),
        s.take(i + 1).drop_last() == s.take(i),
        s.take(i + 1).last() == s[i],
        s.take(i + 1).len() == i + 1,
{
    assert(s.take(i).push(s[i]) =~= s.take(i + 1));
    assert(s.take(i + 1).drop_last() =~= s.take(i));
}

/// The prefix of full length is the sequence.
pub proof fn lemma_take_all<A>(s: Seq<A>)
    ensures
        s.take(s.len() as int) == s,
        s.take(0) == Seq::<A>::empty(),
{
    assert(s.take(s.len() as int) =~= s);
    assert(s.take(0) =~= Seq::<A>::empty());
}

/// The position of the first of the first `n` elements that satisfies `p`.
pub open spec fn first_where<A>(s: Seq<A>, p: spec_fn(A) -> bool, n: int) -> Option<int>
    decreases n,
{
    if n <= 0 {
        None
    } else {
        match first_where(s, p, n - 1) {
            Some(i) => Some(i),
            None => if p(s[n - 1]) {
                Some(n - 1)
            } else {
                None
            },
        }
    }
}

/// How many of the first `n` elements satisfy `p`.
pub open spec fn count_where<A>(s: Seq<A>, p: spec_fn(A) -> bool, n: int) -> nat
    decreases n,
{
    if n <= 0 {
        0
    } else if p(s[n - 1]) {
        count_where(s, p, n - 1) + 1
    } else {
        count_where(s, p, n - 1)
    }
}

/// No more elements satisfy `p` than there are, and none does exactly if there is no
/// first one.
pub proof fn lemma_count_where<A>(s: Seq<A>, p: spec_fn(A) -> bool, n: int)
    requires
        0 <= n,
    ensures
        count_where(s, p, n) <= n,
        count_where(s, p, n) == 0 <==> first_where(s, p, n) is None,
    decreases n,
{
    if n > 0 {
        lemma_count_where(s, p, n - 1);
    }
}

/// What the first match is: it satisfies `p` and nothing before it does.
pub proof fn lemma_first_where<A>(s: Seq<A>, p: spec_fn(A) -> bool, n: int)
    requires
        0 <= n <= s.len(),
    ensures
        match first_where(s, p, n) {
            Some(i) => 0 <= i < n && p(s[i]) && forall|j: int| 0 <= j < i ==> !p(#[trigger] s[j]),
            None => forall|j: int| 0 <= j < n ==> !p(#[trigger] s[j]),
        },
    decreases n,
{
    if n > 0 {
        lemma_first_where(s, p, n - 1);
    }
}

/// A first match stays the first match when more elements are looked at.
pub proof fn lemma_first_where_stays<A>(s: Seq<A>, p: spec_fn(A) -> bool, m: int, n: int)
    requires
        0 <= m <= n <= s.len(),
        first_where(s, p, m) is Some,
    ensures
        first_where(s, p, n) == first_where(s, p, m),
    decreases n,
{
    if m < n {
        lemma_first_where_stays(s, p, m, n - 1);
    }
}

/// Equal elements stay equal elements when a function is applied to each.
pub proof fn lemma_map_keeps_multisets<A, B>(a: Seq<A>, b: Seq<A>, f: spec_fn(A) -> B)
    requires
        a.to_multiset() == b.to_multiset(),
    ensures
        a.map_values(f).to_multiset() == b.map_values(f).to_multiset(),
    decreases a.len(),
{
    broadcast use vstd::seq_lib::group_to_multiset_ensures;

    assert(a.len() == a.to_multiset().len() && b.len() == b.to_multiset().len());
    if a.len() == 0 {
        assert(a.map_values(f) =~= b.map_values(f));
    } else {
        let x = a.last();
        let c = a.drop_last();
        assert(a =~= c.push(x));
        vstd::seq_lib::to_multiset_build(c, x);
        assert(a.contains(x));
        assert(b.to_multiset().count(x) > 0);
        assert(b.contains(x));
        let k = choose|k: int| 0 <= k < b.len() && b[k] == x;
        let d = b.remove(k);
        vstd::seq_lib::to_multiset_remove(b, k);
        assert(c.to_multiset() =~= a.to_multiset().remove(x));
        assert(d.to_multiset() =~= c.to_multiset());
        lemma_map_keeps_multisets(c, d, f);
        assert(a.map_values(f) =~= c.map_values(f).push(f(x)));
        vstd::seq_lib::to_multiset_build(c.map_values(f), f(x));
        assert(d.map_values(f) =~= b.map_values(f).remove(k));
        vstd::seq_lib::to_multiset_remove(b.map_values(f), k);
        assert(b.map_values(f).contains(b.map_values(f)[k]));
        assert(b.map_values(f).to_multiset() =~= d.map_values(f).to_multiset().insert(f(x)));
    }
}

/// Where an element goes among the first `n` elements: behind all that it does not
/// have to come before.
pub open spec fn place_of<A>(s: Seq<A>, before: spec_fn(A, A) -> bool, x: A, n: int) -> int
    decreases n,
{
    if n <= 0 || !before(x, s[n - 1]) {
        n
    } else {
        place_of(s, before, x, n - 1)
    }
}

/// The first `n` elements in order; those of which none has to come first stay in
/// the order they had.
pub open spec fn ordered_upto<A>(s: Seq<A>, before: spec_fn(A, A) -> bool, n: int) -> Seq<A>
    decreases n,
{
    if n <= 0 {
        Seq::empty()
    } else {
        let rest = ordered_upto(s, before, n - 1);
        rest.insert(place_of(rest, before, s[n - 1], rest.len() as int), s[n - 1])
    }
}

/// A place is among the elements.
pub proof fn lemma_place_of<A>(s: Seq<A>, before: spec_fn(A, A) -> bool, x: A, n: int)
    requires
        0 <= n,
    ensures
        0 <= place_of(s, before, x, n) <= n,
    decreases n,
{
    if n > 0 {
        lemma_place_of(s, before, x, n - 1);
    }
}

/// Whether `before` orders elements, up to those of which none comes first.
pub open spec fn is_order<A>(before: spec_fn(A, A) -> bool) -> bool {
    &&& forall|a: A, b: A| #[trigger] before(a, b) ==> !before(b, a)
    &&& forall|a: A, b: A, c: A|
        !#[trigger] before(b, a) && !#[trigger] before(c, b) ==> !before(c, a)
}

/// Whether no element comes before an earlier one.
pub open spec fn sorted<A>(s: Seq<A>, before: spec_fn(A, A) -> bool) -> bool {
    forall|i: int, j: int| 0 <= i < j < s.len() ==> !before(#[trigger] s[j], #[trigger] s[i])
}

/// Among elements in order, a place is where the element first has to come before.
pub proof fn lemma_place_found<A>(s: Seq<A>, before: spec_fn(A, A) -> bool, x: A, n: int, p: int)
    requires
        is_order(before),
        sorted(s, before),
        0 <= p <= n <= s.len(),
        p == n || before(x, s[p]),
        p == 0 || !before(x, s[p - 1]),
    ensures
        place_of(s, before, x, n) == p,
    decreases n,
{
    if p < n {
        let last = s[n - 1];
        if !before(x, last) {
            assert(p < n - 1);
            assert(!before(s[n - 1], s[p]));
            assert(!before(x, s[p]));
        }
        lemma_place_found(s, before, x, n - 1, p);
    }
}

/// What `ordered_upto` gives is in order and holds the same elements.
pub proof fn ordering_sorts<A>(s: Seq<A>, before: spec_fn(A, A) -> bool, n: int)
    requires
        is_order(before),
        0 <= n <= s.len(),
    ensures
        sorted(ordered_upto(s, before, n), before),
        ordered_upto(s, before, n).len() == n,
        ordered_upto(s, before, n).to_multiset() == s.take(n).to_multiset(),
    decreases n,
{
    broadcast use vstd::seq_lib::group_to_multiset_ensures;

    if n > 0 {
        ordering_sorts(s, before, n - 1);
        let rest = ordered_upto(s, before, n - 1);
        let x = s[n - 1];
        let at = place_of(rest, before, x, rest.len() as int);
        lemma_place_of(rest, before, x, rest.len() as int);
        lemma_place_splits(rest, before, x, rest.len() as int);
        let all = rest.insert(at, x);
        assert forall|i: int, j: int| 0 <= i < j < all.len() implies !before(
            #[trigger] all[j],
            #[trigger] all[i],
        ) by {
            let a: int = if i < at { i } else { i - 1 };
            let b: int = if j < at { j } else { j - 1 };
            if i == at {
                assert(before(x, rest[b]));
            } else if j == at {
                assert(!before(x, rest[a]));
            } else {
                assert(!before(rest[b], rest[a]));
            }
        }
        lemma_take_push(s, n - 1);
        vstd::seq_lib::to_multiset_insert(rest, at, x);
        vstd::seq_lib::to_multiset_build(s.take(n - 1), x);
    } else {
        assert(s.take(0) =~= Seq::<A>::empty());
    }
}

/// An element does not come before those in front of its place, and before those behind.
pub proof fn lemma_place_splits<A>(s: Seq<A>, before: spec_fn(A, A) -> bool, x: A, n: int)
    requires
        is_order(before),
        sorted(s, before),
        0 <= n <= s.len(),
    ensures
        forall|i: int| 0 <= i < place_of(s, before, x, n) ==> !before(x, #[trigger] s[i]),
        forall|i: int| place_of(s, before, x, n) <= i < n ==> before(x, #[trigger] s[i]),
    decreases n,
{
    if n > 0 {
        if before(x, s[n - 1]) {
            lemma_place_splits(s, before, x, n - 1);
        } else {
            assert forall|i: int| 0 <= i < n implies !before(x, #[trigger] s[i]) by {
                if i < n - 1 {
                    assert(!before(s[n - 1], s[i]));
                }
            }
        }
    }
}

/// Two lists in strict order that hold the same elements are equal.
pub proof fn lemma_strict_order_is_unique<A>(a: Seq<A>, b: Seq<A>, before: spec_fn(A, A) -> bool)
    requires
        forall|x: A, y: A| #[trigger] before(x, y) ==> !before(y, x),
        forall|i: int, j: int| 0 <= i < j < a.len() ==> before(#[trigger] a[i], #[trigger] a[j]),
        forall|i: int, j: int| 0 <= i < j < b.len() ==> before(#[trigger] b[i], #[trigger] b[j]),
        forall|x: A| #[trigger] a.contains(x) <==> b.contains(x),
    ensures
        a == b,
    decreases a.len(),
{
    if a.len() == 0 {
        if b.len() > 0 {
            assert(b.contains(b[0]));
            assert(a.contains(b[0]));
        }
        assert(a =~= b);
    } else {
        let x = a.last();
        assert(a.contains(x));
        assert(b.contains(x));
        let y = b.last();
        assert(b.contains(y));
        assert(a.contains(y));
        let i = choose|i: int| 0 <= i < a.len() && a[i] == y;
        let k = choose|k: int| 0 <= k < b.len() && b[k] == x;
        if x != y {
            assert(before(a[i], a[a.len() - 1]));
            assert(before(b[k], b[b.len() - 1]));
        }
        let c = a.drop_last();
        let d = b.drop_last();
        assert forall|z: A| #[trigger] c.contains(z) <==> d.contains(z) by {
            if c.contains(z) {
                let p = choose|p: int| 0 <= p < c.len() && c[p] == z;
                assert(a[p] == z && before(a[p], a[a.len() - 1]));
                assert(a.contains(z));
                let q = choose|q: int| 0 <= q < b.len() && b[q] == z;
                assert(q < d.len());
                assert(d[q] == z);
            }
            if d.contains(z) {
                let q = choose|q: int| 0 <= q < d.len() && d[q] == z;
                assert(b[q] == z && before(b[q], b[b.len() - 1]));
                assert(b.contains(z));
                assert(a.contains(z));
                let p = choose|p: int| 0 <= p < a.len() && a[p] == z;
                assert(p < c.len());
                assert(c[p] == z);
            }
        }
        assert forall|p: int, q: int| 0 <= p < q < c.len() implies before(
            #[trigger] c[p],
            #[trigger] c[q],
        ) by {
            assert(c[p] == a[p] && c[q] == a[q]);
        }
        assert forall|p: int, q: int| 0 <= p < q < d.len() implies before(
            #[trigger] d[p],
            #[trigger] d[q],
        ) by {
            assert(d[p] == b[p] && d[q] == b[q]);
        }
        lemma_strict_order_is_unique(c, d, before);
        assert(a =~= c.push(x) && b =~= d.push(x));
    }
}

/// Whether one list of numbers comes before another one of the same length, by the
/// first place from `i` on where they differ.
pub open spec fn lex_before(a: Seq<int>, b: Seq<int>, i: int) -> bool
    decreases a.len() - i,
{
    if i < 0 || i >= a.len() {
        false
    } else if a[i] != b[i] {
        a[i] < b[i]
    } else {
        lex_before(a, b, i + 1)
    }
}

/// Lists of one length are ordered that way.
pub proof fn lemma_lex_orders(a: Seq<int>, b: Seq<int>, c: Seq<int>, i: int)
    requires
        a.len() == b.len() == c.len(),
        0 <= i,
    ensures
        lex_before(a, b, i) ==> !lex_before(b, a, i),
        !lex_before(b, a, i) && !lex_before(c, b, i) ==> !lex_before(c, a, i),
    decreases a.len() - i,
{
    if i < a.len() {
        lemma_lex_orders(a, b, c, i + 1);
    }
}

} // verus!
