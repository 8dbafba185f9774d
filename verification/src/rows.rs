//! Numbers for rows that have no number of their own. A row that was seen keeps its
//! number for the whole session.
use crate::seqs;
use vstd::prelude::*;

verus! {

/// What makes a row the same row in the next collection.
pub trait RowIdentity: DeepView + Sized {
    fn same(&self, other: &Self) -> (same: bool)
        ensures
            same == (self.deep_view() == other.deep_view()),
    ;
}

/// The rows that were numbered, in the order of their numbers, which start at one.
#[derive(Clone, Debug, PartialEq, Eq)]
pub struct RowIds<I> {
    pub known: Vec<I>,
}

pub open spec fn is_row<M>(identity: M) -> spec_fn(M) -> bool {
    |known: M| known == identity
}

/// The rows after a row was numbered, and its number. There is none for a new row
/// once `limit` rows were numbered.
pub open spec fn numbered<M>(known: Seq<M>, identity: M, limit: nat) -> (Seq<M>, Option<nat>) {
    match seqs::first_where(known, is_row(identity), known.len() as int) {
        Some(i) => (known, Some((i + 1) as nat)),
        None => if known.len() < limit {
            (known.push(identity), Some(known.len() + 1))
        } else {
            (known, None)
        },
    }
}

/// No row was numbered twice, and not more than `limit` rows were numbered.
pub open spec fn rows_valid<M>(known: Seq<M>, limit: nat) -> bool {
    known.no_duplicates() && known.len() <= limit
}

/// Rows in `after` that were numbered in `before` have the number that they had.
pub open spec fn keeps_rows<M>(before: Seq<M>, after: Seq<M>) -> bool {
    before.len() <= after.len() && forall|i: int|
        0 <= i < before.len() ==> #[trigger] after[i] == before[i]
}

/// A row keeps its number, and no other row gets it: numbering a row leaves the
/// numbers of all other rows as they are, a row that was numbered gets the same
/// number again, and two rows never have one number.
pub proof fn numbers_are_stable_and_distinct<M>(known: Seq<M>, a: M, b: M, limit: nat)
    requires
        rows_valid(known, limit),
    ensures
        rows_valid(numbered(known, a, limit).0, limit),
        keeps_rows(known, numbered(known, a, limit).0),
        numbered(known, a, limit).1 matches Some(n) ==> {
            &&& 1 <= n <= limit
            &&& numbered(known, a, limit).0[n - 1] == a
            &&& numbered(numbered(known, a, limit).0, a, limit) == (
                numbered(known, a, limit).0,
                Some(n),
            )
            &&& numbered(numbered(known, a, limit).0, b, limit).1 == Some(n) ==> a == b
        },
{
    let n = known.len() as int;
    seqs::lemma_first_where(known, is_row(a), n);
    let after = numbered(known, a, limit).0;
    seqs::lemma_first_where(after, is_row(a), after.len() as int);
    seqs::lemma_first_where(after, is_row(b), after.len() as int);
    if seqs::first_where(known, is_row(a), n) is None {
        assert forall|i: int| 0 <= i < known.len() implies known[i] != a by {
            assert(!is_row(a)(known[i]));
        }
        if known.len() < limit {
            assert(is_row(a)(after[n]));
            assert(after.no_duplicates());
        }
    }
}

/// Numbers stay through any number of further rows.
pub proof fn lemma_keeps_rows_chain<M>(a: Seq<M>, b: Seq<M>, c: Seq<M>)
    requires
        keeps_rows(a, b),
        keeps_rows(b, c),
    ensures
        keeps_rows(a, c),
{
    assert forall|i: int| 0 <= i < a.len() implies #[trigger] c[i] == a[i] by {
        assert(b[i] == a[i]);
    }
}

impl<I: RowIdentity> RowIds<I> {
    pub fn new() -> (rows: RowIds<I>)
        ensures
            rows.known.deep_view() == Seq::<I::V>::empty(),
    {
        let rows = RowIds { known: Vec::new() };
        assert(rows.known.deep_view() =~= Seq::<I::V>::empty());
        rows
    }

    /// The number of a row.
    pub fn number(&mut self, identity: I, limit: usize) -> (row: Option<u64>)
        requires
            old(self).known@.len() <= limit,
        ensures
            final(self).known@.len() <= limit,
            numbered(old(self).known.deep_view(), identity.deep_view(), limit as nat) == (
                final(self).known.deep_view(),
                match row {
                    Some(n) => Some(n as nat),
                    None => None,
                },
            ),
    {
        let ghost known = self.known.deep_view();
        let ghost wanted = is_row(identity.deep_view());
        let mut i: usize = 0;
        while i < self.known.len()
            invariant
                i <= self.known.len() <= limit,
                *self == *old(self),
                known == self.known.deep_view(),
                wanted == is_row(identity.deep_view()),
                seqs::first_where(known, wanted, i as int) is None,
            decreases self.known.len() - i,
        {
            assert(known[i as int] == self.known@[i as int].deep_view());
            if self.known[i].same(&identity) {
                proof {
                    seqs::lemma_first_where_stays(known, wanted, i as int + 1, known.len() as int);
                }
                return Some(i as u64 + 1);
            }
            i += 1;
        }
        if self.known.len() >= limit {
            return None;
        }
        let row: u64 = self.known.len() as u64 + 1;
        let ghost before = self.known;
        self.known.push(identity);
        proof {
            seqs::lemma_deep_push(before, self.known);
        }
        Some(row)
    }
}

} // verus!
