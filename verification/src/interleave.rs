//! Fair admission of grouped readings: when not all fit, every group gives up its
//! last rows before any group gives up an earlier one.
use crate::model::{ReadingModel, SampleReading};
use crate::seqs;
use vstd::prelude::*;

verus! {

/// How many rows of group `i` come before row `r` of group `g` when rows are taken
/// in turns: the first row of every group, then the second, and so on.
pub open spec fn share(length: nat, i: int, g: int, r: int) -> int {
    let rows = if i < g {
        r + 1
    } else {
        r
    };
    if rows < length {
        rows
    } else {
        length as int
    }
}

/// How many rows of the first `n` groups come before row `r` of group `g`.
pub open spec fn rank_upto<A>(groups: Seq<Seq<A>>, n: int, g: int, r: int) -> int
    decreases n,
{
    if n <= 0 {
        0
    } else {
        rank_upto(groups, n - 1, g, r) + share(groups[n - 1].len(), n - 1, g, r)
    }
}

/// How many rows come before row `r` of group `g`.
pub open spec fn rank<A>(groups: Seq<Seq<A>>, g: int, r: int) -> int {
    rank_upto(groups, groups.len() as int, g, r)
}

/// Whether row `r` of group `g` is among the first `limit` rows.
pub open spec fn is_admitted<A>(groups: Seq<Seq<A>>, limit: int, g: int, r: int) -> bool {
    rank(groups, g, r) < limit
}

/// How many of the first `n` rows of group `g` are admitted.
pub open spec fn admitted_rows<A>(groups: Seq<Seq<A>>, limit: int, g: int, n: int) -> int
    decreases n,
{
    if n <= 0 {
        0
    } else if is_admitted(groups, limit, g, n - 1) {
        admitted_rows(groups, limit, g, n - 1) + 1
    } else {
        admitted_rows(groups, limit, g, n - 1)
    }
}

/// How many rows of group `g` are admitted.
pub open spec fn admitted_of<A>(groups: Seq<Seq<A>>, limit: int, g: int) -> int {
    admitted_rows(groups, limit, g, groups[g].len() as int)
}

/// The admitted rows of the first `n` groups, group by group.
pub open spec fn packed_upto<A>(groups: Seq<Seq<A>>, limit: int, n: int) -> Seq<A>
    decreases n,
{
    if n <= 0 {
        Seq::empty()
    } else {
        packed_upto(groups, limit, n - 1) + groups[n - 1].take(admitted_of(groups, limit, n - 1))
    }
}

/// Whether group `g` has rows, and not even the first is admitted.
pub open spec fn loses_primary<A>(groups: Seq<Seq<A>>, limit: int, g: int) -> bool {
    groups[g].len() > 0 && admitted_of(groups, limit, g) == 0
}

/// How many rows of group `g` are left out, not counting its first row.
pub open spec fn omitted_rows<A>(groups: Seq<Seq<A>>, limit: int, g: int) -> int {
    if loses_primary(groups, limit, g) {
        groups[g].len() - 1
    } else {
        groups[g].len() - admitted_of(groups, limit, g)
    }
}

/// How many of the first `n` groups lose their first row.
pub open spec fn primaries_upto<A>(groups: Seq<Seq<A>>, limit: int, n: int) -> nat
    decreases n,
{
    if n <= 0 {
        0
    } else if loses_primary(groups, limit, n - 1) {
        primaries_upto(groups, limit, n - 1) + 1
    } else {
        primaries_upto(groups, limit, n - 1)
    }
}

/// How many rows of the first `n` groups are left out, not counting first rows.
pub open spec fn payload_upto<A>(groups: Seq<Seq<A>>, limit: int, n: int) -> int
    decreases n,
{
    if n <= 0 {
        0
    } else {
        payload_upto(groups, limit, n - 1) + omitted_rows(groups, limit, n - 1)
    }
}

/// How many rows the first `n` groups have.
pub open spec fn rows_upto<A>(groups: Seq<Seq<A>>, n: int) -> int
    decreases n,
{
    if n <= 0 {
        0
    } else {
        rows_upto(groups, n - 1) + groups[n - 1].len()
    }
}

/// The value held at the largest `usize`.
pub open spec fn capped(n: int) -> int {
    if n > usize::MAX {
        usize::MAX as int
    } else {
        n
    }
}

proof fn lemma_rank_monotonic<A>(groups: Seq<Seq<A>>, n: int, g: int, r: int, h: int, s: int)
    requires
        0 <= n <= groups.len(),
        0 <= r,
        0 <= s,
        r < s || (r == s && g <= h),
    ensures
        rank_upto(groups, n, g, r) <= rank_upto(groups, n, h, s),
    decreases n,
{
    if n > 0 {
        lemma_rank_monotonic(groups, n - 1, g, r, h, s);
    }
}

proof fn lemma_rank_strict<A>(groups: Seq<Seq<A>>, n: int, g: int, r: int, h: int, s: int)
    requires
        0 <= g < n <= groups.len(),
        0 <= r < groups[g].len(),
        0 <= s,
        r < s || (r == s && g < h),
    ensures
        rank_upto(groups, n, g, r) < rank_upto(groups, n, h, s),
    decreases n,
{
    if g < n - 1 {
        lemma_rank_strict(groups, n - 1, g, r, h, s);
    } else {
        lemma_rank_monotonic(groups, n - 1, g, r, h, s);
    }
}

/// The row taken at each place of the turn order is the one whose rank is that
/// place: earlier rows have lower ranks.
pub proof fn ranks_follow_the_turns<A>(groups: Seq<Seq<A>>, g: int, r: int, h: int, s: int)
    requires
        0 <= g < groups.len(),
        0 <= r < groups[g].len(),
        0 <= h < groups.len(),
        0 <= s < groups[h].len(),
    ensures
        rank(groups, g, r) < rank(groups, h, s) <==> (r < s || (r == s && g < h)),
{
    if r < s || (r == s && g < h) {
        lemma_rank_strict(groups, groups.len() as int, g, r, h, s);
    } else {
        lemma_rank_monotonic(groups, groups.len() as int, h, s, g, r);
    }
}

/// Admission is fair: a group gets its row only when every group that has an
/// earlier row got that one.
pub proof fn admission_is_fair<A>(groups: Seq<Seq<A>>, limit: int, g: int, r: int, h: int, s: int)
    requires
        0 <= g < groups.len(),
        0 <= r < groups[g].len(),
        0 <= h < groups.len(),
        0 <= s < groups[h].len(),
        s < r,
        is_admitted(groups, limit, g, r),
    ensures
        is_admitted(groups, limit, h, s),
{
    lemma_rank_strict(groups, groups.len() as int, h, s, g, r);
}

proof fn lemma_admitted_prefix<A>(groups: Seq<Seq<A>>, limit: int, g: int, a: int, n: int)
    requires
        0 <= a,
        0 <= n,
        forall|row: int| 0 <= row < n ==> (row < a <==> #[trigger] is_admitted(
            groups,
            limit,
            g,
            row,
        )),
    ensures
        admitted_rows(groups, limit, g, n) == if a < n {
            a
        } else {
            n
        },
    decreases n,
{
    if n > 0 {
        lemma_admitted_prefix(groups, limit, g, a, n - 1);
        assert((n - 1 < a) <==> is_admitted(groups, limit, g, n - 1));
    }
}

proof fn lemma_exhausted<A>(groups: Seq<Seq<A>>, n: int, g: int, r: int)
    requires
        0 <= n <= groups.len(),
        forall|i: int| 0 <= i < groups.len() ==> (#[trigger] groups[i]).len() <= r,
    ensures
        rank_upto(groups, n, g, r) == rows_upto(groups, n),
    decreases n,
{
    if n > 0 {
        lemma_exhausted(groups, n - 1, g, r);
        assert(groups[n - 1].len() <= r);
    }
}

proof fn lemma_next_round<A>(groups: Seq<Seq<A>>, n: int, r: int)
    requires
        0 <= n <= groups.len(),
        0 <= r,
    ensures
        rank_upto(groups, n, groups.len() as int, r) == rank_upto(groups, n, 0, r + 1),
    decreases n,
{
    if n > 0 {
        lemma_next_round(groups, n - 1, r);
    }
}

proof fn lemma_step<A>(groups: Seq<Seq<A>>, n: int, g: int, r: int)
    requires
        0 <= n <= groups.len(),
        0 <= g < groups.len(),
        0 <= r,
    ensures
        rank_upto(groups, n, g + 1, r) == rank_upto(groups, n, g, r) + if g < n
            && groups[g].len() > r {
            1int
        } else {
            0
        },
    decreases n,
{
    if n > 0 {
        lemma_step(groups, n - 1, g, r);
    }
}

proof fn lemma_rank_zero<A>(groups: Seq<Seq<A>>, n: int)
    requires
        0 <= n <= groups.len(),
    ensures
        rank_upto(groups, n, 0, 0) == 0,
    decreases n,
{
    if n > 0 {
        lemma_rank_zero(groups, n - 1);
    }
}

/// What is shown of grouped readings, and how much was left out.
#[derive(Clone, Debug, PartialEq, Eq)]
pub struct BoundedInterfaceReadings {
    pub readings: Vec<SampleReading>,
    pub omitted_primary: usize,
    pub omitted_payload: usize,
    pub omitted_payload_by_group: Vec<usize>,
}

/// How many rows of each group are admitted when rows are taken in turns.
fn rows_in_turn(groups: &Vec<Vec<SampleReading>>, limit: usize) -> (admitted: Vec<usize>)
    ensures
        admitted.len() == groups.len(),
        forall|g: int|
            0 <= g < groups.len() ==> #[trigger] admitted@[g] == admitted_of(
                groups.deep_view(),
                limit as int,
                g,
            ) && admitted@[g] <= groups.deep_view()[g].len(),
{
    let ghost all = groups.deep_view();
    let n: usize = groups.len();
    let mut admitted: Vec<usize> = Vec::new();
    for i in 0..n
        invariant
            admitted.len() == i,
            forall|j: int| 0 <= j < i ==> #[trigger] admitted@[j] == 0,
    {
        admitted.push(0);
    }
    let mut count: usize = 0;
    let ghost mut r: int = 0;
    let ghost mut at: int = 0;
    let mut finished: bool = false;
    proof {
        lemma_rank_zero(all, n as int);
    }
    while count < limit && !finished
        invariant
            all == groups.deep_view(),
            n == groups.len(),
            admitted.len() == n,
            0 <= r,
            0 <= at <= n,
            count <= limit,
            count < limit && !finished ==> at == 0,
            finished ==> forall|i: int| 0 <= i < n ==> (#[trigger] all[i]).len() <= r,
            count == rank(all, at, r),
            forall|i: int|
                0 <= i < n ==> #[trigger] admitted@[i] == share(all[i].len(), i, at, r),
        decreases limit - count, if finished { 0int } else { 1int },
    {
        let ghost start: int = count as int;
        let mut progressed: bool = false;
        let mut g: usize = 0;
        while g < n && count < limit
            invariant
                all == groups.deep_view(),
                n == groups.len(),
                admitted.len() == n,
                0 <= r,
                g <= n,
                start <= count <= limit,
                count == rank(all, g as int, r),
                progressed ==> count > start,
                !progressed ==> count == start && forall|i: int|
                    0 <= i < g ==> (#[trigger] all[i]).len() <= r,
                forall|i: int|
                    0 <= i < n ==> #[trigger] admitted@[i] == share(all[i].len(), i, g as int, r),
            decreases n - g,
        {
            proof {
                lemma_step(all, n as int, g as int, r);
                assert(all[g as int] == groups@[g as int].deep_view());
            }
            let ghost before = admitted@;
            if admitted[g] < groups[g].len() {
                let more: usize = admitted[g] + 1;
                admitted.set(g, more);
                count += 1;
                progressed = true;
            }
            assert forall|i: int| 0 <= i < n implies #[trigger] admitted@[i] == share(
                all[i].len(),
                i,
                g as int + 1,
                r,
            ) by {
                assert(before[i] == share(all[i].len(), i, g as int, r));
            }
            g += 1;
        }
        proof {
            at = g as int;
            if g == n && count < limit {
                lemma_next_round(all, n as int, r);
                assert forall|i: int| 0 <= i < n implies #[trigger] admitted@[i] == share(
                    all[i].len(),
                    i,
                    0,
                    r + 1,
                ) by {
                    assert(admitted@[i] == share(all[i].len(), i, n as int, r));
                }
                at = 0;
                r = r + 1;
            }
        }
        if !progressed && count < limit {
            assert(forall|i: int| 0 <= i < n ==> (#[trigger] all[i]).len() <= r);
            finished = true;
        }
    }
    proof {
        assert forall|g: int| 0 <= g < n implies #[trigger] admitted@[g] == admitted_of(
            all,
            limit as int,
            g,
        ) && admitted@[g] <= all[g].len() by {
            assert(admitted@[g] == share(all[g].len(), g, at, r));
            assert forall|row: int| 0 <= row < all[g].len() implies (row < admitted@[g]
                <==> #[trigger] is_admitted(all, limit as int, g, row)) by {
                if row < r || (row == r && g < at) {
                    lemma_rank_strict(all, n as int, g, row, at, r);
                } else {
                    assert(!finished) by {
                        assert(all[g].len() <= all[g].len());
                    }
                    lemma_rank_monotonic(all, n as int, at, r, g, row);
                }
            }
            lemma_admitted_prefix(all, limit as int, g, admitted@[g] as int, all[g].len() as int);
        }
    }
    admitted
}

/// The readings that fit into `limit`, taken in turns from the groups and packed
/// group by group, with what was left out.
pub fn interleave_readings(groups: &Vec<Vec<SampleReading>>, limit: usize) -> (bounded:
    BoundedInterfaceReadings)
    ensures
        ({
            let all = groups.deep_view();
            let n = all.len() as int;
            &&& bounded.readings.deep_view() == packed_upto(all, limit as int, n)
            &&& bounded.omitted_primary == primaries_upto(all, limit as int, n)
            &&& bounded.omitted_payload == capped(payload_upto(all, limit as int, n))
            &&& bounded.omitted_payload_by_group.len() == n
            &&& forall|g: int|
                0 <= g < n ==> #[trigger] bounded.omitted_payload_by_group@[g] == omitted_rows(
                    all,
                    limit as int,
                    g,
                )
        }),
{
    let ghost all = groups.deep_view();
    let admitted = rows_in_turn(groups, limit);
    let n: usize = groups.len();
    let mut readings: Vec<SampleReading> = Vec::new();
    let mut omitted_primary: usize = 0;
    let mut omitted_payload: usize = 0;
    let mut by_group: Vec<usize> = Vec::new();
    assert(readings.deep_view() =~= Seq::<ReadingModel>::empty());
    for g in 0..n
        invariant
            all == groups.deep_view(),
            n == groups.len(),
            admitted.len() == n,
            forall|i: int|
                0 <= i < n ==> #[trigger] admitted@[i] == admitted_of(all, limit as int, i)
                    && admitted@[i] <= all[i].len(),
            readings.deep_view() == packed_upto(all, limit as int, g as int),
            omitted_primary <= g,
            omitted_primary == primaries_upto(all, limit as int, g as int),
            0 <= payload_upto(all, limit as int, g as int),
            omitted_payload == capped(payload_upto(all, limit as int, g as int)),
            by_group.len() == g,
            forall|i: int|
                0 <= i < g ==> #[trigger] by_group@[i] == omitted_rows(all, limit as int, i),
    {
        let group = &groups[g];
        let rows: usize = admitted[g];
        let ghost packed = readings.deep_view();
        assert(all[g as int] == group.deep_view());
        assert(packed + all[g as int].take(0) =~= packed);
        for k in 0..rows
            invariant
                rows <= group.len(),
                all[g as int] == group.deep_view(),
                readings.deep_view() == packed + all[g as int].take(k as int),
        {
            let ghost before = readings;
            readings.push(group[k].copy());
            proof {
                seqs::lemma_deep_push(before, readings);
                seqs::lemma_take_push(all[g as int], k as int);
                assert(readings.deep_view() =~= packed + all[g as int].take(k as int + 1));
            }
        }
        let length: usize = group.len();
        let mut omitted: usize = length - rows;
        if length > 0 && rows == 0 {
            omitted_primary += 1;
            omitted = length - 1;
        }
        by_group.push(omitted);
        omitted_payload = omitted_payload.saturating_add(omitted);
    }
    BoundedInterfaceReadings {
        readings,
        omitted_primary,
        omitted_payload,
        omitted_payload_by_group: by_group,
    }
}

proof fn lemma_admitted_within<A>(groups: Seq<Seq<A>>, limit: int, g: int, n: int)
    requires
        0 <= n,
    ensures
        0 <= admitted_rows(groups, limit, g, n) <= n,
    decreases n,
{
    if n > 0 {
        lemma_admitted_within(groups, limit, g, n - 1);
    }
}

/// Nothing is lost without being counted: what is shown and what is left out add
/// up to what there was.
pub proof fn every_row_is_shown_or_counted<A>(groups: Seq<Seq<A>>, limit: int, n: int)
    requires
        0 <= n <= groups.len(),
    ensures
        packed_upto(groups, limit, n).len() + primaries_upto(groups, limit, n) + payload_upto(
            groups,
            limit,
            n,
        ) == rows_upto(groups, n),
    decreases n,
{
    if n > 0 {
        every_row_is_shown_or_counted(groups, limit, n - 1);
        lemma_admitted_within(groups, limit, n - 1, groups[n - 1].len() as int);
    }
}

} // verus!
