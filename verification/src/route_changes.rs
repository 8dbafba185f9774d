//! How routes, rules and neighbours change from one complete table to the next.
use crate::addresses::IpAddress;
use crate::model::Nanos;
use crate::network_route;
use crate::network_route::{
    Families, FamilyAttempt, InventoryProjector, InventorySnapshot, IpFamily, IpPrefix,
    NeighbourRow, RouteModel, RouteNexthop, RouteRow, RuleRow, CONFIGURED_FLAGS, NUD_FAILED,
};
use crate::ordering::Ordered;
use crate::rows::RowIdentity;
use crate::seqs;
use crate::text::same_option;
use vstd::prelude::*;

verus! {

/// How many changes there were since the session began.
#[derive(Clone, Copy, Debug, Default, PartialEq, Eq, Structural)]
pub struct InventoryChangeTotals {
    pub route_additions: u64,
    pub route_removals: u64,
    pub rule_additions: u64,
    pub rule_removals: u64,
    pub neighbour_additions: u64,
    pub neighbour_removals: u64,
    pub neighbour_updates: u64,
    pub neighbour_state_changes: u64,
    pub neighbour_failed_transitions: u64,
}

/// What makes a next hop the same next hop: not the name of its interface, nor flags
/// that follow the state of the link.
#[derive(Clone, Copy, PartialEq, Eq, Structural)]
pub struct RouteNexthopIdentity {
    pub ifindex: Option<u32>,
    pub gateway: Option<IpAddress>,
    pub via: Option<IpAddress>,
    pub weight: u16,
    pub configuration_flags: u8,
}

impl DeepView for RouteNexthopIdentity {
    type V = RouteNexthopIdentity;

    open spec fn deep_view(&self) -> RouteNexthopIdentity {
        *self
    }
}

/// The part of a route's identity that is no list.
#[derive(Clone, Copy, PartialEq, Eq, Structural)]
pub struct RouteSelector {
    pub family: IpFamily,
    pub destination: IpPrefix,
    pub source: IpPrefix,
    pub tos: u8,
    pub table: u32,
    pub priority: Option<u32>,
    pub protocol: u8,
    pub scope: u8,
    pub route_type: u8,
    pub preferred_source: Option<IpAddress>,
}

/// What makes a route the same route: not what ages with it, such as its cache.
pub struct RouteIdentity {
    pub selector: RouteSelector,
    pub nexthops: Vec<RouteNexthopIdentity>,
}

/// The identity of a route as contracts speak of it.
pub struct RouteIdentityModel {
    pub selector: RouteSelector,
    pub nexthops: Seq<RouteNexthopIdentity>,
}

impl DeepView for RouteIdentity {
    type V = RouteIdentityModel;

    open spec fn deep_view(&self) -> RouteIdentityModel {
        RouteIdentityModel { selector: self.selector, nexthops: self.nexthops@ }
    }
}

impl RowIdentity for RouteIdentity {
    fn same(&self, other: &RouteIdentity) -> (same: bool) {
        if self.selector != other.selector || self.nexthops.len() != other.nexthops.len() {
            return false;
        }
        for i in 0..self.nexthops.len()
            invariant
                self.nexthops@.len() == other.nexthops@.len(),
                forall|j: int| 0 <= j < i ==> self.nexthops@[j] == other.nexthops@[j],
        {
            if self.nexthops[i] != other.nexthops[i] {
                assert(self.nexthops@[i as int] != other.nexthops@[i as int]);
                return false;
            }
        }
        assert(self.nexthops@ =~= other.nexthops@);
        true
    }
}

pub open spec fn nexthop_identity(nexthop: RouteNexthop<Seq<char>>) -> RouteNexthopIdentity {
    RouteNexthopIdentity {
        ifindex: nexthop.ifindex,
        gateway: nexthop.gateway,
        via: nexthop.via,
        weight: nexthop.weight,
        configuration_flags: nexthop.flags & CONFIGURED_FLAGS,
    }
}

pub open spec fn route_identity(row: RouteModel) -> RouteIdentityModel {
    RouteIdentityModel {
        selector: RouteSelector {
            family: row.family,
            destination: row.destination,
            source: row.source,
            tos: row.tos,
            table: row.table,
            priority: row.priority,
            protocol: row.protocol,
            scope: row.scope,
            route_type: row.route_type,
            preferred_source: row.preferred_source,
        },
        nexthops: Seq::new(row.nexthops.len(), |i: int| nexthop_identity(row.nexthops[i])),
    }
}

impl RouteIdentity {
    pub fn of(row: &RouteRow) -> (identity: RouteIdentity)
        ensures
            identity.deep_view() == route_identity(row.deep_view()),
    {
        let ghost all = row.nexthops.deep_view();
        assert(all.len() == row.nexthops@.len());
        let mut nexthops: Vec<RouteNexthopIdentity> = Vec::new();
        for i in 0..row.nexthops.len()
            invariant
                all == row.nexthops.deep_view(),
                all.len() == row.nexthops@.len(),
                nexthops@.len() == i,
                forall|j: int| 0 <= j < i ==> #[trigger] nexthops@[j] == nexthop_identity(all[j]),
        {
            let nexthop = &row.nexthops[i];
            assert(all[i as int] == row.nexthops@[i as int].deep_view());
            nexthops.push(
                RouteNexthopIdentity {
                    ifindex: nexthop.ifindex,
                    gateway: nexthop.gateway,
                    via: nexthop.via,
                    weight: nexthop.weight,
                    configuration_flags: nexthop.flags & CONFIGURED_FLAGS,
                },
            );
        }
        assert(nexthops@ =~= route_identity(row.deep_view()).nexthops);
        RouteIdentity {
            selector: RouteSelector {
                family: row.family,
                destination: row.destination,
                source: row.source,
                tos: row.tos,
                table: row.table,
                priority: row.priority,
                protocol: row.protocol,
                scope: row.scope,
                route_type: row.route_type,
                preferred_source: row.preferred_source,
            },
            nexthops,
        }
    }
}

/// What makes a neighbour the same neighbour.
#[derive(Clone, Copy, PartialEq, Eq, Structural)]
pub struct NeighbourIdentity {
    pub family: IpFamily,
    pub address: IpAddress,
    pub ifindex: u32,
}

pub open spec fn neighbour_identity(row: NeighbourRow<Seq<char>>) -> NeighbourIdentity {
    NeighbourIdentity { family: row.family, address: row.address, ifindex: row.ifindex }
}

/// Different things, each once.
pub struct Distinct<I> {
    pub members: Vec<I>,
}

impl<I: RowIdentity> View for Distinct<I> {
    type V = Set<I::V>;

    open spec fn view(&self) -> Set<I::V> {
        self.members.deep_view().to_set()
    }
}

/// How many different members of a list satisfy `p`.
proof fn lemma_distinct_count<M>(s: Seq<M>, p: spec_fn(M) -> bool, n: int)
    requires
        s.no_duplicates(),
        0 <= n <= s.len(),
    ensures
        s.take(n).to_set().filter(p).finite(),
        s.take(n).to_set().filter(p).len() == seqs::count_where(s, p, n),
    decreases n,
{
    if n > 0 {
        lemma_distinct_count(s, p, n - 1);
        let shorter = s.take(n - 1);
        let longer = s.take(n);
        let before = shorter.to_set().filter(p);
        let after = longer.to_set().filter(p);
        let x = s[n - 1];
        assert forall|y: M| #[trigger]
            longer.to_set().contains(y) == (shorter.to_set().contains(y) || y == x) by {
            if longer.contains(y) {
                let k = choose|k: int| 0 <= k < longer.len() && longer[k] == y;
                if k < n - 1 {
                    assert(shorter[k] == y);
                }
            }
            if shorter.contains(y) {
                let k = choose|k: int| 0 <= k < shorter.len() && shorter[k] == y;
                assert(longer[k] == y);
            }
            assert(longer[n - 1] == x);
        }
        assert(!shorter.contains(x)) by {
            if shorter.contains(x) {
                let k = choose|k: int| 0 <= k < shorter.len() && shorter[k] == x;
                assert(s[k] == s[n - 1]);
            }
        }
        if p(x) {
            assert(after =~= before.insert(x));
        } else {
            assert(after =~= before);
        }
    } else {
        assert(s.take(0).to_set().filter(p) =~= Set::<M>::empty());
    }
}

impl<I: RowIdentity> Distinct<I> {
    pub open spec fn wf(&self) -> bool {
        self.members.deep_view().no_duplicates()
    }

    pub fn new() -> (set: Distinct<I>)
        ensures
            set.wf(),
            set@ == Set::<I::V>::empty(),
    {
        let set = Distinct { members: Vec::new() };
        assert(set@ =~= Set::<I::V>::empty());
        set
    }

    pub fn contains(&self, member: &I) -> (found: bool)
        ensures
            found == self@.contains(member.deep_view()),
    {
        let ghost all = self.members.deep_view();
        assert(all.len() == self.members@.len());
        for i in 0..self.members.len()
            invariant
                all == self.members.deep_view(),
                all.len() == self.members@.len(),
                forall|j: int| 0 <= j < i ==> all[j] != member.deep_view(),
        {
            assert(all[i as int] == self.members@[i as int].deep_view());
            if self.members[i].same(member) {
                return true;
            }
        }
        false
    }

    pub fn insert(&mut self, member: I)
        requires
            old(self).wf(),
        ensures
            final(self).wf(),
            final(self)@ == old(self)@.insert(member.deep_view()),
    {
        let ghost all = self.members.deep_view();
        let ghost new = member.deep_view();
        if self.contains(&member) {
            assert(self@ =~= old(self)@.insert(new));
            return;
        }
        let ghost before = self.members;
        self.members.push(member);
        proof {
            seqs::lemma_deep_push(before, self.members);
            let after = self.members.deep_view();
            assert forall|y: I::V| #[trigger] after.contains(y) == (all.contains(y) || y == new) by {
                if after.contains(y) && y != new {
                    let k = choose|k: int| 0 <= k < after.len() && after[k] == y;
                    assert(all[k] == y);
                }
                if all.contains(y) {
                    let k = choose|k: int| 0 <= k < all.len() && all[k] == y;
                    assert(after[k] == y);
                }
                assert(after[all.len() as int] == new);
            }
            assert(self@ =~= old(self)@.insert(new));
        }
    }

    /// How many members another set does not have.
    pub fn count_missing(&self, other: &Distinct<I>) -> (count: u64)
        requires
            self.wf(),
        ensures
            count == self@.filter(|member: I::V| !other@.contains(member)).len(),
    {
        let ghost all = self.members.deep_view();
        let ghost missing = |member: I::V| !other@.contains(member);
        assert(all.len() == self.members@.len());
        let mut count: u64 = 0;
        for i in 0..self.members.len()
            invariant
                all == self.members.deep_view(),
                all.len() == self.members@.len(),
                missing == (|member: I::V| !other@.contains(member)),
                count == seqs::count_where(all, missing, i as int),
                count <= i,
        {
            assert(all[i as int] == self.members@[i as int].deep_view());
            if !other.contains(&self.members[i]) {
                count += 1;
            }
        }
        proof {
            lemma_distinct_count(all, missing, all.len() as int);
            seqs::lemma_take_all(all);
        }
        count
    }
}

/// How many members of a set another one does not have.
pub open spec fn missing_from<M>(set: Set<M>, other: Set<M>) -> nat {
    set.filter(|member: M| !other.contains(member)).len()
}

/// The identities of the first `n` routes that are of a family.
pub open spec fn routes_upto(rows: Seq<RouteModel>, family: IpFamily, n: int) -> Set<
    RouteIdentityModel,
>
    decreases n,
{
    if n <= 0 {
        Set::empty()
    } else if rows[n - 1].family == family {
        routes_upto(rows, family, n - 1).insert(route_identity(rows[n - 1]))
    } else {
        routes_upto(rows, family, n - 1)
    }
}

pub open spec fn rules_upto(rows: Seq<RuleRow<Seq<char>>>, family: IpFamily, n: int) -> Set<
    RuleRow<Seq<char>>,
>
    decreases n,
{
    if n <= 0 {
        Set::empty()
    } else if rows[n - 1].selector.family == family {
        rules_upto(rows, family, n - 1).insert(rows[n - 1])
    } else {
        rules_upto(rows, family, n - 1)
    }
}

/// The neighbours of a family among the first `n`, by their identities: a later row
/// replaces an earlier one.
pub open spec fn neighbours_upto(
    rows: Seq<NeighbourRow<Seq<char>>>,
    family: IpFamily,
    n: int,
) -> Map<NeighbourIdentity, NeighbourRow<Seq<char>>>
    decreases n,
{
    if n <= 0 {
        Map::empty()
    } else if rows[n - 1].family == family {
        neighbours_upto(rows, family, n - 1).insert(neighbour_identity(rows[n - 1]), rows[n - 1])
    } else {
        neighbours_upto(rows, family, n - 1)
    }
}

fn route_set(rows: &Vec<RouteRow>, family: IpFamily) -> (set: Distinct<RouteIdentity>)
    ensures
        set.wf(),
        set@ == routes_upto(rows.deep_view(), family, rows.deep_view().len() as int),
{
    let ghost all = rows.deep_view();
    assert(all.len() == rows@.len());
    let mut set: Distinct<RouteIdentity> = Distinct::new();
    for i in 0..rows.len()
        invariant
            all == rows.deep_view(),
            all.len() == rows@.len(),
            set.wf(),
            set@ == routes_upto(all, family, i as int),
    {
        assert(all[i as int] == rows@[i as int].deep_view());
        if rows[i].family == family {
            set.insert(RouteIdentity::of(&rows[i]));
        }
    }
    set
}

fn rule_set(rows: &Vec<RuleRow<String>>, family: IpFamily) -> (set: Distinct<RuleRow<String>>)
    ensures
        set.wf(),
        set@ == rules_upto(rows.deep_view(), family, rows.deep_view().len() as int),
{
    let ghost all = rows.deep_view();
    assert(all.len() == rows@.len());
    let mut set: Distinct<RuleRow<String>> = Distinct::new();
    for i in 0..rows.len()
        invariant
            all == rows.deep_view(),
            all.len() == rows@.len(),
            set.wf(),
            set@ == rules_upto(all, family, i as int),
    {
        assert(all[i as int] == rows@[i as int].deep_view());
        if rows[i].selector.family == family {
            set.insert(rows[i].copied());
        }
    }
    set
}

/// Neighbours by their identities.
pub struct Neighbours {
    pub entries: Vec<(NeighbourIdentity, NeighbourRow<String>)>,
}

/// What the first `n` entries say.
pub open spec fn entries_upto(
    entries: Seq<(NeighbourIdentity, NeighbourRow<String>)>,
    n: int,
) -> Map<NeighbourIdentity, NeighbourRow<Seq<char>>>
    decreases n,
{
    if n <= 0 {
        Map::empty()
    } else {
        entries_upto(entries, n - 1).insert(entries[n - 1].0, entries[n - 1].1.deep_view())
    }
}

/// The identities of entries.
pub open spec fn entry_keys(entries: Seq<(NeighbourIdentity, NeighbourRow<String>)>) -> Seq<
    NeighbourIdentity,
> {
    Seq::new(entries.len(), |i: int| entries[i].0)
}

proof fn lemma_entries(entries: Seq<(NeighbourIdentity, NeighbourRow<String>)>, n: int)
    requires
        0 <= n <= entries.len(),
        entry_keys(entries).no_duplicates(),
    ensures
        forall|i: int|
            0 <= i < n ==> entries_upto(entries, n).contains_key((#[trigger] entries[i]).0)
                && entries_upto(entries, n)[entries[i].0] == entries[i].1.deep_view(),
        forall|key: NeighbourIdentity| #[trigger]
            entries_upto(entries, n).contains_key(key) ==> exists|i: int|
                0 <= i < n && (#[trigger] entries[i]).0 == key,
    decreases n,
{
    if n > 0 {
        lemma_entries(entries, n - 1);
        assert forall|i: int| 0 <= i < n - 1 implies (#[trigger] entries[i]).0 != entries[n
            - 1].0 by {
            assert(entry_keys(entries)[i] != entry_keys(entries)[n - 1]);
        }
        assert forall|key: NeighbourIdentity| #[trigger]
            entries_upto(entries, n).contains_key(key) implies exists|i: int|
            0 <= i < n && (#[trigger] entries[i]).0 == key by {
            if key == entries[n - 1].0 {
                assert(entries[n - 1].0 == key);
            } else {
                assert(entries_upto(entries, n - 1).contains_key(key));
            }
        }
    }
}

proof fn lemma_entries_prefix(
    a: Seq<(NeighbourIdentity, NeighbourRow<String>)>,
    b: Seq<(NeighbourIdentity, NeighbourRow<String>)>,
    n: int,
)
    requires
        n <= a.len(),
        n <= b.len(),
        forall|i: int| 0 <= i < n ==> a[i] == b[i],
    ensures
        entries_upto(a, n) == entries_upto(b, n),
    decreases n,
{
    if n > 0 {
        lemma_entries_prefix(a, b, n - 1);
    }
}

impl View for Neighbours {
    type V = Map<NeighbourIdentity, NeighbourRow<Seq<char>>>;

    open spec fn view(&self) -> Map<NeighbourIdentity, NeighbourRow<Seq<char>>> {
        entries_upto(self.entries@, self.entries@.len() as int)
    }
}

impl Neighbours {
    pub open spec fn wf(&self) -> bool {
        entry_keys(self.entries@).no_duplicates()
    }

    fn new() -> (neighbours: Neighbours)
        ensures
            neighbours.wf(),
            neighbours@ == Map::<NeighbourIdentity, NeighbourRow<Seq<char>>>::empty(),
    {
        Neighbours { entries: Vec::new() }
    }

    fn get(&self, key: &NeighbourIdentity) -> (row: Option<&NeighbourRow<String>>)
        requires
            self.wf(),
        ensures
            match row {
                Some(row) => self@.contains_key(*key) && self@[*key] == row.deep_view(),
                None => !self@.contains_key(*key),
            },
    {
        proof {
            lemma_entries(self.entries@, self.entries@.len() as int);
        }
        for i in 0..self.entries.len()
            invariant
                forall|j: int| 0 <= j < i ==> (#[trigger] self.entries@[j]).0 != *key,
                forall|j: int|
                    0 <= j < self.entries@.len() ==> self@.contains_key(
                        (#[trigger] self.entries@[j]).0,
                    ) && self@[self.entries@[j].0] == self.entries@[j].1.deep_view(),
        {
            if self.entries[i].0 == *key {
                return Some(&self.entries[i].1);
            }
        }
        None
    }

    fn insert(&mut self, key: NeighbourIdentity, row: NeighbourRow<String>)
        requires
            old(self).wf(),
        ensures
            final(self).wf(),
            final(self)@ == old(self)@.insert(key, row.deep_view()),
    {
        let ghost before = self.entries@;
        let ghost size = before.len() as int;
        proof {
            lemma_entries(before, size);
        }
        let count: usize = self.entries.len();
        for i in 0..count
            invariant
                count == self.entries@.len(),
                size == before.len(),
                self.entries@ == before,
                *self == *old(self),
                entry_keys(before).no_duplicates(),
                forall|j: int| 0 <= j < i ==> (#[trigger] self.entries@[j]).0 != key,
        {
            if self.entries[i].0 == key {
                let ghost new = row.deep_view();
                self.entries.set(i, (key, row));
                proof {
                    let after = self.entries@;
                    assert(entry_keys(after) =~= entry_keys(before));
                    lemma_entries(after, size);
                    lemma_entries(before, size);
                    assert forall|k: NeighbourIdentity|
                        entries_upto(after, size).contains_key(k) == entries_upto(
                            before,
                            size,
                        ).insert(key, new).contains_key(k) by {
                        if entries_upto(after, size).contains_key(k) {
                            let j = choose|j: int| 0 <= j < size && (#[trigger] after[j]).0 == k;
                            assert(before[j].0 == k);
                        }
                        if entries_upto(before, size).contains_key(k) {
                            let j = choose|j: int| 0 <= j < size && (#[trigger] before[j]).0 == k;
                            assert(after[j].0 == k);
                        }
                        assert(after[i as int].0 == key);
                    }
                    assert forall|k: NeighbourIdentity| #[trigger]
                        entries_upto(after, size).contains_key(k) implies entries_upto(
                        after,
                        size,
                    )[k] == entries_upto(before, size).insert(key, new)[k] by {
                        let j = choose|j: int| 0 <= j < size && (#[trigger] after[j]).0 == k;
                        if j != i {
                            assert(entry_keys(after)[j] != entry_keys(after)[i as int]);
                            assert(before[j] == after[j]);
                        }
                    }
                    assert(entries_upto(after, size) =~= entries_upto(before, size).insert(
                        key,
                        new,
                    ));
                }
                return;
            }
        }
        self.entries.push((key, row));
        proof {
            let after = self.entries@;
            lemma_entries_prefix(before, after, size);
            assert forall|i: int, j: int|
                0 <= i < after.len() && 0 <= j < after.len() && i != j implies entry_keys(after)[i]
                != entry_keys(after)[j] by {
                if i < size && j < size {
                    assert(entry_keys(before)[i] != entry_keys(before)[j]);
                } else if i < size {
                    assert(before[i].0 != key);
                } else {
                    assert(before[j].0 != key);
                }
            }
        }
    }
}

fn neighbour_map(rows: &Vec<NeighbourRow<String>>, family: IpFamily) -> (map: Neighbours)
    ensures
        map.wf(),
        map@ == neighbours_upto(rows.deep_view(), family, rows.deep_view().len() as int),
{
    let ghost all = rows.deep_view();
    assert(all.len() == rows@.len());
    let mut map = Neighbours::new();
    for i in 0..rows.len()
        invariant
            all == rows.deep_view(),
            all.len() == rows@.len(),
            map.wf(),
            map@ == neighbours_upto(all, family, i as int),
    {
        let row = &rows[i];
        assert(all[i as int] == rows@[i as int].deep_view());
        if row.family == family {
            map.insert(
                NeighbourIdentity {
                    family: row.family,
                    address: row.address,
                    ifindex: row.ifindex,
                },
                row.copied(),
            );
        }
    }
    map
}

/// Whether what is known of a neighbour changed; its age and the name of its
/// interface do not count.
pub open spec fn is_updated(old: NeighbourRow<Seq<char>>, new: NeighbourRow<Seq<char>>) -> bool {
    old.link_address != new.link_address || old.state != new.state || old.flags != new.flags
        || old.neighbour_type != new.neighbour_type || old.probes != new.probes
}

fn neighbour_observation_changed(old: &NeighbourRow<String>, new: &NeighbourRow<String>) -> (changed:
    bool)
    ensures
        changed == is_updated(old.deep_view(), new.deep_view()),
{
    let same_probes: bool = match (old.probes, new.probes) {
        (Some(a), Some(b)) => a == b,
        (None, None) => true,
        _ => false,
    };
    !same_option(&old.link_address, &new.link_address) || old.state != new.state || old.flags
        != new.flags || old.neighbour_type != new.neighbour_type || !same_probes
}

/// Whether a neighbour could be reached and cannot any more.
pub open spec fn is_lost(old: NeighbourRow<Seq<char>>, new: NeighbourRow<Seq<char>>) -> bool {
    old.state & NUD_FAILED == 0 && new.state & NUD_FAILED != 0
}

/// The neighbours in both tables of which something holds.
pub open spec fn both_with(
    previous: Map<NeighbourIdentity, NeighbourRow<Seq<char>>>,
    current: Map<NeighbourIdentity, NeighbourRow<Seq<char>>>,
    p: spec_fn(NeighbourRow<Seq<char>>, NeighbourRow<Seq<char>>) -> bool,
) -> spec_fn(NeighbourIdentity) -> bool {
    |key: NeighbourIdentity| previous.contains_key(key) && p(previous[key], current[key])
}

pub open spec fn updated() -> spec_fn(NeighbourRow<Seq<char>>, NeighbourRow<Seq<char>>) -> bool {
    |old: NeighbourRow<Seq<char>>, new: NeighbourRow<Seq<char>>| is_updated(old, new)
}

pub open spec fn changed_state() -> spec_fn(
    NeighbourRow<Seq<char>>,
    NeighbourRow<Seq<char>>,
) -> bool {
    |old: NeighbourRow<Seq<char>>, new: NeighbourRow<Seq<char>>| old.state != new.state
}

pub open spec fn lost() -> spec_fn(NeighbourRow<Seq<char>>, NeighbourRow<Seq<char>>) -> bool {
    |old: NeighbourRow<Seq<char>>, new: NeighbourRow<Seq<char>>| is_lost(old, new)
}

/// What changed between two tables of neighbours.
struct NeighbourChanges {
    additions: u64,
    removals: u64,
    updates: u64,
    state_changes: u64,
    failed_transitions: u64,
}

fn count_unknown(neighbours: &Neighbours, other: &Neighbours) -> (count: u64)
    requires
        neighbours.wf(),
        other.wf(),
    ensures
        count == missing_from(neighbours@.dom(), other@.dom()),
{
    let ghost keys = entry_keys(neighbours.entries@);
    let ghost missing = |key: NeighbourIdentity| !other@.dom().contains(key);
    let mut count: u64 = 0;
    for i in 0..neighbours.entries.len()
        invariant
            other.wf(),
            keys == entry_keys(neighbours.entries@),
            missing == (|key: NeighbourIdentity| !other@.dom().contains(key)),
            count <= i,
            count == seqs::count_where(keys, missing, i as int),
    {
        assert(keys[i as int] == neighbours.entries@[i as int].0);
        if other.get(&neighbours.entries[i].0).is_none() {
            count += 1;
        }
    }
    proof {
        lemma_keys(neighbours);
        lemma_distinct_count(keys, missing, keys.len() as int);
        seqs::lemma_take_all(keys);
    }
    count
}

proof fn lemma_keys(neighbours: &Neighbours)
    requires
        neighbours.wf(),
    ensures
        entry_keys(neighbours.entries@).to_set() == neighbours@.dom(),
{
    let entries = neighbours.entries@;
    let keys = entry_keys(entries);
    lemma_entries(entries, entries.len() as int);
    assert forall|key: NeighbourIdentity| #[trigger]
        keys.to_set().contains(key) == neighbours@.dom().contains(key) by {
        if keys.contains(key) {
            let i = choose|i: int| 0 <= i < keys.len() && keys[i] == key;
            assert(entries[i].0 == key);
        }
        if neighbours@.contains_key(key) {
            let i = choose|i: int| 0 <= i < entries.len() && (#[trigger] entries[i]).0 == key;
            assert(keys[i] == key);
        }
    }
    assert(keys.to_set() =~= neighbours@.dom());
}

/// How many neighbours in both tables something holds of.
pub open spec fn count_both(
    previous: Map<NeighbourIdentity, NeighbourRow<Seq<char>>>,
    current: Map<NeighbourIdentity, NeighbourRow<Seq<char>>>,
    p: spec_fn(NeighbourRow<Seq<char>>, NeighbourRow<Seq<char>>) -> bool,
) -> nat {
    current.dom().filter(both_with(previous, current, p)).len()
}

fn compare_neighbours(previous: &Neighbours, current: &Neighbours) -> (changes: NeighbourChanges)
    requires
        previous.wf(),
        current.wf(),
    ensures
        changes.additions == missing_from(current@.dom(), previous@.dom()),
        changes.removals == missing_from(previous@.dom(), current@.dom()),
        changes.updates == count_both(previous@, current@, updated()),
        changes.state_changes == count_both(previous@, current@, changed_state()),
        changes.failed_transitions == count_both(previous@, current@, lost()),
{
    let ghost keys = entry_keys(current.entries@);
    let ghost a = both_with(previous@, current@, updated());
    let ghost b = both_with(previous@, current@, changed_state());
    let ghost c = both_with(previous@, current@, lost());
    let mut updates: u64 = 0;
    let mut state_changes: u64 = 0;
    let mut failed_transitions: u64 = 0;
    proof {
        lemma_entries(current.entries@, current.entries@.len() as int);
    }
    for i in 0..current.entries.len()
        invariant
            previous.wf(),
            keys == entry_keys(current.entries@),
            a == both_with(previous@, current@, updated()),
            b == both_with(previous@, current@, changed_state()),
            c == both_with(previous@, current@, lost()),
            forall|j: int|
                0 <= j < current.entries@.len() ==> current@.contains_key(
                    (#[trigger] current.entries@[j]).0,
                ) && current@[current.entries@[j].0] == current.entries@[j].1.deep_view(),
            updates <= i,
            state_changes <= i,
            failed_transitions <= i,
            updates == seqs::count_where(keys, a, i as int),
            state_changes == seqs::count_where(keys, b, i as int),
            failed_transitions == seqs::count_where(keys, c, i as int),
    {
        let row = &current.entries[i].1;
        assert(keys[i as int] == current.entries@[i as int].0);
        if let Some(old) = previous.get(&current.entries[i].0) {
            if neighbour_observation_changed(old, row) {
                updates += 1;
            }
            if old.state != row.state {
                state_changes += 1;
            }
            if old.state & NUD_FAILED == 0 && row.state & NUD_FAILED != 0 {
                failed_transitions += 1;
            }
        }
    }
    proof {
        lemma_keys(current);
        seqs::lemma_take_all(keys);
        lemma_distinct_count(keys, a, keys.len() as int);
        lemma_distinct_count(keys, b, keys.len() as int);
        lemma_distinct_count(keys, c, keys.len() as int);
    }
    NeighbourChanges {
        additions: count_unknown(current, previous),
        removals: count_unknown(previous, current),
        updates,
        state_changes,
        failed_transitions,
    }
}

/// The last complete tables, and the changes so far.
pub struct ChangeProjector {
    pub routes: Families<Option<Distinct<RouteIdentity>>>,
    pub rules: Families<Option<Distinct<RuleRow<String>>>>,
    pub neighbours: Families<Option<Neighbours>>,
    pub totals: InventoryChangeTotals,
}

/// The last complete tables and the changes so far, as contracts speak of them.
pub ghost struct ChangeModel {
    pub routes: Families<Option<Set<RouteIdentityModel>>>,
    pub rules: Families<Option<Set<RuleRow<Seq<char>>>>>,
    pub neighbours: Families<Option<Map<NeighbourIdentity, NeighbourRow<Seq<char>>>>>,
    pub totals: InventoryChangeTotals,
}

pub open spec fn optional_set<I: RowIdentity>(set: Option<Distinct<I>>) -> Option<Set<I::V>> {
    match set {
        Some(set) => Some(set@),
        None => None,
    }
}

pub open spec fn optional_map(map: Option<Neighbours>) -> Option<
    Map<NeighbourIdentity, NeighbourRow<Seq<char>>>,
> {
    match map {
        Some(map) => Some(map@),
        None => None,
    }
}

pub open spec fn counted(total: u64, more: nat) -> u64 {
    if total + more > u64::MAX {
        u64::MAX
    } else {
        (total + more) as u64
    }
}

/// The changes with the routes of one family, if their table is complete.
pub open spec fn route_step(
    model: ChangeModel,
    family: IpFamily,
    fresh: bool,
    rows: Seq<RouteModel>,
) -> ChangeModel {
    let current = routes_upto(rows, family, rows.len() as int);
    if !fresh {
        model
    } else {
        ChangeModel {
            routes: model.routes.with(family, Some(current)),
            totals: match model.routes.of(family) {
                Some(previous) => InventoryChangeTotals {
                    route_additions: counted(
                        model.totals.route_additions,
                        missing_from(current, previous),
                    ),
                    route_removals: counted(
                        model.totals.route_removals,
                        missing_from(previous, current),
                    ),
                    ..model.totals
                },
                None => model.totals,
            },
            ..model
        }
    }
}

pub open spec fn rule_step(
    model: ChangeModel,
    family: IpFamily,
    fresh: bool,
    rows: Seq<RuleRow<Seq<char>>>,
) -> ChangeModel {
    let current = rules_upto(rows, family, rows.len() as int);
    if !fresh {
        model
    } else {
        ChangeModel {
            rules: model.rules.with(family, Some(current)),
            totals: match model.rules.of(family) {
                Some(previous) => InventoryChangeTotals {
                    rule_additions: counted(
                        model.totals.rule_additions,
                        missing_from(current, previous),
                    ),
                    rule_removals: counted(
                        model.totals.rule_removals,
                        missing_from(previous, current),
                    ),
                    ..model.totals
                },
                None => model.totals,
            },
            ..model
        }
    }
}

pub open spec fn neighbour_step(
    model: ChangeModel,
    family: IpFamily,
    fresh: bool,
    rows: Seq<NeighbourRow<Seq<char>>>,
) -> ChangeModel {
    let current = neighbours_upto(rows, family, rows.len() as int);
    if !fresh {
        model
    } else {
        ChangeModel {
            neighbours: model.neighbours.with(family, Some(current)),
            totals: match model.neighbours.of(family) {
                Some(previous) => InventoryChangeTotals {
                    neighbour_additions: counted(
                        model.totals.neighbour_additions,
                        missing_from(current.dom(), previous.dom()),
                    ),
                    neighbour_removals: counted(
                        model.totals.neighbour_removals,
                        missing_from(previous.dom(), current.dom()),
                    ),
                    neighbour_updates: counted(
                        model.totals.neighbour_updates,
                        count_both(previous, current, updated()),
                    ),
                    neighbour_state_changes: counted(
                        model.totals.neighbour_state_changes,
                        count_both(previous, current, changed_state()),
                    ),
                    neighbour_failed_transitions: counted(
                        model.totals.neighbour_failed_transitions,
                        count_both(previous, current, lost()),
                    ),
                    ..model.totals
                },
                None => model.totals,
            },
            ..model
        }
    }
}

/// The changes with the routes of both families.
pub open spec fn after_routes(
    model: ChangeModel,
    snapshot: InventorySnapshot<RouteRow>,
) -> ChangeModel {
    route_step(
        route_step(
            model,
            IpFamily::Ipv4,
            snapshot.family_health.ipv4 is Fresh,
            snapshot.rows.deep_view(),
        ),
        IpFamily::Ipv6,
        snapshot.family_health.ipv6 is Fresh,
        snapshot.rows.deep_view(),
    )
}

pub open spec fn after_rules(
    model: ChangeModel,
    snapshot: InventorySnapshot<RuleRow<String>>,
) -> ChangeModel {
    rule_step(
        rule_step(
            model,
            IpFamily::Ipv4,
            snapshot.family_health.ipv4 is Fresh,
            snapshot.rows.deep_view(),
        ),
        IpFamily::Ipv6,
        snapshot.family_health.ipv6 is Fresh,
        snapshot.rows.deep_view(),
    )
}

pub open spec fn after_neighbours(
    model: ChangeModel,
    snapshot: InventorySnapshot<NeighbourRow<String>>,
) -> ChangeModel {
    neighbour_step(
        neighbour_step(
            model,
            IpFamily::Ipv4,
            snapshot.family_health.ipv4 is Fresh,
            snapshot.rows.deep_view(),
        ),
        IpFamily::Ipv6,
        snapshot.family_health.ipv6 is Fresh,
        snapshot.rows.deep_view(),
    )
}

fn set_changes<I: RowIdentity>(previous: &Option<Distinct<I>>, current: &Distinct<I>) -> (changes: (
    u64,
    u64,
))
    requires
        previous matches Some(previous) ==> previous.wf(),
        current.wf(),
    ensures
        previous matches Some(previous) ==> changes.0 == missing_from(current@, previous@)
            && changes.1 == missing_from(previous@, current@),
        previous is None ==> changes == (0u64, 0u64),
{
    match previous {
        Some(previous) => {
            let added: u64 = current.count_missing(previous);
            let removed: u64 = previous.count_missing(current);
            (added, removed)
        },
        None => (0, 0),
    }
}

impl ChangeProjector {
    /// Every table that is kept holds each thing once.
    pub open spec fn wf(&self) -> bool {
        &&& self.routes.ipv4 matches Some(set) ==> set.wf()
        &&& self.routes.ipv6 matches Some(set) ==> set.wf()
        &&& self.rules.ipv4 matches Some(set) ==> set.wf()
        &&& self.rules.ipv6 matches Some(set) ==> set.wf()
        &&& self.neighbours.ipv4 matches Some(map) ==> map.wf()
        &&& self.neighbours.ipv6 matches Some(map) ==> map.wf()
    }

    pub open spec fn model(&self) -> ChangeModel {
        ChangeModel {
            routes: Families {
                ipv4: optional_set(self.routes.ipv4),
                ipv6: optional_set(self.routes.ipv6),
            },
            rules: Families {
                ipv4: optional_set(self.rules.ipv4),
                ipv6: optional_set(self.rules.ipv6),
            },
            neighbours: Families {
                ipv4: optional_map(self.neighbours.ipv4),
                ipv6: optional_map(self.neighbours.ipv6),
            },
            totals: self.totals,
        }
    }

    pub fn new() -> (projector: ChangeProjector)
        ensures
            projector.wf(),
            projector.model() == (ChangeModel {
                routes: Families { ipv4: None, ipv6: None },
                rules: Families { ipv4: None, ipv6: None },
                neighbours: Families { ipv4: None, ipv6: None },
                totals: InventoryChangeTotals {
                    route_additions: 0,
                    route_removals: 0,
                    rule_additions: 0,
                    rule_removals: 0,
                    neighbour_additions: 0,
                    neighbour_removals: 0,
                    neighbour_updates: 0,
                    neighbour_state_changes: 0,
                    neighbour_failed_transitions: 0,
                },
            }),
    {
        ChangeProjector {
            routes: Families { ipv4: None, ipv6: None },
            rules: Families { ipv4: None, ipv6: None },
            neighbours: Families { ipv4: None, ipv6: None },
            totals: InventoryChangeTotals {
                route_additions: 0,
                route_removals: 0,
                rule_additions: 0,
                rule_removals: 0,
                neighbour_additions: 0,
                neighbour_removals: 0,
                neighbour_updates: 0,
                neighbour_state_changes: 0,
                neighbour_failed_transitions: 0,
            },
        }
    }

    fn add_routes(&mut self, changes: (u64, u64))
        ensures
            *final(self) == (ChangeProjector {
                totals: InventoryChangeTotals {
                    route_additions: counted(old(self).totals.route_additions, changes.0 as nat),
                    route_removals: counted(old(self).totals.route_removals, changes.1 as nat),
                    ..old(self).totals
                },
                ..*old(self)
            }),
    {
        self.totals.route_additions = self.totals.route_additions.saturating_add(changes.0);
        self.totals.route_removals = self.totals.route_removals.saturating_add(changes.1);
    }

    /// Takes a table of routes.
    pub fn update_routes(&mut self, snapshot: &InventorySnapshot<RouteRow>)
        requires
            old(self).wf(),
        ensures
            final(self).wf(),
            final(self).model() == after_routes(old(self).model(), *snapshot),
    {
        if snapshot.family_health.ipv4.is_fresh() {
            let current = route_set(&snapshot.rows, IpFamily::Ipv4);
            let changes: (u64, u64) = set_changes(&self.routes.ipv4, &current);
            self.add_routes(changes);
            self.routes.ipv4 = Some(current);
        }
        if snapshot.family_health.ipv6.is_fresh() {
            let current = route_set(&snapshot.rows, IpFamily::Ipv6);
            let changes: (u64, u64) = set_changes(&self.routes.ipv6, &current);
            self.add_routes(changes);
            self.routes.ipv6 = Some(current);
        }
    }

    fn add_rules(&mut self, changes: (u64, u64))
        ensures
            *final(self) == (ChangeProjector {
                totals: InventoryChangeTotals {
                    rule_additions: counted(old(self).totals.rule_additions, changes.0 as nat),
                    rule_removals: counted(old(self).totals.rule_removals, changes.1 as nat),
                    ..old(self).totals
                },
                ..*old(self)
            }),
    {
        self.totals.rule_additions = self.totals.rule_additions.saturating_add(changes.0);
        self.totals.rule_removals = self.totals.rule_removals.saturating_add(changes.1);
    }

    /// Takes a table of rules.
    pub fn update_rules(&mut self, snapshot: &InventorySnapshot<RuleRow<String>>)
        requires
            old(self).wf(),
        ensures
            final(self).wf(),
            final(self).model() == after_rules(old(self).model(), *snapshot),
    {
        if snapshot.family_health.ipv4.is_fresh() {
            let current = rule_set(&snapshot.rows, IpFamily::Ipv4);
            let changes: (u64, u64) = set_changes(&self.rules.ipv4, &current);
            self.add_rules(changes);
            self.rules.ipv4 = Some(current);
        }
        if snapshot.family_health.ipv6.is_fresh() {
            let current = rule_set(&snapshot.rows, IpFamily::Ipv6);
            let changes: (u64, u64) = set_changes(&self.rules.ipv6, &current);
            self.add_rules(changes);
            self.rules.ipv6 = Some(current);
        }
    }

    fn add_neighbours(&mut self, changes: NeighbourChanges)
        ensures
            *final(self) == (ChangeProjector {
                totals: InventoryChangeTotals {
                    neighbour_additions: counted(
                        old(self).totals.neighbour_additions,
                        changes.additions as nat,
                    ),
                    neighbour_removals: counted(
                        old(self).totals.neighbour_removals,
                        changes.removals as nat,
                    ),
                    neighbour_updates: counted(
                        old(self).totals.neighbour_updates,
                        changes.updates as nat,
                    ),
                    neighbour_state_changes: counted(
                        old(self).totals.neighbour_state_changes,
                        changes.state_changes as nat,
                    ),
                    neighbour_failed_transitions: counted(
                        old(self).totals.neighbour_failed_transitions,
                        changes.failed_transitions as nat,
                    ),
                    ..old(self).totals
                },
                ..*old(self)
            }),
    {
        let totals = self.totals;
        self.totals.neighbour_additions = totals.neighbour_additions.saturating_add(
            changes.additions,
        );
        self.totals.neighbour_removals = totals.neighbour_removals.saturating_add(
            changes.removals,
        );
        self.totals.neighbour_updates = totals.neighbour_updates.saturating_add(changes.updates);
        self.totals.neighbour_state_changes = totals.neighbour_state_changes.saturating_add(
            changes.state_changes,
        );
        self.totals.neighbour_failed_transitions =
        totals.neighbour_failed_transitions.saturating_add(changes.failed_transitions);
    }

    /// Takes a table of neighbours.
    pub fn update_neighbours(&mut self, snapshot: &InventorySnapshot<NeighbourRow<String>>)
        requires
            old(self).wf(),
        ensures
            final(self).wf(),
            final(self).model() == after_neighbours(old(self).model(), *snapshot),
    {
        if snapshot.family_health.ipv4.is_fresh() {
            let current = neighbour_map(&snapshot.rows, IpFamily::Ipv4);
            if let Some(previous) = &self.neighbours.ipv4 {
                let changes = compare_neighbours(previous, &current);
                self.add_neighbours(changes);
            }
            self.neighbours.ipv4 = Some(current);
        }
        if snapshot.family_health.ipv6.is_fresh() {
            let current = neighbour_map(&snapshot.rows, IpFamily::Ipv6);
            if let Some(previous) = &self.neighbours.ipv6 {
                let changes = compare_neighbours(previous, &current);
                self.add_neighbours(changes);
            }
            self.neighbours.ipv6 = Some(current);
        }
    }
}

/// Routes, rules and neighbours of one moment.
#[derive(Clone, PartialEq, Eq)]
pub struct NetworkRouteSnapshot {
    pub sequence: u64,
    pub elapsed: Nanos,
    pub collection_duration: Nanos,
    pub routes: InventorySnapshot<RouteRow>,
    pub rules: InventorySnapshot<RuleRow<String>>,
    pub neighbours: InventorySnapshot<NeighbourRow<String>>,
    pub changes: InventoryChangeTotals,
}

/// What is kept of the tables from one snapshot to the next.
pub struct NetworkRouteProjector {
    pub route: InventoryProjector<RouteRow>,
    pub rule: InventoryProjector<RuleRow<String>>,
    pub neighbour: InventoryProjector<NeighbourRow<String>>,
    pub changes: ChangeProjector,
}

pub open spec fn time_sum(a: Nanos, b: Nanos) -> Nanos {
    if a + b > Nanos::MAX {
        Nanos::MAX
    } else {
        (a + b) as Nanos
    }
}

/// The changes after a snapshot.
pub open spec fn changes_after(model: ChangeModel, snapshot: NetworkRouteSnapshot) -> ChangeModel {
    after_neighbours(
        after_rules(after_routes(model, snapshot.routes), snapshot.rules),
        snapshot.neighbours,
    )
}

impl NetworkRouteProjector {
    pub fn new() -> (projector: NetworkRouteProjector)
        ensures
            projector.changes.wf(),
            projector.changes.model().routes == (Families {
                ipv4: None::<Set<RouteIdentityModel>>,
                ipv6: None,
            }),
            projector.changes.model().rules == (Families {
                ipv4: None::<Set<RuleRow<Seq<char>>>>,
                ipv6: None,
            }),
            projector.changes.model().neighbours == (Families {
                ipv4: None::<Map<NeighbourIdentity, NeighbourRow<Seq<char>>>>,
                ipv6: None,
            }),
            projector.route.kept(IpFamily::Ipv4) is None,
            projector.route.kept(IpFamily::Ipv6) is None,
            projector.rule.kept(IpFamily::Ipv4) is None,
            projector.rule.kept(IpFamily::Ipv6) is None,
            projector.neighbour.kept(IpFamily::Ipv4) is None,
            projector.neighbour.kept(IpFamily::Ipv6) is None,
    {
        NetworkRouteProjector {
            route: InventoryProjector::new(),
            rule: InventoryProjector::new(),
            neighbour: InventoryProjector::new(),
            changes: ChangeProjector::new(),
        }
    }

    /// Shows what was read, with the changes so far.
    pub fn project(
        &mut self,
        sequence: u64,
        routes: FamilyAttempt<RouteRow>,
        rules: FamilyAttempt<RuleRow<String>>,
        neighbours: FamilyAttempt<NeighbourRow<String>>,
    ) -> (snapshot: NetworkRouteSnapshot)
        requires
            old(self).changes.wf(),
        ensures
            final(self).changes.wf(),
            snapshot.sequence == sequence,
            snapshot.elapsed == neighbours.attempted_at,
            snapshot.collection_duration == time_sum(
                time_sum(routes.collection_duration, rules.collection_duration),
                neighbours.collection_duration,
            ),
            network_route::is_inventory(
                snapshot.routes,
                network_route::family_of(
                    old(self).route.kept(IpFamily::Ipv4),
                    routes.attempted_at,
                    routes.ipv4,
                ),
                network_route::family_of(
                    old(self).route.kept(IpFamily::Ipv6),
                    routes.attempted_at,
                    routes.ipv6,
                ),
                routes,
            ),
            network_route::is_inventory(
                snapshot.rules,
                network_route::family_of(
                    old(self).rule.kept(IpFamily::Ipv4),
                    rules.attempted_at,
                    rules.ipv4,
                ),
                network_route::family_of(
                    old(self).rule.kept(IpFamily::Ipv6),
                    rules.attempted_at,
                    rules.ipv6,
                ),
                rules,
            ),
            network_route::is_inventory(
                snapshot.neighbours,
                network_route::family_of(
                    old(self).neighbour.kept(IpFamily::Ipv4),
                    neighbours.attempted_at,
                    neighbours.ipv4,
                ),
                network_route::family_of(
                    old(self).neighbour.kept(IpFamily::Ipv6),
                    neighbours.attempted_at,
                    neighbours.ipv6,
                ),
                neighbours,
            ),
            final(self).changes.model() == changes_after(old(self).changes.model(), snapshot),
            snapshot.changes == final(self).changes.totals,
            final(self).route.kept(IpFamily::Ipv4) == network_route::last_after(
                old(self).route.kept(IpFamily::Ipv4),
                routes.attempted_at,
                routes.ipv4,
            ),
            final(self).route.kept(IpFamily::Ipv6) == network_route::last_after(
                old(self).route.kept(IpFamily::Ipv6),
                routes.attempted_at,
                routes.ipv6,
            ),
            final(self).rule.kept(IpFamily::Ipv4) == network_route::last_after(
                old(self).rule.kept(IpFamily::Ipv4),
                rules.attempted_at,
                rules.ipv4,
            ),
            final(self).rule.kept(IpFamily::Ipv6) == network_route::last_after(
                old(self).rule.kept(IpFamily::Ipv6),
                rules.attempted_at,
                rules.ipv6,
            ),
            final(self).neighbour.kept(IpFamily::Ipv4) == network_route::last_after(
                old(self).neighbour.kept(IpFamily::Ipv4),
                neighbours.attempted_at,
                neighbours.ipv4,
            ),
            final(self).neighbour.kept(IpFamily::Ipv6) == network_route::last_after(
                old(self).neighbour.kept(IpFamily::Ipv6),
                neighbours.attempted_at,
                neighbours.ipv6,
            ),
    {
        let elapsed: Nanos = neighbours.attempted_at;
        let collection_duration: Nanos = routes.collection_duration.saturating_add(
            rules.collection_duration,
        ).saturating_add(neighbours.collection_duration);
        let route_table = self.route.project(routes);
        let rule_table = self.rule.project(rules);
        let neighbour_table = self.neighbour.project(neighbours);
        self.changes.update_routes(&route_table);
        self.changes.update_rules(&rule_table);
        self.changes.update_neighbours(&neighbour_table);
        NetworkRouteSnapshot {
            sequence,
            elapsed,
            collection_duration,
            routes: route_table,
            rules: rule_table,
            neighbours: neighbour_table,
            changes: self.changes.totals,
        }
    }
}

/// Routes that differ only in the name of an interface, in what follows the state of a
/// link, in metrics, in flags or in what ages are the same route.
pub proof fn ageing_is_no_change(a: RouteModel, b: RouteModel)
    requires
        a.nexthops.len() == b.nexthops.len(),
        forall|i: int|
            0 <= i < a.nexthops.len() ==> nexthop_identity(#[trigger] a.nexthops[i])
                == nexthop_identity(b.nexthops[i]),
        (RouteModel {
            flags: b.flags,
            nexthops: b.nexthops,
            nexthops_truncated: b.nexthops_truncated,
            metrics: b.metrics,
            cache: b.cache,
            expires: b.expires,
            unsupported_encapsulation: b.unsupported_encapsulation,
            ..a
        }) == b,
    ensures
        route_identity(a) == route_identity(b),
{
    assert(route_identity(a).nexthops =~= route_identity(b).nexthops);
}

/// A table of a family that is not complete changes nothing: neither the totals nor
/// what the next complete table is compared with.
pub proof fn incomplete_tables_change_nothing(
    model: ChangeModel,
    family: IpFamily,
    routes: Seq<RouteModel>,
    rules: Seq<RuleRow<Seq<char>>>,
    neighbours: Seq<NeighbourRow<Seq<char>>>,
)
    ensures
        route_step(model, family, false, routes) == model,
        rule_step(model, family, false, rules) == model,
        neighbour_step(model, family, false, neighbours) == model,
{
}

/// The same complete table twice counts nothing.
pub proof fn equal_tables_count_nothing(
    model: ChangeModel,
    family: IpFamily,
    routes: Seq<RouteModel>,
    rules: Seq<RuleRow<Seq<char>>>,
    neighbours: Seq<NeighbourRow<Seq<char>>>,
)
    ensures
        ({
            let once = route_step(model, family, true, routes);
            route_step(once, family, true, routes) == once
        }),
        ({
            let once = rule_step(model, family, true, rules);
            rule_step(once, family, true, rules) == once
        }),
        ({
            let once = neighbour_step(model, family, true, neighbours);
            neighbour_step(once, family, true, neighbours) == once
        }),
{
    let a = routes_upto(routes, family, routes.len() as int);
    assert(a.filter(|member: RouteIdentityModel| !a.contains(member)) =~= Set::empty());
    let b = rules_upto(rules, family, rules.len() as int);
    assert(b.filter(|member: RuleRow<Seq<char>>| !b.contains(member)) =~= Set::empty());
    let c = neighbours_upto(neighbours, family, neighbours.len() as int);
    assert(c.dom().filter(|member: NeighbourIdentity| !c.dom().contains(member))
        =~= Set::empty());
    assert(c.dom().filter(both_with(c, c, updated())) =~= Set::empty());
    assert(c.dom().filter(both_with(c, c, changed_state())) =~= Set::empty());
    assert(c.dom().filter(both_with(c, c, lost())) =~= Set::empty());
}

} // verus!
