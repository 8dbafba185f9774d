//! Which processes hold which sockets: what a scan found is kept while the sockets and
//! the processes are the same.
use crate::model::Nanos;
use crate::sockets;
use crate::sockets::{
    copy_processes, project_process_coverage, ProcessModel, ProcessScanStatus, SocketIdentity,
    SocketProcess, SocketProcessCoverage,
};
use crate::series;
use vstd::prelude::*;

verus! {

/// How often all sockets are looked for again, in nanoseconds.
pub const REFRESH_INTERVAL: Nanos = 10_000_000_000;

/// How soon a socket that is new may be looked for.
pub const NEW_SOCKET_INTERVAL: Nanos = 2_000_000_000;

/// How long the result of a scan is kept.
pub const MAX_CACHE_AGE: Nanos = 20_000_000_000;

/// Whether an identity is in a list.
pub fn holds(identities: &Vec<SocketIdentity>, wanted: &SocketIdentity) -> (found: bool)
    ensures
        found == identities@.contains(*wanted),
{
    for i in 0..identities.len()
        invariant
            forall|j: int| 0 <= j < i ==> identities@[j] != *wanted,
    {
        if identities[i].same(wanted) {
            assert(identities@[i as int] == *wanted);
            return true;
        }
    }
    false
}

pub fn copy_identities(identities: &Vec<SocketIdentity>) -> (copy: Vec<SocketIdentity>)
    ensures
        copy@ == identities@,
{
    let mut copy: Vec<SocketIdentity> = Vec::new();
    for i in 0..identities.len()
        invariant
            copy@ == identities@.take(i as int),
    {
        copy.push(identities[i]);
        assert(copy@ =~= identities@.take(i + 1));
    }
    assert(copy@ =~= identities@);
    copy
}

/// Values by the identity of a socket.
pub struct IdentityMap<V> {
    pub entries: Vec<(SocketIdentity, V)>,
}

/// What the first `n` entries say: a later one replaces an earlier one.
pub open spec fn entries_upto<V: DeepView>(entries: Seq<(SocketIdentity, V)>, n: int) -> Map<
    SocketIdentity,
    V::V,
>
    decreases n,
{
    if n <= 0 {
        Map::empty()
    } else {
        entries_upto(entries, n - 1).insert(entries[n - 1].0, entries[n - 1].1.deep_view())
    }
}

proof fn lemma_entries_prefix<V: DeepView>(
    a: Seq<(SocketIdentity, V)>,
    b: Seq<(SocketIdentity, V)>,
    n: int,
)
    requires
        n <= a.len(),
        n <= b.len(),
        forall|i: int| 0 <= i < n ==> a[i] == b[i],
    ensures
        entries_upto(a, n) == entries_upto(b, n),
    decreases n,
{
    if n > 0 {
        lemma_entries_prefix(a, b, n - 1);
    }
}

/// The last entry of an identity gives way to a new one.
proof fn lemma_entry_replaced<V: DeepView>(
    entries: Seq<(SocketIdentity, V)>,
    k: int,
    entry: (SocketIdentity, V),
    n: int,
)
    requires
        0 <= k < n <= entries.len(),
        entries[k].0 == entry.0,
        forall|j: int| k < j < n ==> (#[trigger] entries[j]).0 != entry.0,
    ensures
        entries_upto(entries.update(k, entry), n) == entries_upto(entries, n).insert(
            entry.0,
            entry.1.deep_view(),
        ),
    decreases n,
{
    let after = entries.update(k, entry);
    if k == n - 1 {
        lemma_entries_prefix(entries, after, n - 1);
    } else {
        lemma_entry_replaced(entries, k, entry, n - 1);
        assert(after[n - 1] == entries[n - 1]);
    }
    assert(entries_upto(after, n) =~= entries_upto(entries, n).insert(
        entry.0,
        entry.1.deep_view(),
    ));
}

impl<V: DeepView> View for IdentityMap<V> {
    type V = Map<SocketIdentity, V::V>;

    open spec fn view(&self) -> Map<SocketIdentity, V::V> {
        entries_upto(self.entries@, self.entries@.len() as int)
    }
}

impl<V: DeepView> IdentityMap<V> {
    pub fn new() -> (map: IdentityMap<V>)
        ensures
            map@ == Map::<SocketIdentity, V::V>::empty(),
    {
        IdentityMap { entries: Vec::new() }
    }

    /// Puts a value in, in place of the one that was there.
    pub fn insert(&mut self, identity: SocketIdentity, value: V)
        ensures
            final(self)@ == old(self)@.insert(identity, value.deep_view()),
    {
        let ghost before = self.entries@;
        let mut n: usize = self.entries.len();
        while n > 0
            invariant
                n <= before.len(),
                before == self.entries@,
                *self == *old(self),
                forall|j: int| n <= j < before.len() ==> (#[trigger] before[j]).0 != identity,
            decreases n,
        {
            if self.entries[n - 1].0.same(&identity) {
                proof {
                    lemma_entry_replaced(
                        before,
                        n - 1,
                        (identity, value),
                        before.len() as int,
                    );
                }
                self.entries[n - 1] = (identity, value);
                return ;
            }
            n -= 1;
        }
        self.entries.push((identity, value));
        proof {
            lemma_entries_prefix(before, self.entries@, before.len() as int);
        }
    }

    pub fn get(&self, identity: &SocketIdentity) -> (value: Option<&V>)
        ensures
            match value {
                Some(value) => self@.contains_key(*identity) && self@[*identity]
                    == value.deep_view(),
                None => !self@.contains_key(*identity),
            },
    {
        let ghost all = self.entries@;
        let mut n: usize = self.entries.len();
        while n > 0
            invariant
                n <= all.len(),
                all == self.entries@,
                entries_upto(all, n as int).contains_key(*identity) == self@.contains_key(
                    *identity,
                ),
                self@.contains_key(*identity) ==> entries_upto(all, n as int)[*identity]
                    == self@[*identity],
            decreases n,
        {
            if self.entries[n - 1].0.same(identity) {
                return Some(&self.entries[n - 1].1);
            }
            n -= 1;
        }
        None
    }
}

impl IdentityMap<Vec<SocketProcess>> {
    pub fn copy(&self) -> (map: IdentityMap<Vec<SocketProcess>>)
        ensures
            map@ == self@,
    {
        let mut map = IdentityMap::new();
        for i in 0..self.entries.len()
            invariant
                map@ == entries_upto(self.entries@, i as int),
        {
            map.insert(self.entries[i].0, copy_processes(&self.entries[i].1));
        }
        map
    }

    /// Keeps what the list holds and the other list does not.
    fn retain(&mut self, current: &Vec<SocketIdentity>, gone: &Vec<SocketIdentity>)
        ensures
            final(self)@ == kept(old(self)@, current@, gone@),
    {
        let mut map = IdentityMap::new();
        proof {
            assert(kept(entries_upto(self.entries@, 0), current@, gone@) =~= map@);
        }
        for i in 0..self.entries.len()
            invariant
                *self == *old(self),
                map@ == kept(entries_upto(self.entries@, i as int), current@, gone@),
        {
            let identity = self.entries[i].0;
            if holds(current, &identity) && !holds(gone, &identity) {
                map.insert(identity, copy_processes(&self.entries[i].1));
            }
            assert(map@ =~= kept(entries_upto(self.entries@, i + 1), current@, gone@));
        }
        *self = map;
    }
}

/// What is left of a map: what is current and not gone.
pub open spec fn kept<V>(
    map: Map<SocketIdentity, V>,
    current: Seq<SocketIdentity>,
    gone: Seq<SocketIdentity>,
) -> Map<SocketIdentity, V> {
    Map::new(
        |identity: SocketIdentity|
            map.contains_key(identity) && current.contains(identity) && !gone.contains(identity),
        |identity: SocketIdentity| map[identity],
    )
}

/// What a scan for the processes that hold sockets found, by the inode of the socket.
pub struct ProcessScan {
    pub status: ProcessScanStatus,
    pub found: Vec<(u32, Vec<SocketProcess>)>,
    pub scanned_processes: usize,
    pub scanned_fds: usize,
}

/// What the first `n` findings say of an inode: the first that speaks of it counts.
pub open spec fn found_upto(
    found: Seq<(u32, Vec<SocketProcess>)>,
    inode: u32,
    n: int,
) -> Option<Seq<ProcessModel>>
    decreases n,
{
    if n <= 0 {
        None
    } else {
        match found_upto(found, inode, n - 1) {
            Some(processes) => Some(processes),
            None => if found[n - 1].0 == inode {
                Some(found[n - 1].1.deep_view())
            } else {
                None
            },
        }
    }
}

proof fn lemma_found_stays(found: Seq<(u32, Vec<SocketProcess>)>, inode: u32, m: int, n: int)
    requires
        0 <= m <= n,
        found_upto(found, inode, m) is Some,
    ensures
        found_upto(found, inode, n) == found_upto(found, inode, m),
    decreases n,
{
    if m < n {
        lemma_found_stays(found, inode, m, n - 1);
    }
}

impl ProcessScan {
    /// The processes that hold the socket with an inode.
    pub open spec fn owners_of(self, inode: u32) -> Seq<ProcessModel> {
        match found_upto(self.found@, inode, self.found@.len() as int) {
            Some(processes) => processes,
            None => Seq::empty(),
        }
    }

    pub fn owners(&self, inode: u32) -> (processes: Vec<SocketProcess>)
        ensures
            processes.deep_view() == self.owners_of(inode),
    {
        for i in 0..self.found.len()
            invariant
                found_upto(self.found@, inode, i as int) is None,
        {
            if self.found[i].0 == inode {
                proof {
                    lemma_found_stays(self.found@, inode, i + 1, self.found@.len() as int);
                }
                return copy_processes(&self.found[i].1);
            }
        }
        let none: Vec<SocketProcess> = Vec::new();
        assert(none.deep_view() =~= Seq::<ProcessModel>::empty());
        none
    }
}

/// The sockets that a scan was asked for, and when.
pub struct ScanRequest {
    pub targets: Vec<SocketIdentity>,
    pub started: Nanos,
}

/// Who holds which socket, as far as it is known.
pub struct OwnerSnapshot {
    pub owners: IdentityMap<Vec<SocketProcess>>,
    pub coverage: SocketProcessCoverage,
    pub age: Option<Nanos>,
    pub refreshing: bool,
    pub scanned_processes: usize,
    pub scanned_fds: usize,
}

/// The processes that a map has for a socket.
pub open spec fn processes_of(
    owners: Map<SocketIdentity, Seq<ProcessModel>>,
    identity: SocketIdentity,
) -> Seq<ProcessModel> {
    if owners.contains_key(identity) {
        owners[identity]
    } else {
        Seq::empty()
    }
}

impl OwnerSnapshot {
    /// No process is known, and none is missing.
    pub fn empty() -> (snapshot: OwnerSnapshot)
        ensures
            snapshot.owners@ == Map::<SocketIdentity, Seq<ProcessModel>>::empty(),
            snapshot.coverage == SocketProcessCoverage::Complete,
            snapshot.age is None,
            !snapshot.refreshing,
            snapshot.scanned_processes == 0,
            snapshot.scanned_fds == 0,
    {
        OwnerSnapshot {
            owners: IdentityMap::new(),
            coverage: SocketProcessCoverage::Complete,
            age: None,
            refreshing: false,
            scanned_processes: 0,
            scanned_fds: 0,
        }
    }

    pub fn owners(&self, identity: &SocketIdentity) -> (processes: Vec<SocketProcess>)
        ensures
            processes.deep_view() == processes_of(self.owners@, *identity),
    {
        match self.owners.get(identity) {
            Some(processes) => copy_processes(processes),
            None => {
                let none: Vec<SocketProcess> = Vec::new();
                assert(none.deep_view() =~= Seq::<ProcessModel>::empty());
                none
            },
        }
    }
}

/// What the last scan found.
pub struct OwnerCache {
    pub entries: IdentityMap<Vec<SocketProcess>>,
    pub observed_at: Option<Nanos>,
    pub last_request: Option<Nanos>,
    pub coverage: SocketProcessCoverage,
    pub scanned_processes: usize,
    pub scanned_fds: usize,
}

/// What is taken over of a scan: the sockets that were asked for and are still there.
pub open spec fn accepted(
    targets: Seq<SocketIdentity>,
    scan: ProcessScan,
    current: Seq<SocketIdentity>,
) -> Map<SocketIdentity, Seq<ProcessModel>> {
    Map::new(
        |identity: SocketIdentity| targets.contains(identity) && current.contains(identity),
        |identity: SocketIdentity| scan.owners_of(identity.inode),
    )
}

/// Whether a socket is there of which nothing is known.
pub open spec fn any_unknown(
    entries: Map<SocketIdentity, Seq<ProcessModel>>,
    current: Seq<SocketIdentity>,
) -> bool {
    exists|i: int| 0 <= i < current.len() && !entries.contains_key(#[trigger] current[i])
}

impl OwnerCache {
    pub fn new() -> (cache: OwnerCache)
        ensures
            cache.entries@ == Map::<SocketIdentity, Seq<ProcessModel>>::empty(),
            cache.observed_at is None,
            cache.last_request is None,
            cache.coverage == SocketProcessCoverage::Pending,
            cache.scanned_processes == 0,
            cache.scanned_fds == 0,
    {
        OwnerCache {
            entries: IdentityMap::new(),
            observed_at: None,
            last_request: None,
            coverage: SocketProcessCoverage::Pending,
            scanned_processes: 0,
            scanned_fds: 0,
        }
    }

    /// Takes over what a scan found. A socket has to be there before and after the
    /// scan: another one may have got its inode.
    pub fn accept(
        &mut self,
        request: &ScanRequest,
        scan: &ProcessScan,
        current: &Vec<SocketIdentity>,
    )
        ensures
            final(self).entries@ == accepted(request.targets@, *scan, current@),
            final(self).observed_at == Some(request.started),
            final(self).last_request == old(self).last_request,
            final(self).coverage == sockets::coverage_of(scan.status),
            final(self).scanned_processes == scan.scanned_processes,
            final(self).scanned_fds == scan.scanned_fds,
    {
        let mut entries = IdentityMap::new();
        proof {
            assert(entries@ =~= accepted(request.targets@.take(0), *scan, current@));
        }
        for i in 0..request.targets.len()
            invariant
                entries@ == accepted(request.targets@.take(i as int), *scan, current@),
        {
            let identity = request.targets[i];
            proof {
                let before = request.targets@.take(i as int);
                let after = request.targets@.take(i + 1);
                assert(after[i as int] == identity);
                assert forall|id: SocketIdentity| #[trigger]
                    after.contains(id) == (before.contains(id) || id == identity) by {
                    if before.contains(id) {
                        let k = choose|k: int| 0 <= k < before.len() && before[k] == id;
                        assert(after[k] == id);
                    }
                    if after.contains(id) && id != identity {
                        let k = choose|k: int| 0 <= k < after.len() && after[k] == id;
                        assert(before[k] == id);
                    }
                }
            }
            if holds(current, &identity) {
                entries.insert(identity, scan.owners(identity.inode));
            }
            assert(entries@ =~= accepted(request.targets@.take(i + 1), *scan, current@));
        }
        assert(request.targets@.take(request.targets@.len() as int) =~= request.targets@);
        self.entries = entries;
        self.observed_at = Some(request.started);
        self.coverage = project_process_coverage(scan.status);
        self.scanned_processes = scan.scanned_processes;
        self.scanned_fds = scan.scanned_fds;
    }

    pub open spec fn expired(&self, now: Nanos) -> bool {
        self.observed_at matches Some(at) && series::since(now, at) >= MAX_CACHE_AGE
    }

    /// Forgets what is too old, the sockets that are not there any more, and those of
    /// which a process is gone.
    pub fn reconcile(
        &mut self,
        current: &Vec<SocketIdentity>,
        now: Nanos,
        gone: &Vec<SocketIdentity>,
    )
        ensures
            final(self).entries@ == if old(self).expired(now) {
                Map::empty()
            } else {
                kept(old(self).entries@, current@, gone@)
            },
            final(self).observed_at == old(self).observed_at,
            final(self).last_request == old(self).last_request,
            final(self).coverage == old(self).coverage,
            final(self).scanned_processes == old(self).scanned_processes,
            final(self).scanned_fds == old(self).scanned_fds,
    {
        let expired: bool = match self.observed_at {
            Some(at) => now >= at && now - at >= MAX_CACHE_AGE,
            None => false,
        };
        if expired {
            self.entries = IdentityMap::new();
        } else {
            self.entries.retain(current, gone);
        }
    }

    fn misses_any(&self, current: &Vec<SocketIdentity>) -> (missing: bool)
        ensures
            missing == any_unknown(self.entries@, current@),
    {
        for i in 0..current.len()
            invariant
                forall|j: int| 0 <= j < i ==> self.entries@.contains_key(#[trigger] current@[j]),
        {
            if self.entries.get(&current[i]).is_none() {
                return true;
            }
        }
        false
    }

    pub open spec fn is_due(&self, current: Seq<SocketIdentity>, now: Nanos) -> bool {
        &&& current.len() > 0
        &&& match self.last_request {
            None => true,
            Some(last) => {
                let elapsed = series::since(now, last);
                elapsed >= REFRESH_INTERVAL || (elapsed >= NEW_SOCKET_INTERVAL && any_unknown(
                    self.entries@,
                    current,
                ))
            },
        }
    }

    /// Whether it is time for the next scan: sockets that are new are looked for
    /// together, and sooner than the others are looked for again.
    pub fn due(&self, current: &Vec<SocketIdentity>, now: Nanos) -> (due: bool)
        ensures
            due == self.is_due(current@, now),
    {
        if current.len() == 0 {
            return false;
        }
        match self.last_request {
            None => true,
            Some(last) => {
                let elapsed: Nanos = if now >= last {
                    now - last
                } else {
                    0
                };
                elapsed >= REFRESH_INTERVAL || (elapsed >= NEW_SOCKET_INTERVAL
                    && self.misses_any(current))
            },
        }
    }

    pub open spec fn shown_coverage(&self, current: Seq<SocketIdentity>) -> SocketProcessCoverage {
        if current.len() == 0 {
            SocketProcessCoverage::Complete
        } else if self.coverage == SocketProcessCoverage::Complete && any_unknown(
            self.entries@,
            current,
        ) {
            SocketProcessCoverage::Pending
        } else {
            self.coverage
        }
    }

    pub fn snapshot(&self, current: &Vec<SocketIdentity>, now: Nanos, refreshing: bool) -> (snapshot:
        OwnerSnapshot)
        ensures
            snapshot.owners@ == self.entries@,
            snapshot.coverage == self.shown_coverage(current@),
            snapshot.age == match self.observed_at {
                Some(at) => Some(series::since(now, at)),
                None => None,
            },
            snapshot.refreshing == refreshing,
            snapshot.scanned_processes == self.scanned_processes,
            snapshot.scanned_fds == self.scanned_fds,
    {
        let coverage = if current.len() == 0 {
            SocketProcessCoverage::Complete
        } else if self.coverage.is_complete() && self.misses_any(current) {
            SocketProcessCoverage::Pending
        } else {
            self.coverage
        };
        OwnerSnapshot {
            owners: self.entries.copy(),
            coverage,
            age: match self.observed_at {
                Some(at) => Some(
                    if now >= at {
                        now - at
                    } else {
                        0
                    },
                ),
                None => None,
            },
            refreshing,
            scanned_processes: self.scanned_processes,
            scanned_fds: self.scanned_fds,
        }
    }
}

/// What the worker that scans has to say.
pub enum Reply {
    Nothing,
    Stopped,
    Scanned { request: ScanRequest, scan: ProcessScan },
}

/// What is known of the worker that scans: at most one scan is asked for at a time, and
/// nobody waits for it.
pub struct OwnerService {
    pub available: bool,
    pub in_flight: bool,
    pub cache: OwnerCache,
}

impl OwnerService {
    pub fn new() -> (service: OwnerService)
        ensures
            service.available,
            !service.in_flight,
            service.cache.entries@ == Map::<SocketIdentity, Seq<ProcessModel>>::empty(),
            service.cache.observed_at is None,
            service.cache.last_request is None,
            service.cache.coverage == SocketProcessCoverage::Pending,
            service.cache.scanned_processes == 0,
            service.cache.scanned_fds == 0,
    {
        OwnerService { available: true, in_flight: false, cache: OwnerCache::new() }
    }

    /// Takes what the worker said. Without a worker nothing more can be known.
    pub fn receive(&mut self, reply: Reply, current: &Vec<SocketIdentity>)
        ensures
            match reply {
                Reply::Nothing => *final(self) == *old(self),
                Reply::Stopped => {
                    &&& !final(self).available
                    &&& !final(self).in_flight
                    &&& final(self).cache.entries@ == Map::<SocketIdentity, Seq<ProcessModel>>::empty()
                    &&& final(self).cache.coverage == SocketProcessCoverage::Unavailable
                    &&& final(self).cache.observed_at == old(self).cache.observed_at
                    &&& final(self).cache.last_request == old(self).cache.last_request
                    &&& final(self).cache.scanned_processes == old(self).cache.scanned_processes
                    &&& final(self).cache.scanned_fds == old(self).cache.scanned_fds
                },
                Reply::Scanned { request, scan } => {
                    &&& final(self).available == old(self).available
                    &&& !final(self).in_flight
                    &&& final(self).cache.entries@ == accepted(request.targets@, scan, current@)
                    &&& final(self).cache.observed_at == Some(request.started)
                    &&& final(self).cache.last_request == old(self).cache.last_request
                    &&& final(self).cache.coverage == sockets::coverage_of(scan.status)
                    &&& final(self).cache.scanned_processes == scan.scanned_processes
                    &&& final(self).cache.scanned_fds == scan.scanned_fds
                },
            },
    {
        match reply {
            Reply::Nothing => {},
            Reply::Stopped => {
                self.available = false;
                self.in_flight = false;
                self.cache.entries = IdentityMap::new();
                self.cache.coverage = SocketProcessCoverage::Unavailable;
            },
            Reply::Scanned { request, scan } => {
                self.in_flight = false;
                self.cache.accept(&request, &scan, current);
            },
        }
    }

    pub open spec fn wants_scan(&self, current: Seq<SocketIdentity>, now: Nanos) -> bool {
        !self.in_flight && self.available && self.cache.is_due(current, now)
    }

    /// The scan to ask for, if it is time for one and none is under way.
    pub fn next_request(&self, current: &Vec<SocketIdentity>, now: Nanos) -> (request: Option<
        ScanRequest,
    >)
        ensures
            match request {
                Some(request) => self.wants_scan(current@, now) && request.targets@ == current@
                    && request.started == now,
                None => !self.wants_scan(current@, now),
            },
    {
        if !self.in_flight && self.available && self.cache.due(current, now) {
            Some(ScanRequest { targets: copy_identities(current), started: now })
        } else {
            None
        }
    }

    /// The worker took a request.
    pub fn requested(&mut self, now: Nanos)
        ensures
            final(self).available == old(self).available,
            final(self).in_flight,
            final(self).cache == (OwnerCache { last_request: Some(now), ..old(self).cache }),
    {
        self.in_flight = true;
        self.cache.last_request = Some(now);
    }

    pub fn snapshot(&self, current: &Vec<SocketIdentity>, now: Nanos) -> (snapshot: OwnerSnapshot)
        ensures
            snapshot.owners@ == self.cache.entries@,
            snapshot.coverage == self.cache.shown_coverage(current@),
            snapshot.age == match self.cache.observed_at {
                Some(at) => Some(series::since(now, at)),
                None => None,
            },
            snapshot.refreshing == self.in_flight,
            snapshot.scanned_processes == self.cache.scanned_processes,
            snapshot.scanned_fds == self.cache.scanned_fds,
    {
        self.cache.snapshot(current, now, self.in_flight)
    }
}

/// A socket that got the inode of another one never gets the processes that were
/// found for that one: what a scan found goes to sockets with the identity that was
/// asked for, and what is kept belongs to sockets that are there.
pub proof fn owners_are_never_transferred(
    targets: Seq<SocketIdentity>,
    scan: ProcessScan,
    entries: Map<SocketIdentity, Seq<ProcessModel>>,
    current: Seq<SocketIdentity>,
    gone: Seq<SocketIdentity>,
    identity: SocketIdentity,
)
    ensures
        !targets.contains(identity) ==> processes_of(accepted(targets, scan, current), identity)
            == Seq::<ProcessModel>::empty(),
        !current.contains(identity) ==> processes_of(accepted(targets, scan, current), identity)
            == Seq::<ProcessModel>::empty(),
        !entries.contains_key(identity) ==> processes_of(kept(entries, current, gone), identity)
            == Seq::<ProcessModel>::empty(),
        !current.contains(identity) || gone.contains(identity) ==> processes_of(
            kept(entries, current, gone),
            identity,
        ) == Seq::<ProcessModel>::empty(),
{
}

} // verus!
