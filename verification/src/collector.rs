//! One collection cycle: which sources are read, in which order, what is taken from
//! a cache, and what the cycle hands on.
use crate::catalog;
use crate::catalog::{CatalogModel, MetricCatalog, ProviderSample, SampleModel};
use crate::configuration;
use crate::diagnostics;
use crate::diagnostics::error_sample;
use crate::model::{MonitorErrorCode, Nanos};
use crate::netfilter::{IPTABLES_IPV4, IPTABLES_IPV6, NFT_RULESET};
use crate::nic;
use crate::nic::{
    NicCollection, NicReadingsCache, NicSettingsCache, ETHTOOL_LINK_TEXT, ETHTOOL_TEXT, SYSFS_NIC,
};
use crate::qdisc::{TC_JSON, TC_NETLINK};
use crate::seqs;
use crate::text;
use crate::text::{comes_before, same_text};
use crate::translate::{
    CollectionTiming, PROC_CONNTRACK, PROC_INTERRUPTS, PROC_NETSTAT, PROC_NET_DEV, PROC_SNMP,
    PROC_SNMP6, PROC_SOCKSTAT, PROC_SOCKSTAT6, PROC_SOFTIRQS, PROC_SOFTNET, PROC_SYS_NET_CORE,
    PROC_SYS_NET_IPV4, RTNETLINK_LINK, SYSFS_LINK,
};
use vstd::prelude::*;

verus! {

pub const CONFIG_REFRESH_INTERVAL: Nanos = 30_000_000_000;

pub const RULES_REFRESH_INTERVAL: Nanos = 10_000_000_000;

pub const DEVICE_REFRESH_INTERVAL: Nanos = 5_000_000_000;

/// Sources that are read together.
#[derive(Clone, Copy, Debug, PartialEq, Eq, Structural)]
pub enum Group {
    Configuration,
    Protocols,
    Sockets,
    Conntrack,
    Rules,
    Softnet,
    Softirq,
    Hardirq,
    Tc,
    Links,
    Nic,
}

/// Whether a group is read, and whether it is read in every cycle.
#[derive(Clone, Copy, Debug, PartialEq, Eq, Structural)]
pub struct GroupFocus {
    pub needed: bool,
    pub foreground: bool,
}

/// What the collection is for.
#[derive(Clone, Copy, Debug, PartialEq, Eq, Structural)]
pub struct CollectionFocus {
    pub configuration: GroupFocus,
    pub protocols: GroupFocus,
    pub sockets: GroupFocus,
    pub conntrack: GroupFocus,
    pub rules: GroupFocus,
    pub softnet: GroupFocus,
    pub softirq: GroupFocus,
    pub hardirq: GroupFocus,
    pub tc: GroupFocus,
    pub links: GroupFocus,
    pub nic: GroupFocus,
    /// Whether everything is shown, also what cannot be read.
    pub all: bool,
}

impl CollectionFocus {
    pub open spec fn of_group(self, group: Group) -> GroupFocus {
        match group {
            Group::Configuration => self.configuration,
            Group::Protocols => self.protocols,
            Group::Sockets => self.sockets,
            Group::Conntrack => self.conntrack,
            Group::Rules => self.rules,
            Group::Softnet => self.softnet,
            Group::Softirq => self.softirq,
            Group::Hardirq => self.hardirq,
            Group::Tc => self.tc,
            Group::Links => self.links,
            Group::Nic => self.nic,
        }
    }

    pub open spec fn is_needed(self, group: Group) -> bool {
        self.of_group(group).needed
    }

    pub open spec fn is_foreground(self, group: Group) -> bool {
        self.of_group(group).foreground
    }

    fn group(&self, group: Group) -> (focus: GroupFocus)
        ensures
            focus == self.of_group(group),
    {
        match group {
            Group::Configuration => self.configuration,
            Group::Protocols => self.protocols,
            Group::Sockets => self.sockets,
            Group::Conntrack => self.conntrack,
            Group::Rules => self.rules,
            Group::Softnet => self.softnet,
            Group::Softirq => self.softirq,
            Group::Hardirq => self.hardirq,
            Group::Tc => self.tc,
            Group::Links => self.links,
            Group::Nic => self.nic,
        }
    }

    pub fn needs(&self, group: Group) -> (needed: bool)
        ensures
            needed == self.is_needed(group),
    {
        self.group(group).needed
    }

    pub fn foreground(&self, group: Group) -> (foreground: bool)
        ensures
            foreground == self.is_foreground(group),
    {
        self.group(group).foreground
    }
}

/// Appends copies of samples.
fn append_samples(samples: &mut Vec<ProviderSample>, added: &Vec<ProviderSample>)
    ensures
        final(samples).deep_view() == old(samples).deep_view() + added.deep_view(),
{
    let ghost given = samples.deep_view();
    let ghost all = added.deep_view();
    assert(all.len() == added@.len());
    assert(given + all.take(0) =~= given);
    for i in 0..added.len()
        invariant
            all == added.deep_view(),
            all.len() == added@.len(),
            samples.deep_view() == given + all.take(i as int),
    {
        assert(all[i as int] == added@[i as int].deep_view());
        let ghost before = *samples;
        samples.push(added[i].copy());
        proof {
            seqs::lemma_deep_push(before, *samples);
            seqs::lemma_take_push(all, i as int);
            assert((given + all.take(i as int)).push(all[i as int]) =~= given + all.take(
                i as int + 1,
            ));
        }
    }
    proof {
        seqs::lemma_take_all(all);
    }
}

/// Samples that stay until they are collected again.
#[derive(Clone, Debug, PartialEq, Eq)]
pub struct CachedSamples {
    pub collected_at: Option<Nanos>,
    pub samples: Vec<ProviderSample>,
}

impl CachedSamples {
    pub fn new() -> (cache: CachedSamples)
        ensures
            cache.collected_at is None,
            cache.samples.deep_view() == Seq::<SampleModel>::empty(),
    {
        let cache = CachedSamples { collected_at: None, samples: Vec::new() };
        assert(cache.samples.deep_view() =~= Seq::<SampleModel>::empty());
        cache
    }

    /// Whether samples are to be collected again: always in the foreground, else when
    /// they never were or were so long ago.
    pub open spec fn is_due(&self, now: Nanos, foreground: bool, interval: Nanos) -> bool {
        foreground || match self.collected_at {
            None => true,
            Some(at) => now >= at && now - at >= interval || interval == 0,
        }
    }

    pub fn refresh_due(&self, now: Nanos, foreground: bool, interval: Nanos) -> (due: bool)
        ensures
            due == self.is_due(now, foreground, interval),
    {
        foreground || match self.collected_at {
            None => true,
            Some(at) => now.saturating_sub(at) >= interval,
        }
    }

    pub fn record(&mut self, at: Nanos, samples: Vec<ProviderSample>)
        ensures
            *final(self) == (CachedSamples { collected_at: Some(at), samples }),
    {
        self.collected_at = Some(at);
        self.samples = samples;
    }
}

/// What is read in one step.
#[derive(Clone, Copy, Debug, PartialEq, Eq, Structural)]
pub enum Task {
    Configuration,
    Protocols,
    Sockets,
    Conntrack,
    Rules,
    Softnet,
    Softirq,
    Hardirq,
    Tc,
    Links,
    /// Link counters from sysfs, where rtnetlink gave none.
    SysfsLinks,
    /// Link counters from procfs, where sysfs gave none either.
    ProcLinks,
    Nic,
    /// What the worker that reads settings has finished.
    NicConfiguration,
}

/// How many tasks there are.
pub const TASKS: usize = 14;

/// The order of the tasks.
pub open spec fn task_of(i: int) -> Task {
    if i == 0 {
        Task::Configuration
    } else if i == 1 {
        Task::Protocols
    } else if i == 2 {
        Task::Sockets
    } else if i == 3 {
        Task::Conntrack
    } else if i == 4 {
        Task::Rules
    } else if i == 5 {
        Task::Softnet
    } else if i == 6 {
        Task::Softirq
    } else if i == 7 {
        Task::Hardirq
    } else if i == 8 {
        Task::Tc
    } else if i == 9 {
        Task::Links
    } else if i == 10 {
        Task::SysfsLinks
    } else if i == 11 {
        Task::ProcLinks
    } else if i == 12 {
        Task::Nic
    } else {
        Task::NicConfiguration
    }
}

fn task_at(i: usize) -> (task: Task)
    ensures
        task == task_of(i as int),
{
    if i == 0 {
        Task::Configuration
    } else if i == 1 {
        Task::Protocols
    } else if i == 2 {
        Task::Sockets
    } else if i == 3 {
        Task::Conntrack
    } else if i == 4 {
        Task::Rules
    } else if i == 5 {
        Task::Softnet
    } else if i == 6 {
        Task::Softirq
    } else if i == 7 {
        Task::Hardirq
    } else if i == 8 {
        Task::Tc
    } else if i == 9 {
        Task::Links
    } else if i == 10 {
        Task::SysfsLinks
    } else if i == 11 {
        Task::ProcLinks
    } else if i == 12 {
        Task::Nic
    } else {
        Task::NicConfiguration
    }
}

/// The caches of the groups that are not read in every cycle.
#[derive(Clone, Debug, PartialEq, Eq)]
pub struct GroupCaches {
    pub configuration: CachedSamples,
    pub rules: CachedSamples,
    pub hardirq: CachedSamples,
    pub tc: CachedSamples,
    pub nic: CachedSamples,
}

/// A cycle under way: the tasks that are done, and the samples so far.
#[derive(Clone, Debug, PartialEq, Eq)]
pub struct Cycle {
    pub done: usize,
    pub samples: Vec<ProviderSample>,
    /// Whether link counters are still missing.
    pub links_missing: bool,
}

impl Cycle {
    pub fn start() -> (cycle: Cycle)
        ensures
            cycle.done == 0,
            cycle.samples.deep_view() == Seq::<SampleModel>::empty(),
            !cycle.links_missing,
    {
        let cycle = Cycle { done: 0, samples: Vec::new(), links_missing: false };
        assert(cycle.samples.deep_view() =~= Seq::<SampleModel>::empty());
        cycle
    }
}

/// Whether a task is to be done now.
pub open spec fn is_wanted(
    focus: CollectionFocus,
    caches: GroupCaches,
    links_missing: bool,
    task: Task,
    now: Nanos,
) -> bool {
    match task {
        Task::Configuration => focus.is_needed(Group::Configuration)
            && caches.configuration.is_due(now, false, CONFIG_REFRESH_INTERVAL),
        Task::Protocols => focus.is_needed(Group::Protocols),
        Task::Sockets => focus.is_needed(Group::Sockets),
        Task::Conntrack => focus.is_needed(Group::Conntrack),
        Task::Rules => focus.is_needed(Group::Rules) && caches.rules.is_due(
            now,
            focus.is_foreground(Group::Rules),
            RULES_REFRESH_INTERVAL,
        ),
        Task::Softnet => focus.is_needed(Group::Softnet),
        Task::Softirq => focus.is_needed(Group::Softirq),
        Task::Hardirq => focus.is_needed(Group::Hardirq) && caches.hardirq.is_due(
            now,
            focus.is_foreground(Group::Hardirq),
            DEVICE_REFRESH_INTERVAL,
        ),
        Task::Tc => focus.is_needed(Group::Tc) && caches.tc.is_due(
            now,
            focus.is_foreground(Group::Tc),
            RULES_REFRESH_INTERVAL,
        ),
        Task::Links => focus.is_needed(Group::Links),
        Task::SysfsLinks | Task::ProcLinks => focus.is_needed(Group::Links) && links_missing,
        Task::Nic => focus.is_needed(Group::Links) && focus.is_needed(Group::Nic)
            && caches.nic.is_due(now, focus.is_foreground(Group::Nic), DEVICE_REFRESH_INTERVAL),
        Task::NicConfiguration => focus.is_needed(Group::Links) && focus.is_needed(Group::Nic),
    }
}

/// What a task that is passed over adds: the cached samples of its group.
pub open spec fn cached_of(focus: CollectionFocus, caches: GroupCaches, task: Task) -> Seq<
    SampleModel,
> {
    match task {
        Task::Configuration => if focus.is_needed(Group::Configuration) {
            caches.configuration.samples.deep_view()
        } else {
            Seq::empty()
        },
        Task::Rules => if focus.is_needed(Group::Rules) {
            caches.rules.samples.deep_view()
        } else {
            Seq::empty()
        },
        Task::Hardirq => if focus.is_needed(Group::Hardirq) {
            caches.hardirq.samples.deep_view()
        } else {
            Seq::empty()
        },
        Task::Tc => if focus.is_needed(Group::Tc) {
            caches.tc.samples.deep_view()
        } else {
            Seq::empty()
        },
        _ => Seq::empty(),
    }
}

/// The next task of a cycle, if there is one, and the samples of the cycle by then.
pub open spec fn next_of(
    focus: CollectionFocus,
    caches: GroupCaches,
    links_missing: bool,
    now: Nanos,
    done: int,
    samples: Seq<SampleModel>,
) -> (int, Seq<SampleModel>)
    decreases TASKS - done,
{
    if done >= TASKS || is_wanted(focus, caches, links_missing, task_of(done), now) {
        (done, samples)
    } else {
        next_of(
            focus,
            caches,
            links_missing,
            now,
            done + 1,
            samples + cached_of(focus, caches, task_of(done)),
        )
    }
}

/// The samples that some providers do not have usable counters in.
pub open spec fn gives_nothing(sample: SampleModel) -> bool {
    !(sample.health is Fresh) || sample.readings.len() == 0
}

/// What changes with the focus beside the caches.
#[derive(Clone, Copy, Debug, PartialEq, Eq, Structural)]
pub struct FocusChange {
    /// The table of interrupts is to be built anew.
    pub resets_hardirq_table: bool,
    /// The worker that reads settings is to be given up.
    pub stops_nic_configuration: bool,
}

/// A cache after the focus changed: a group that was not read before is due at once.
pub open spec fn resumed(
    cache: CachedSamples,
    before: CollectionFocus,
    after: CollectionFocus,
    group: Group,
) -> CachedSamples {
    if after.is_needed(group) && !before.is_needed(group) {
        CachedSamples { collected_at: None, ..cache }
    } else {
        cache
    }
}

/// All caches after the focus changed. The configuration stays as it is.
pub open spec fn refocused(
    caches: GroupCaches,
    before: CollectionFocus,
    after: CollectionFocus,
) -> GroupCaches {
    GroupCaches {
        configuration: caches.configuration,
        rules: resumed(caches.rules, before, after, Group::Rules),
        hardirq: resumed(caches.hardirq, before, after, Group::Hardirq),
        tc: resumed(caches.tc, before, after, Group::Tc),
        nic: resumed(caches.nic, before, after, Group::Nic),
    }
}

fn resume(
    cache: &mut CachedSamples,
    before: &CollectionFocus,
    after: &CollectionFocus,
    group: Group,
)
    ensures
        *final(cache) == resumed(*old(cache), *before, *after, group),
{
    if after.needs(group) && !before.needs(group) {
        cache.collected_at = None;
    }
}

/// What is collected, and what of it is kept between cycles.
#[derive(Clone, Debug, PartialEq, Eq)]
pub struct BuiltinCollector {
    pub focus: CollectionFocus,
    pub caches: GroupCaches,
    /// Whether interfaces are read from the system's own sysfs, so that the links
    /// that rtnetlink lists are those that sysfs has.
    pub shares_link_metadata: bool,
}

impl BuiltinCollector {
    pub fn new(focus: CollectionFocus, shares_link_metadata: bool) -> (collector: BuiltinCollector)
        ensures
            collector.focus == focus,
            collector.shares_link_metadata == shares_link_metadata,
            collector.caches.configuration.collected_at is None,
            collector.caches.rules.collected_at is None,
            collector.caches.hardirq.collected_at is None,
            collector.caches.tc.collected_at is None,
            collector.caches.nic.collected_at is None,
            collector.caches.configuration.samples.deep_view() == Seq::<SampleModel>::empty(),
            collector.caches.rules.samples.deep_view() == Seq::<SampleModel>::empty(),
            collector.caches.hardirq.samples.deep_view() == Seq::<SampleModel>::empty(),
            collector.caches.tc.samples.deep_view() == Seq::<SampleModel>::empty(),
            collector.caches.nic.samples.deep_view() == Seq::<SampleModel>::empty(),
    {
        BuiltinCollector {
            focus,
            caches: GroupCaches {
                configuration: CachedSamples::new(),
                rules: CachedSamples::new(),
                hardirq: CachedSamples::new(),
                tc: CachedSamples::new(),
                nic: CachedSamples::new(),
            },
            shares_link_metadata,
        }
    }

    /// Changes what the collection is for. Counters of a group that comes back are
    /// collected at once, since the cached ones are from before the break; the
    /// configuration is not.
    pub fn set_focus(&mut self, focus: CollectionFocus) -> (change: FocusChange)
        ensures
            final(self).focus == focus,
            final(self).shares_link_metadata == old(self).shares_link_metadata,
            final(self).caches == refocused(old(self).caches, old(self).focus, focus),
            change.resets_hardirq_table == (focus.is_needed(Group::Hardirq) && !old(
                self,
            ).focus.is_needed(Group::Hardirq)),
            change.stops_nic_configuration == !focus.is_needed(Group::Nic),
    {
        let before = self.focus;
        let change = FocusChange {
            resets_hardirq_table: focus.needs(Group::Hardirq) && !before.needs(Group::Hardirq),
            stops_nic_configuration: !focus.needs(Group::Nic),
        };
        resume(&mut self.caches.tc, &before, &focus, Group::Tc);
        resume(&mut self.caches.rules, &before, &focus, Group::Rules);
        resume(&mut self.caches.nic, &before, &focus, Group::Nic);
        resume(&mut self.caches.hardirq, &before, &focus, Group::Hardirq);
        self.focus = focus;
        change
    }

    fn wants(&self, links_missing: bool, task: Task, now: Nanos) -> (wanted: bool)
        ensures
            wanted == is_wanted(self.focus, self.caches, links_missing, task, now),
    {
        match task {
            Task::Configuration => self.focus.needs(Group::Configuration)
                && self.caches.configuration.refresh_due(now, false, CONFIG_REFRESH_INTERVAL),
            Task::Protocols => self.focus.needs(Group::Protocols),
            Task::Sockets => self.focus.needs(Group::Sockets),
            Task::Conntrack => self.focus.needs(Group::Conntrack),
            Task::Rules => self.focus.needs(Group::Rules) && self.caches.rules.refresh_due(
                now,
                self.focus.foreground(Group::Rules),
                RULES_REFRESH_INTERVAL,
            ),
            Task::Softnet => self.focus.needs(Group::Softnet),
            Task::Softirq => self.focus.needs(Group::Softirq),
            Task::Hardirq => self.focus.needs(Group::Hardirq) && self.caches.hardirq.refresh_due(
                now,
                self.focus.foreground(Group::Hardirq),
                DEVICE_REFRESH_INTERVAL,
            ),
            Task::Tc => self.focus.needs(Group::Tc) && self.caches.tc.refresh_due(
                now,
                self.focus.foreground(Group::Tc),
                RULES_REFRESH_INTERVAL,
            ),
            Task::Links => self.focus.needs(Group::Links),
            Task::SysfsLinks | Task::ProcLinks => self.focus.needs(Group::Links) && links_missing,
            Task::Nic => self.nic_due(now),
            Task::NicConfiguration => self.focus.needs(Group::Links) && self.focus.needs(
                Group::Nic,
            ),
        }
    }

    fn nic_due(&self, now: Nanos) -> (due: bool)
        ensures
            due == is_wanted(self.focus, self.caches, false, Task::Nic, now),
    {
        self.focus.needs(Group::Links) && self.focus.needs(Group::Nic)
            && self.caches.nic.refresh_due(
            now,
            self.focus.foreground(Group::Nic),
            DEVICE_REFRESH_INTERVAL,
        )
    }

    /// Whether the links that rtnetlink lists are to be kept for the interfaces,
    /// because these will be read in the same cycle.
    pub fn shares_metadata(&self, now: Nanos) -> (shares: bool)
        ensures
            shares == (self.shares_link_metadata && is_wanted(
                self.focus,
                self.caches,
                false,
                Task::Nic,
                now,
            )),
    {
        self.shares_link_metadata && self.nic_due(now)
    }

    /// The next task of a cycle. What is passed over is taken from the caches.
    pub fn next_task(&self, cycle: &mut Cycle, now: Nanos) -> (task: Option<Task>)
        requires
            old(cycle).done <= TASKS,
        ensures
            final(cycle).done <= TASKS,
            final(cycle).links_missing == old(cycle).links_missing,
            (final(cycle).done as int, final(cycle).samples.deep_view()) == next_of(
                self.focus,
                self.caches,
                old(cycle).links_missing,
                now,
                old(cycle).done as int,
                old(cycle).samples.deep_view(),
            ),
            task == (if final(cycle).done < TASKS {
                Some(task_of(final(cycle).done as int))
            } else {
                None
            }),
    {
        while cycle.done < TASKS
            invariant
                cycle.done <= TASKS,
                cycle.links_missing == old(cycle).links_missing,
                next_of(
                    self.focus,
                    self.caches,
                    cycle.links_missing,
                    now,
                    cycle.done as int,
                    cycle.samples.deep_view(),
                ) == next_of(
                    self.focus,
                    self.caches,
                    old(cycle).links_missing,
                    now,
                    old(cycle).done as int,
                    old(cycle).samples.deep_view(),
                ),
            decreases TASKS - cycle.done,
        {
            let task = task_at(cycle.done);
            if self.wants(cycle.links_missing, task, now) {
                return Some(task);
            }
            self.add_cached(&mut cycle.samples, task);
            cycle.done = cycle.done + 1;
        }
        None
    }

    fn add_cached(&self, samples: &mut Vec<ProviderSample>, task: Task)
        ensures
            final(samples).deep_view() == old(samples).deep_view() + cached_of(
                self.focus,
                self.caches,
                task,
            ),
    {
        assert(samples.deep_view() + Seq::<SampleModel>::empty() =~= samples.deep_view());
        match task {
            Task::Configuration => {
                if self.focus.needs(Group::Configuration) {
                    append_samples(samples, &self.caches.configuration.samples);
                }
            },
            Task::Rules => {
                if self.focus.needs(Group::Rules) {
                    append_samples(samples, &self.caches.rules.samples);
                }
            },
            Task::Hardirq => {
                if self.focus.needs(Group::Hardirq) {
                    append_samples(samples, &self.caches.hardirq.samples);
                }
            },
            Task::Tc => {
                if self.focus.needs(Group::Tc) {
                    append_samples(samples, &self.caches.tc.samples);
                }
            },
            _ => {},
        }
    }
}

/// Whether none of the samples has counters that can be used.
pub open spec fn all_give_nothing(samples: Seq<SampleModel>) -> bool {
    forall|i: int| 0 <= i < samples.len() ==> gives_nothing(#[trigger] samples[i])
}

fn have_nothing(samples: &Vec<ProviderSample>) -> (nothing: bool)
    ensures
        nothing == all_give_nothing(samples.deep_view()),
{
    let ghost all = samples.deep_view();
    assert(all.len() == samples@.len());
    let mut i: usize = 0;
    while i < samples.len()
        invariant
            i <= samples.len(),
            all == samples.deep_view(),
            all.len() == samples@.len(),
            forall|j: int| 0 <= j < i ==> gives_nothing(#[trigger] all[j]),
        decreases samples.len() - i,
    {
        assert(all[i as int] == samples@[i as int].deep_view());
        assert(samples@[i as int].readings.deep_view().len() == samples@[i as int].readings@.len());
        if samples[i].health.is_fresh() && samples[i].readings.len() > 0 {
            assert(!gives_nothing(all[i as int]));
            return false;
        }
        i += 1;
    }
    true
}

/// The caches after a task was done.
pub open spec fn caches_after(
    caches: GroupCaches,
    task: Task,
    at: Nanos,
    samples: Vec<ProviderSample>,
) -> GroupCaches {
    let recorded = CachedSamples { collected_at: Some(at), samples };
    match task {
        Task::Configuration => GroupCaches { configuration: recorded, ..caches },
        Task::Rules => GroupCaches { rules: recorded, ..caches },
        Task::Hardirq => GroupCaches { hardirq: recorded, ..caches },
        Task::Tc => GroupCaches { tc: recorded, ..caches },
        Task::Nic => GroupCaches { nic: recorded, ..caches },
        _ => caches,
    }
}

/// What a task that was done adds to the cycle. The interfaces come last, when the
/// settings that were read meanwhile are in place.
pub open spec fn added_by(caches: GroupCaches, task: Task, samples: Seq<SampleModel>) -> Seq<
    SampleModel,
> {
    match task {
        Task::Nic => Seq::empty(),
        Task::NicConfiguration => caches.nic.samples.deep_view(),
        _ => samples,
    }
}

impl BuiltinCollector {
    /// Takes the samples of the task that was due.
    pub fn finish_task(&mut self, cycle: &mut Cycle, at: Nanos, samples: Vec<ProviderSample>)
        requires
            old(cycle).done < TASKS,
        ensures
            final(self).focus == old(self).focus,
            final(self).shares_link_metadata == old(self).shares_link_metadata,
            final(self).caches == caches_after(
                old(self).caches,
                task_of(old(cycle).done as int),
                at,
                samples,
            ),
            final(cycle).done == old(cycle).done + 1,
            final(cycle).samples.deep_view() == old(cycle).samples.deep_view() + added_by(
                old(self).caches,
                task_of(old(cycle).done as int),
                samples.deep_view(),
            ),
            final(cycle).links_missing == match task_of(old(cycle).done as int) {
                Task::Links | Task::SysfsLinks => all_give_nothing(samples.deep_view()),
                _ => old(cycle).links_missing,
            },
    {
        let task = task_at(cycle.done);
        cycle.done = cycle.done + 1;
        assert(cycle.samples.deep_view() + Seq::<SampleModel>::empty()
            =~= cycle.samples.deep_view());
        match task {
            Task::Configuration => {
                append_samples(&mut cycle.samples, &samples);
                self.caches.configuration.record(at, samples);
            },
            Task::Rules => {
                append_samples(&mut cycle.samples, &samples);
                self.caches.rules.record(at, samples);
            },
            Task::Hardirq => {
                append_samples(&mut cycle.samples, &samples);
                self.caches.hardirq.record(at, samples);
            },
            Task::Tc => {
                append_samples(&mut cycle.samples, &samples);
                self.caches.tc.record(at, samples);
            },
            Task::Links | Task::SysfsLinks => {
                cycle.links_missing = have_nothing(&samples);
                append_samples(&mut cycle.samples, &samples);
            },
            Task::Nic => {
                self.caches.nic.record(at, samples);
            },
            Task::NicConfiguration => {
                append_samples(&mut cycle.samples, &self.caches.nic.samples);
            },
            Task::Protocols
            | Task::Sockets
            | Task::Conntrack
            | Task::Softnet
            | Task::Softirq
            | Task::ProcLinks => {
                append_samples(&mut cycle.samples, &samples);
            },
        }
    }
}

/// The providers that can be read.
pub open spec fn is_implemented(provider: Seq<char>) -> bool {
    ||| provider == PROC_SNMP@
    ||| provider == PROC_NETSTAT@
    ||| provider == PROC_SNMP6@
    ||| provider == PROC_SOCKSTAT@
    ||| provider == PROC_SOCKSTAT6@
    ||| provider == PROC_CONNTRACK@
    ||| provider == NFT_RULESET@
    ||| provider == IPTABLES_IPV4@
    ||| provider == IPTABLES_IPV6@
    ||| provider == PROC_SOFTNET@
    ||| provider == PROC_SYS_NET_CORE@
    ||| provider == PROC_SYS_NET_IPV4@
    ||| provider == PROC_SOFTIRQS@
    ||| provider == PROC_INTERRUPTS@
    ||| provider == TC_JSON@
    ||| provider == TC_NETLINK@
    ||| provider == RTNETLINK_LINK@
    ||| provider == SYSFS_LINK@
    ||| provider == PROC_NET_DEV@
    ||| provider == SYSFS_NIC@
    ||| provider == ETHTOOL_TEXT@
    ||| provider == ETHTOOL_LINK_TEXT@
}

pub fn is_implemented_provider(provider: &str) -> (implemented: bool)
    ensures
        implemented == is_implemented(provider@),
{
    same_text(provider, PROC_SNMP) || same_text(provider, PROC_NETSTAT) || same_text(
        provider,
        PROC_SNMP6,
    ) || same_text(provider, PROC_SOCKSTAT) || same_text(provider, PROC_SOCKSTAT6) || same_text(
        provider,
        PROC_CONNTRACK,
    ) || same_text(provider, NFT_RULESET) || same_text(provider, IPTABLES_IPV4) || same_text(
        provider,
        IPTABLES_IPV6,
    ) || same_text(provider, PROC_SOFTNET) || same_text(provider, PROC_SYS_NET_CORE) || same_text(
        provider,
        PROC_SYS_NET_IPV4,
    ) || same_text(provider, PROC_SOFTIRQS) || same_text(provider, PROC_INTERRUPTS) || same_text(
        provider,
        TC_JSON,
    ) || same_text(provider, TC_NETLINK) || same_text(provider, RTNETLINK_LINK) || same_text(
        provider,
        SYSFS_LINK,
    ) || same_text(provider, PROC_NET_DEV) || same_text(provider, SYSFS_NIC) || same_text(
        provider,
        ETHTOOL_TEXT,
    ) || same_text(provider, ETHTOOL_LINK_TEXT)
}

/// Whether names stand in strict text order.
pub open spec fn names_ordered(names: Seq<Seq<char>>) -> bool {
    forall|i: int, j: int|
        0 <= i < j < names.len() ==> text::text_before(#[trigger] names[i], #[trigger] names[j])
}

/// Adds a name to names in order, unless it is there.
fn insert_name(names: &mut Vec<String>, name: &str)
    requires
        names_ordered(old(names).deep_view()),
    ensures
        names_ordered(final(names).deep_view()),
        forall|other: Seq<char>|
            #[trigger] final(names).deep_view().contains(other) <==> old(names).deep_view().contains(other)
                || other == name@,
{
    let ghost before = names.deep_view();
    assert(before.len() == names@.len());
    let mut i: usize = 0;
    while i < names.len() && comes_before(names[i].as_str(), name)
        invariant
            i <= names.len(),
            *names == *old(names),
            before == names.deep_view(),
            before.len() == names@.len(),
            forall|j: int| 0 <= j < i ==> text::text_before(#[trigger] before[j], name@),
        decreases names.len() - i,
    {
        assert(before[i as int] == names@[i as int]@);
        i += 1;
    }
    if i < names.len() && same_text(names[i].as_str(), name) {
        assert(before[i as int] == name@);
        return;
    }
    names.insert(i, text::owned(name));
    proof {
        let after = names.deep_view();
        assert(after =~= before.insert(i as int, name@));
        if i < before.len() {
            assert(before[i as int] == old(names)@[i as int]@);
            text::text_order_is_strict_and_total(name@, before[i as int], name@);
        }
        assert forall|j: int, k: int| 0 <= j < k < after.len() implies text::text_before(
            #[trigger] after[j],
            #[trigger] after[k],
        ) by {
            if j < i && k == i {
                assert(after[j] == before[j]);
            } else if j == i && k > i {
                if k > i + 1 {
                    assert(text::text_before(before[i as int], before[k - 1]));
                }
                text::text_order_is_strict_and_total(name@, before[i as int], before[k - 1]);
            } else if k < i {
                assert(text::text_before(before[j], before[k]));
            } else if j < i {
                assert(text::text_before(before[j], before[k - 1]));
            } else {
                assert(text::text_before(before[j - 1], before[k - 1]));
            }
        }
        assert forall|other: Seq<char>|
            #[trigger] after.contains(other) <==> before.contains(other) || other == name@ by {
            if before.contains(other) {
                let j = choose|j: int| 0 <= j < before.len() && before[j] == other;
                if j < i {
                    assert(after[j] == other);
                } else {
                    assert(after[j + 1] == other);
                }
            }
            if other == name@ {
                assert(after[i as int] == other);
            }
            if after.contains(other) {
                let j = choose|j: int| 0 <= j < after.len() && after[j] == other;
                if j < i {
                    assert(before[j] == other);
                } else if j > i {
                    assert(before[j - 1] == other);
                }
            }
        }
    }
}

/// The providers that a task reads, in the order in which it reads them.
pub open spec fn providers_of(task: Task) -> Seq<Seq<char>> {
    match task {
        Task::Configuration => seq![PROC_SYS_NET_IPV4@, PROC_SYS_NET_CORE@],
        Task::Protocols => seq![PROC_SNMP@, PROC_NETSTAT@, PROC_SNMP6@],
        Task::Sockets => seq![PROC_SOCKSTAT@, PROC_SOCKSTAT6@],
        Task::Conntrack => seq![PROC_CONNTRACK@],
        Task::Rules => seq![NFT_RULESET@, IPTABLES_IPV4@, IPTABLES_IPV6@],
        Task::Softnet => seq![PROC_SOFTNET@],
        Task::Softirq => seq![PROC_SOFTIRQS@],
        Task::Hardirq => seq![PROC_INTERRUPTS@],
        Task::Tc => seq![TC_NETLINK@, TC_JSON@],
        Task::Links => seq![RTNETLINK_LINK@],
        Task::SysfsLinks => seq![SYSFS_LINK@],
        Task::ProcLinks => seq![PROC_NET_DEV@],
        Task::Nic => seq![SYSFS_NIC@, ETHTOOL_TEXT@, ETHTOOL_LINK_TEXT@],
        Task::NicConfiguration => seq![ETHTOOL_LINK_TEXT@],
    }
}

pub fn task_providers(task: Task) -> (providers: Vec<&'static str>)
    ensures
        providers.deep_view() == providers_of(task),
{
    let providers: Vec<&'static str> = match task {
        Task::Configuration => vec![PROC_SYS_NET_IPV4, PROC_SYS_NET_CORE],
        Task::Protocols => vec![PROC_SNMP, PROC_NETSTAT, PROC_SNMP6],
        Task::Sockets => vec![PROC_SOCKSTAT, PROC_SOCKSTAT6],
        Task::Conntrack => vec![PROC_CONNTRACK],
        Task::Rules => vec![NFT_RULESET, IPTABLES_IPV4, IPTABLES_IPV6],
        Task::Softnet => vec![PROC_SOFTNET],
        Task::Softirq => vec![PROC_SOFTIRQS],
        Task::Hardirq => vec![PROC_INTERRUPTS],
        Task::Tc => vec![TC_NETLINK, TC_JSON],
        Task::Links => vec![RTNETLINK_LINK],
        Task::SysfsLinks => vec![SYSFS_LINK],
        Task::ProcLinks => vec![PROC_NET_DEV],
        Task::Nic => vec![SYSFS_NIC, ETHTOOL_TEXT, ETHTOOL_LINK_TEXT],
        Task::NicConfiguration => vec![ETHTOOL_LINK_TEXT],
    };
    assert(providers.deep_view() =~= providers_of(task));
    providers
}

/// The first three elements of a sequence are among its elements.
proof fn lemma_contains_first(texts: Seq<Seq<char>>)
    ensures
        texts.len() > 0 ==> texts.contains(texts[0]),
        texts.len() > 1 ==> texts.contains(texts[1]),
        texts.len() > 2 ==> texts.contains(texts[2]),
{
}

/// The providers that can be read are those that some task reads.
pub proof fn implemented_providers_are_read(provider: Seq<char>)
    ensures
        is_implemented(provider) <==> exists|task: Task| #[trigger]
            providers_of(task).contains(provider),
{
    lemma_contains_first(providers_of(Task::Configuration));
    lemma_contains_first(providers_of(Task::Protocols));
    lemma_contains_first(providers_of(Task::Sockets));
    lemma_contains_first(providers_of(Task::Conntrack));
    lemma_contains_first(providers_of(Task::Rules));
    lemma_contains_first(providers_of(Task::Softnet));
    lemma_contains_first(providers_of(Task::Softirq));
    lemma_contains_first(providers_of(Task::Hardirq));
    lemma_contains_first(providers_of(Task::Tc));
    lemma_contains_first(providers_of(Task::Links));
    lemma_contains_first(providers_of(Task::SysfsLinks));
    lemma_contains_first(providers_of(Task::ProcLinks));
    lemma_contains_first(providers_of(Task::Nic));
}

/// Whether one of the first `n` sources is of a provider.
pub open spec fn has_source(
    sources: Seq<catalog::MetricSource<Seq<char>>>,
    provider: Seq<char>,
    n: int,
) -> bool {
    exists|i: int| 0 <= i < n && (#[trigger] sources[i]).provider == provider
}

/// Whether one of the first `n` metrics has a source of a provider.
pub open spec fn has_provider(catalog: CatalogModel, provider: Seq<char>, n: int) -> bool {
    exists|i: int|
        0 <= i < n && has_source(
            (#[trigger] catalog[i]).sources,
            provider,
            catalog[i].sources.len() as int,
        )
}

/// The providers of the catalog that cannot be read, in text order.
pub fn unsupported_providers(catalog: &MetricCatalog) -> (names: Vec<String>)
    ensures
        names_ordered(names.deep_view()),
        forall|provider: Seq<char>|
            #[trigger] names.deep_view().contains(provider) <==> has_provider(
                catalog.deep_view(),
                provider,
                catalog.deep_view().len() as int,
            ) && !is_implemented(provider),
{
    let ghost all = catalog.deep_view();
    let mut names: Vec<String> = Vec::new();
    assert(names.deep_view() =~= Seq::<Seq<char>>::empty());
    for i in 0..catalog.metrics.len()
        invariant
            all == catalog.deep_view(),
            all.len() == catalog.metrics@.len(),
            names_ordered(names.deep_view()),
            forall|provider: Seq<char>|
                #[trigger] names.deep_view().contains(provider) <==> has_provider(all, provider, i as int)
                    && !is_implemented(provider),
    {
        let metric = &catalog.metrics[i];
        let ghost sources = metric.sources.deep_view();
        assert(all[i as int] == catalog.metrics@[i as int].deep_view());
        let ghost before = names.deep_view();
        for k in 0..metric.sources.len()
            invariant
                sources == metric.sources.deep_view(),
                sources.len() == metric.sources@.len(),
                names_ordered(names.deep_view()),
                forall|provider: Seq<char>|
                    #[trigger] names.deep_view().contains(provider) <==> before.contains(provider) || (
                    has_source(sources, provider, k as int) && !is_implemented(provider)),
        {
            let provider = metric.sources[k].provider.as_str();
            assert(sources[k as int] == metric.sources@[k as int].deep_view());
            let ghost last = names.deep_view();
            if !is_implemented_provider(provider) {
                insert_name(&mut names, provider);
            }
            proof {
                assert forall|other: Seq<char>|
                    #[trigger] has_source(sources, other, k as int + 1) <==> has_source(
                        sources,
                        other,
                        k as int,
                    ) || other == provider@ by {
                    if has_source(sources, other, k as int) {
                        let j = choose|j: int|
                            0 <= j < k && (#[trigger] sources[j]).provider == other;
                        assert(sources[j].provider == other);
                    }
                    if other == provider@ {
                        assert(sources[k as int].provider == other);
                    }
                }
            }
        }
        proof {
            assert forall|other: Seq<char>|
                #[trigger] has_provider(all, other, i as int + 1) <==> has_provider(all, other, i as int)
                    || has_source(sources, other, sources.len() as int) by {
                if has_provider(all, other, i as int) {
                    let j = choose|j: int|
                        0 <= j < i && has_source(
                            (#[trigger] all[j]).sources,
                            other,
                            all[j].sources.len() as int,
                        );
                    assert(has_source(all[j].sources, other, all[j].sources.len() as int));
                }
                if has_source(sources, other, sources.len() as int) {
                    assert(has_source(
                        all[i as int].sources,
                        other,
                        all[i as int].sources.len() as int,
                    ));
                }
            }
        }
    }
    names
}

/// What is said of a provider that cannot be read.
pub const NOT_IMPLEMENTED: &'static str = "provider adapter is not implemented";

/// The samples of providers that cannot be read.
pub open spec fn unsupported_samples(names: Seq<Seq<char>>, finished_at: Nanos) -> Seq<
    SampleModel,
> {
    Seq::new(
        names.len(),
        |i: int|
            diagnostics::failed_sample(
                names[i],
                finished_at,
                0,
                MonitorErrorCode::Unsupported,
                NOT_IMPLEMENTED@,
            ),
    )
}

/// Whether names are those of the providers that cannot be read, in order.
pub open spec fn are_unsupported(catalog: CatalogModel, names: Seq<Seq<char>>) -> bool {
    &&& names_ordered(names)
    &&& forall|provider: Seq<char>|
        #[trigger] names.contains(provider) <==> has_provider(
            catalog,
            provider,
            catalog.len() as int,
        ) && !is_implemented(provider)
}

/// Adds a sample for each provider of the catalog that cannot be read.
pub fn add_unsupported_samples(
    catalog: &MetricCatalog,
    samples: &mut Vec<ProviderSample>,
    finished_at: Nanos,
)
    ensures
        exists|names: Seq<Seq<char>>|
            #![trigger unsupported_samples(names, finished_at)]
            are_unsupported(catalog.deep_view(), names) && final(samples).deep_view() == old(
                samples,
            ).deep_view() + unsupported_samples(names, finished_at),
{
    let names = unsupported_providers(catalog);
    let ghost given = samples.deep_view();
    let ghost all = names.deep_view();
    let ghost target = unsupported_samples(all, finished_at);
    assert(all.len() == names@.len());
    assert(given + target.take(0) =~= given);
    for i in 0..names.len()
        invariant
            all == names.deep_view(),
            all.len() == names@.len(),
            target == unsupported_samples(all, finished_at),
            samples.deep_view() == given + target.take(i as int),
    {
        assert(all[i as int] == names@[i as int]@);
        let ghost before = *samples;
        samples.push(
            error_sample(
                names[i].as_str(),
                finished_at,
                0,
                MonitorErrorCode::Unsupported,
                NOT_IMPLEMENTED,
            ),
        );
        proof {
            seqs::lemma_deep_push(before, *samples);
            seqs::lemma_take_push(target, i as int);
            assert((given + target.take(i as int)).push(target[i as int]) =~= given + target.take(
                i as int + 1,
            ));
        }
    }
    proof {
        seqs::lemma_take_all(target);
        assert(are_unsupported(catalog.deep_view(), all));
    }
}

/// Where a sample goes among the first `n` samples: behind those of its provider and
/// of earlier ones.
pub open spec fn place_of(samples: Seq<SampleModel>, provider: Seq<char>, n: int) -> int
    decreases n,
{
    if n <= 0 || !text::text_before(provider, samples[n - 1].provider) {
        n
    } else {
        place_of(samples, provider, n - 1)
    }
}

/// The first `n` samples in the order of their providers.
pub open spec fn sorted_upto(samples: Seq<SampleModel>, n: int) -> Seq<SampleModel>
    decreases n,
{
    if n <= 0 {
        Seq::empty()
    } else {
        let before = sorted_upto(samples, n - 1);
        before.insert(
            place_of(before, samples[n - 1].provider, before.len() as int),
            samples[n - 1],
        )
    }
}

/// Samples in the order of their providers; those of one provider stay in the order
/// they had.
pub open spec fn in_provider_order(samples: Seq<SampleModel>) -> Seq<SampleModel> {
    sorted_upto(samples, samples.len() as int)
}

/// Whether no sample stands before one of an earlier provider.
pub open spec fn providers_ordered(samples: Seq<SampleModel>) -> bool {
    forall|i: int, j: int|
        0 <= i < j < samples.len() ==> !text::text_before(
            (#[trigger] samples[j]).provider,
            (#[trigger] samples[i]).provider,
        )
}

proof fn lemma_place(samples: Seq<SampleModel>, provider: Seq<char>, n: int)
    requires
        0 <= n <= samples.len(),
        providers_ordered(samples),
    ensures
        0 <= place_of(samples, provider, n) <= n,
        forall|i: int|
            0 <= i < place_of(samples, provider, n) ==> !text::text_before(
                provider,
                (#[trigger] samples[i]).provider,
            ),
        forall|i: int|
            place_of(samples, provider, n) <= i < n ==> text::text_before(
                provider,
                (#[trigger] samples[i]).provider,
            ),
    decreases n,
{
    if n > 0 {
        if text::text_before(provider, samples[n - 1].provider) {
            lemma_place(samples, provider, n - 1);
        } else {
            assert forall|i: int| 0 <= i < n implies !text::text_before(
                provider,
                (#[trigger] samples[i]).provider,
            ) by {
                if i < n - 1 {
                    let a = samples[i].provider;
                    let b = samples[n - 1].provider;
                    assert(!text::text_before(b, a));
                    text::text_order_is_strict_and_total(a, b, a);
                    text::text_order_is_strict_and_total(provider, a, b);
                }
            }
        }
    }
}

proof fn lemma_sorted(samples: Seq<SampleModel>, n: int)
    requires
        0 <= n <= samples.len(),
    ensures
        sorted_upto(samples, n).len() == n,
        providers_ordered(sorted_upto(samples, n)),
        sorted_upto(samples, n).to_multiset() == samples.take(n).to_multiset(),
    decreases n,
{
    if n > 0 {
        lemma_sorted(samples, n - 1);
        let before = sorted_upto(samples, n - 1);
        let x = samples[n - 1];
        let at = place_of(before, x.provider, before.len() as int);
        lemma_place(before, x.provider, before.len() as int);
        let after = before.insert(at, x);
        assert forall|i: int, j: int| 0 <= i < j < after.len() implies !text::text_before(
            (#[trigger] after[j]).provider,
            (#[trigger] after[i]).provider,
        ) by {
            if i == at {
                let y = before[j - 1].provider;
                text::text_order_is_strict_and_total(x.provider, y, x.provider);
            } else if j == at {
                assert(after[i] == before[i]);
            } else {
                let a = before[if i < at { i } else { i - 1 }];
                let b = before[if j < at { j } else { j - 1 }];
                assert(after[i] == a && after[j] == b);
            }
        }
        vstd::seq_lib::to_multiset_insert(before, at, x);
        vstd::seq_lib::to_multiset_build(samples.take(n - 1), x);
        assert(samples.take(n) =~= samples.take(n - 1).push(x));
    } else {
        assert(samples.take(0) =~= Seq::<SampleModel>::empty());
    }
}

/// A cycle hands its samples on in the order of their providers, none lost and none
/// added.
pub proof fn cycles_are_in_provider_order(samples: Seq<SampleModel>)
    ensures
        providers_ordered(in_provider_order(samples)),
        in_provider_order(samples).to_multiset() == samples.to_multiset(),
{
    lemma_sorted(samples, samples.len() as int);
    seqs::lemma_take_all(samples);
}

fn sort_samples(samples: Vec<ProviderSample>) -> (sorted: Vec<ProviderSample>)
    ensures
        sorted.deep_view() == in_provider_order(samples.deep_view()),
{
    let ghost all = samples.deep_view();
    assert(all.len() == samples@.len());
    let mut sorted: Vec<ProviderSample> = Vec::new();
    assert(sorted.deep_view() =~= Seq::<SampleModel>::empty());
    for i in 0..samples.len()
        invariant
            all == samples.deep_view(),
            all.len() == samples@.len(),
            sorted.deep_view() == sorted_upto(all, i as int),
    {
        assert(all[i as int] == samples@[i as int].deep_view());
        let sample = samples[i].copy();
        let ghost before = sorted.deep_view();
        assert(before.len() == sorted@.len());
        let mut at: usize = sorted.len();
        while at > 0 && comes_before(sample.provider.as_str(), sorted[at - 1].provider.as_str())
            invariant
                at <= sorted@.len(),
                before == sorted.deep_view(),
                before.len() == sorted@.len(),
                place_of(before, sample.provider@, at as int) == place_of(
                    before,
                    sample.provider@,
                    before.len() as int,
                ),
            decreases at,
        {
            assert(before[at - 1] == sorted@[at - 1].deep_view());
            at -= 1;
        }
        if at > 0 {
            assert(before[at - 1] == sorted@[at - 1].deep_view());
        }
        sorted.insert(at, sample);
        assert(sorted.deep_view() =~= before.insert(at as int, all[i as int]));
    }
    sorted
}

/// What a cycle hands on.
pub open spec fn cycle_result(
    catalog: CatalogModel,
    focus: CollectionFocus,
    samples: Seq<SampleModel>,
    now: Nanos,
    names: Seq<Seq<char>>,
) -> Seq<SampleModel> {
    if focus.all {
        in_provider_order(samples + unsupported_samples(names, now))
    } else {
        in_provider_order(samples)
    }
}

impl BuiltinCollector {
    /// Ends a cycle. Where everything is shown, providers that cannot be read are too.
    pub fn finish_cycle(&self, catalog: &MetricCatalog, cycle: Cycle, now: Nanos) -> (samples: Vec<
        ProviderSample,
    >)
        ensures
            exists|names: Seq<Seq<char>>|
                #![trigger are_unsupported(catalog.deep_view(), names)]
                are_unsupported(catalog.deep_view(), names) && samples.deep_view() == cycle_result(
                    catalog.deep_view(),
                    self.focus,
                    cycle.samples.deep_view(),
                    now,
                    names,
                ),
    {
        let mut samples = cycle.samples;
        if self.focus.all {
            add_unsupported_samples(catalog, &mut samples, now);
            let ghost names = choose|names: Seq<Seq<char>>|
                #![trigger unsupported_samples(names, now)]
                are_unsupported(catalog.deep_view(), names) && samples.deep_view()
                    == cycle.samples.deep_view() + unsupported_samples(names, now);
            assert(are_unsupported(catalog.deep_view(), names));
            return sort_samples(samples);
        }
        let names = unsupported_providers(catalog);
        assert(are_unsupported(catalog.deep_view(), names.deep_view()));
        sort_samples(samples)
    }
}

/// The group that a task belongs to.
pub open spec fn group_of(task: Task) -> Group {
    match task {
        Task::Configuration => Group::Configuration,
        Task::Protocols => Group::Protocols,
        Task::Sockets => Group::Sockets,
        Task::Conntrack => Group::Conntrack,
        Task::Rules => Group::Rules,
        Task::Softnet => Group::Softnet,
        Task::Softirq => Group::Softirq,
        Task::Hardirq => Group::Hardirq,
        Task::Tc => Group::Tc,
        Task::Links | Task::SysfsLinks | Task::ProcLinks => Group::Links,
        Task::Nic | Task::NicConfiguration => Group::Nic,
    }
}

/// A group that the focus does not need is not read, and nothing is shown of it, not
/// even what is cached.
pub proof fn unneeded_groups_are_left_alone(
    focus: CollectionFocus,
    caches: GroupCaches,
    links_missing: bool,
    task: Task,
    now: Nanos,
)
    requires
        !focus.is_needed(group_of(task)),
    ensures
        !is_wanted(focus, caches, links_missing, task, now),
        cached_of(focus, caches, task) == Seq::<SampleModel>::empty(),
{
}

/// A group that comes back into focus is read at the next opportunity, whatever its
/// cache holds.
pub proof fn resumed_groups_are_read_at_once(
    cache: CachedSamples,
    before: CollectionFocus,
    after: CollectionFocus,
    group: Group,
    now: Nanos,
    interval: Nanos,
)
    requires
        after.is_needed(group),
        !before.is_needed(group),
    ensures
        resumed(cache, before, after, group).is_due(now, false, interval),
        resumed(cache, before, after, group).samples == cache.samples,
{
}

/// What to do about the settings of the interfaces that were just collected.
#[derive(Clone, Copy, Debug, PartialEq, Eq, Structural)]
pub struct SettingsPlan {
    /// Whether the kept settings are of these interfaces.
    pub current: bool,
    /// Over how long the worker is to spread reading them again, if it is asked.
    pub request: Option<Nanos>,
}

/// Decides whether the worker has to read settings again: at once where the kept
/// ones are not of these interfaces, and in time before they are too old.
pub fn plan_settings(
    settings: &NicSettingsCache,
    service_current: bool,
    collection: &NicCollection,
    now: Nanos,
) -> (plan: SettingsPlan)
    requires
        settings.wf(),
        now + configuration::STAGGER <= Nanos::MAX,
    ensures
        plan.current == (service_current && settings.covers(collection.interfaces@)),
        plan.request == if !plan.current {
            Some(0 as Nanos)
        } else if settings.is_due((now + configuration::STAGGER) as Nanos) {
            Some(configuration::STAGGER)
        } else {
            None
        },
        plan.current ==> service_current && settings.sample is Some,
        !plan.current ==> plan.request == Some(0 as Nanos),
        plan.current && plan.request is None ==> (settings.timing matches Some(timing) && now
            + 5_000_000_000 < timing.finished_at + 30_000_000_000),
        plan.current ==> (plan.request matches Some(window) ==> window == 5_000_000_000),
{
    let current: bool = service_current && settings.matches_inventory(collection);
    let request = if !current {
        Some(0 as Nanos)
    } else if settings.refresh_due(now + configuration::STAGGER) {
        Some(configuration::STAGGER)
    } else {
        None
    };
    SettingsPlan { current, request }
}

/// The settings to show with a collection.
pub open spec fn shown_settings(
    catalog: CatalogModel,
    settings: NicSettingsCache,
    current: bool,
    failure: Option<(Nanos, Seq<char>)>,
    collection: NicCollection,
    timing: CollectionTiming,
) -> SampleModel {
    match (failure, settings.sample) {
        (Some((at, words)), _) => diagnostics::failed_sample(
            ETHTOOL_LINK_TEXT@,
            at,
            0,
            MonitorErrorCode::Io,
            words,
        ),
        (None, Some(kept)) if current => kept.deep_view(),
        _ => nic::settings_sample(catalog, collection.interfaces@, timing),
    }
}

/// The samples of the interfaces: their state and statistics, with the settings that
/// are current, or with why there are none.
pub fn finish_nic_collection(
    catalog: &MetricCatalog,
    settings: &NicSettingsCache,
    current: bool,
    failure: Option<(Nanos, String)>,
    collection: &NicCollection,
    timing: CollectionTiming,
    readings: &mut NicReadingsCache,
) -> (samples: Vec<ProviderSample>)
    requires
        old(readings).wf(),
        forall|i: int|
            0 <= i < collection.interfaces@.len() ==> nic::driver_shows(
                #[trigger] collection.interfaces@[i],
            ),
    ensures
        final(readings).wf(),
        final(readings).interfaces.deep_view() == nic::kept_after(
            old(readings).interfaces.deep_view(),
            collection.interfaces@,
        ),
        samples.deep_view() == nic::nic_samples(
            catalog.deep_view(),
            old(readings).interfaces.deep_view(),
            *collection,
            timing,
            shown_settings(
                catalog.deep_view(),
                *settings,
                current,
                match failure {
                    Some((at, words)) => Some((at, words@)),
                    None => None,
                },
                *collection,
                timing,
            ),
        ),
{
    let shown = match failure {
        Some((at, words)) => error_sample(
            ETHTOOL_LINK_TEXT,
            at,
            0,
            MonitorErrorCode::Io,
            words.as_str(),
        ),
        None => match &settings.sample {
            Some(kept) => if current {
                kept.copy()
            } else {
                nic::translate_nic_settings(catalog, collection, timing)
            },
            None => nic::translate_nic_settings(catalog, collection, timing),
        },
    };
    nic::translate_nic_collection(catalog, collection, timing, shown, readings)
}

pub open spec fn is_of(provider: Seq<char>) -> spec_fn(SampleModel) -> bool {
    |sample: SampleModel| sample.provider == provider
}

/// Samples with a new sample in place of the first one of its provider, if there is
/// one.
pub open spec fn replaced(
    samples: Seq<SampleModel>,
    provider: Seq<char>,
    sample: SampleModel,
) -> Seq<SampleModel> {
    match seqs::first_where(samples, is_of(provider), samples.len() as int) {
        Some(i) => samples.update(i, sample),
        None => samples,
    }
}

fn replace_sample(samples: &mut Vec<ProviderSample>, provider: &str, sample: ProviderSample)
    ensures
        final(samples).deep_view() == replaced(
            old(samples).deep_view(),
            provider@,
            sample.deep_view(),
        ),
{
    let ghost all = samples.deep_view();
    let ghost wanted = is_of(provider@);
    assert(all.len() == samples@.len());
    let mut i: usize = 0;
    while i < samples.len()
        invariant
            i <= samples.len(),
            *samples == *old(samples),
            all == samples.deep_view(),
            all.len() == samples@.len(),
            wanted == is_of(provider@),
            seqs::first_where(all, wanted, i as int) is None,
        decreases samples.len() - i,
    {
        assert(all[i as int] == samples@[i as int].deep_view());
        if same_text(samples[i].provider.as_str(), provider) {
            proof {
                seqs::lemma_first_where_stays(all, wanted, i as int + 1, all.len() as int);
            }
            samples.set(i, sample);
            assert(samples.deep_view() =~= all.update(i as int, sample.deep_view()));
            return;
        }
        i += 1;
    }
}

/// What is shown of settings that the worker finished, or of its failure.
pub open spec fn polled_settings(
    catalog: CatalogModel,
    polled: Result<(NicCollection, CollectionTiming), String>,
    now: Nanos,
) -> SampleModel {
    match polled {
        Ok((collection, timing)) => nic::settings_sample(
            catalog,
            collection.interfaces@,
            timing,
        ),
        Err(words) => diagnostics::failed_sample(
            ETHTOOL_LINK_TEXT@,
            now,
            0,
            MonitorErrorCode::Io,
            words@,
        ),
    }
}

/// Takes what the worker that reads settings has finished: new settings are kept and
/// shown at once, and so is its failure.
pub fn apply_nic_configuration(
    catalog: &MetricCatalog,
    settings: &mut NicSettingsCache,
    cache: &mut CachedSamples,
    polled: Result<Option<(NicCollection, CollectionTiming)>, String>,
    now: Nanos,
)
    requires
        old(settings).wf(),
    ensures
        final(settings).wf(),
        final(cache).collected_at == old(cache).collected_at,
        match polled {
            Ok(None) => *final(settings) == *old(settings) && *final(cache) == *old(cache),
            Ok(Some((collection, timing))) => {
                let sample = polled_settings(
                    catalog.deep_view(),
                    Ok((collection, timing)),
                    now,
                );
                &&& final(settings).timing == Some(timing)
                &&& final(settings).interfaces.view() == nic::inventory(
                    collection.interfaces@,
                    collection.interfaces@.len() as int,
                )
                &&& final(settings).sample matches Some(kept) && kept.deep_view() == sample
                &&& final(cache).samples.deep_view() == replaced(
                    old(cache).samples.deep_view(),
                    ETHTOOL_LINK_TEXT@,
                    sample,
                )
            },
            Err(words) => *final(settings) == *old(settings)
                && final(cache).samples.deep_view() == replaced(
                old(cache).samples.deep_view(),
                ETHTOOL_LINK_TEXT@,
                polled_settings(catalog.deep_view(), Err(words), now),
            ),
        },
{
    match polled {
        Ok(None) => {},
        Ok(Some((collection, timing))) => {
            settings.record(catalog, &collection, timing);
            if let Some(sample) = &settings.sample {
                replace_sample(&mut cache.samples, ETHTOOL_LINK_TEXT, sample.copy());
            }
        },
        Err(words) => {
            let sample = error_sample(
                ETHTOOL_LINK_TEXT,
                now,
                0,
                MonitorErrorCode::Io,
                words.as_str(),
            );
            replace_sample(&mut cache.samples, ETHTOOL_LINK_TEXT, sample);
        },
    }
}

} // verus!
