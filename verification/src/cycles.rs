//! What a whole cycle shows: each provider once, and only providers of the groups that
//! are needed.
use crate::catalog::{CatalogModel, ProviderSample, SampleModel};
use crate::collector;
use crate::collector::{CachedSamples, CollectionFocus, GroupCaches, Task, TASKS};
use crate::diagnostics::AttemptError;
use crate::model::Nanos;
use crate::netfilter;
use crate::netfilter::{
    NetfilterRuleIdentity, NetfilterRuleset, IPTABLES_IPV4, IPTABLES_IPV6, NFT_RULESET,
};
use crate::nic;
use crate::nic::{
    KeptModel, NicCollection, NicSettingsCache, ETHTOOL_LINK_TEXT, ETHTOOL_TEXT, SYSFS_NIC,
};
use crate::qdisc;
use crate::qdisc::{QdiscIdentity, QdiscRow, TC_JSON, TC_NETLINK};
use crate::seqs;
use crate::text;
use crate::translate;
use crate::translate::{
    CollectionTiming, HardirqCollection, LinkModel, RawSampleModel, PROC_CONNTRACK,
    PROC_INTERRUPTS, PROC_NETSTAT, PROC_NET_DEV, PROC_SNMP, PROC_SNMP6, PROC_SOCKSTAT,
    PROC_SOCKSTAT6, PROC_SOFTIRQS, PROC_SOFTNET, PROC_SYS_NET_CORE, PROC_SYS_NET_IPV4,
    RTNETLINK_LINK, SYSFS_LINK,
};
use vstd::prelude::*;

verus! {

/// Whether no provider has two samples.
pub open spec fn distinct_providers(samples: Seq<SampleModel>) -> bool {
    forall|i: int, j: int|
        0 <= i < j < samples.len() ==> (#[trigger] samples[i]).provider != (
        #[trigger] samples[j]).provider
}

/// Whether samples are of the providers that a task reads, at most one of each.
pub open spec fn fits_task(task: Task, samples: Seq<SampleModel>) -> bool {
    &&& distinct_providers(samples)
    &&& forall|i: int|
        0 <= i < samples.len() ==> collector::providers_of(task).contains(
            (#[trigger] samples[i]).provider,
        )
}

/// Whether every cache holds samples of its own task.
pub open spec fn caches_fit(caches: GroupCaches) -> bool {
    &&& fits_task(Task::Configuration, caches.configuration.samples.deep_view())
    &&& fits_task(Task::Rules, caches.rules.samples.deep_view())
    &&& fits_task(Task::Hardirq, caches.hardirq.samples.deep_view())
    &&& fits_task(Task::Tc, caches.tc.samples.deep_view())
    &&& fits_task(Task::Nic, caches.nic.samples.deep_view())
}

/// Whether a provider is one that a task of a needed group reads.
pub open spec fn is_needed(focus: CollectionFocus, provider: Seq<char>) -> bool {
    exists|task: Task| #[trigger]
        collector::providers_of(task).contains(provider) && focus.is_needed(
            collector::group_of(task),
        )
}

/// Tells the providers that can be read apart: how long a name is, and how it ends.
spec fn signature(name: Seq<char>) -> (nat, char, char) {
    (name.len(), name[name.len() - 1], name[name.len() - 2])
}

proof fn lemma_signatures()
    ensures
        signature(PROC_SYS_NET_IPV4@) == (23nat, '4', 'v'),
        signature(PROC_SYS_NET_CORE@) == (23nat, 'e', 'r'),
        signature(PROC_SNMP@) == (19nat, 'p', 'm'),
        signature(PROC_NETSTAT@) == (22nat, 't', 'a'),
        signature(PROC_SNMP6@) == (20nat, '6', 'p'),
        signature(PROC_SOCKSTAT@) == (23nat, 't', 'a'),
        signature(PROC_SOCKSTAT6@) == (24nat, '6', 't'),
        signature(PROC_CONNTRACK@) == (30nat, 'k', 'c'),
        signature(NFT_RULESET@) == (17nat, 't', 'e'),
        signature(IPTABLES_IPV4@) == (19nat, '4', 'v'),
        signature(IPTABLES_IPV6@) == (19nat, '6', 'v'),
        signature(PROC_SOFTNET@) == (27nat, 't', 'a'),
        signature(PROC_SOFTIRQS@) == (19nat, 's', 'q'),
        signature(PROC_INTERRUPTS@) == (21nat, 's', 't'),
        signature(TC_NETLINK@) == (18nat, 'c', 't'),
        signature(TC_JSON@) == (13nat, 'n', 'o'),
        signature(RTNETLINK_LINK@) == (26nat, 's', 't'),
        signature(SYSFS_LINK@) == (26nat, 's', 'c'),
        signature(PROC_NET_DEV@) == (18nat, 'v', 'e'),
        signature(SYSFS_NIC@) == (19nat, 'c', 'i'),
        signature(ETHTOOL_TEXT@) == (18nat, 't', 'x'),
        signature(ETHTOOL_LINK_TEXT@) == (23nat, 't', 'x'),
{
    reveal_strlit("linux.proc.sys.net.ipv4");
    reveal_strlit("linux.proc.sys.net.core");
    reveal_strlit("linux.proc.net.snmp");
    reveal_strlit("linux.proc.net.netstat");
    reveal_strlit("linux.proc.net.snmp6");
    reveal_strlit("linux.proc.net.sockstat");
    reveal_strlit("linux.proc.net.sockstat6");
    reveal_strlit("linux.proc.netfilter.conntrack");
    reveal_strlit("linux.nft.ruleset");
    reveal_strlit("linux.iptables.ipv4");
    reveal_strlit("linux.iptables.ipv6");
    reveal_strlit("linux.proc.net.softnet_stat");
    reveal_strlit("linux.proc.softirqs");
    reveal_strlit("linux.proc.interrupts");
    reveal_strlit("linux.rtnetlink.tc");
    reveal_strlit("linux.tc.json");
    reveal_strlit("linux.rtnetlink.link_stats");
    reveal_strlit("linux.sysfs.net.statistics");
    reveal_strlit("linux.proc.net.dev");
    reveal_strlit("linux.sysfs.net.nic");
    reveal_strlit("linux.ethtool.text");
    reveal_strlit("linux.ethtool.link_text");
}

/// At which task of a cycle a provider is shown. Interfaces are shown at the end.
spec fn turn_of(provider: Seq<char>) -> int {
    if provider == PROC_SYS_NET_IPV4@ || provider == PROC_SYS_NET_CORE@ {
        0
    } else if provider == PROC_SNMP@ || provider == PROC_NETSTAT@ || provider == PROC_SNMP6@ {
        1
    } else if provider == PROC_SOCKSTAT@ || provider == PROC_SOCKSTAT6@ {
        2
    } else if provider == PROC_CONNTRACK@ {
        3
    } else if provider == NFT_RULESET@ || provider == IPTABLES_IPV4@ || provider == IPTABLES_IPV6@ {
        4
    } else if provider == PROC_SOFTNET@ {
        5
    } else if provider == PROC_SOFTIRQS@ {
        6
    } else if provider == PROC_INTERRUPTS@ {
        7
    } else if provider == TC_NETLINK@ || provider == TC_JSON@ {
        8
    } else if provider == RTNETLINK_LINK@ {
        9
    } else if provider == SYSFS_LINK@ {
        10
    } else if provider == PROC_NET_DEV@ {
        11
    } else if provider == SYSFS_NIC@ || provider == ETHTOOL_TEXT@ || provider == ETHTOOL_LINK_TEXT@ {
        13
    } else {
        TASKS as int
    }
}

/// The turn of a task: when what it reads is shown.
spec fn turn(task: Task) -> int {
    match task {
        Task::Configuration => 0,
        Task::Protocols => 1,
        Task::Sockets => 2,
        Task::Conntrack => 3,
        Task::Rules => 4,
        Task::Softnet => 5,
        Task::Softirq => 6,
        Task::Hardirq => 7,
        Task::Tc => 8,
        Task::Links => 9,
        Task::SysfsLinks => 10,
        Task::ProcLinks => 11,
        Task::Nic | Task::NicConfiguration => 13,
    }
}

proof fn lemma_turns(task: Task, provider: Seq<char>)
    requires
        collector::providers_of(task).contains(provider),
    ensures
        turn_of(provider) == turn(task),
{
    lemma_signatures();
    let providers = collector::providers_of(task);
    let i = choose|i: int| 0 <= i < providers.len() && providers[i] == provider;
    assert(i == 0 || i == 1 || i == 2);
    assert(signature(providers[i]) == signature(provider));
}

/// Whether what a cycle shows after its first tasks is as it should be.
spec fn fits_so_far(focus: CollectionFocus, done: int, samples: Seq<SampleModel>) -> bool {
    &&& distinct_providers(samples)
    &&& forall|i: int|
        0 <= i < samples.len() ==> is_needed(focus, (#[trigger] samples[i]).provider) && 0
            <= turn_of(samples[i].provider) < done
}

proof fn lemma_more_is_shown(
    focus: CollectionFocus,
    done: int,
    samples: Seq<SampleModel>,
    task: Task,
    added: Seq<SampleModel>,
)
    requires
        fits_so_far(focus, done, samples),
        fits_task(task, added),
        turn(task) == done,
        focus.is_needed(collector::group_of(task)),
    ensures
        fits_so_far(focus, done + 1, samples + added),
{
    let all = samples + added;
    let n = samples.len() as int;
    assert forall|i: int| 0 <= i < all.len() implies is_needed(
        focus,
        (#[trigger] all[i]).provider,
    ) && 0 <= turn_of(all[i].provider) < done + 1 && (i >= n ==> turn_of(all[i].provider)
        == done) && (i < n ==> turn_of(all[i].provider) < done) by {
        if i < n {
            assert(all[i] == samples[i]);
        } else {
            assert(all[i] == added[i - n]);
            assert(collector::providers_of(task).contains(added[i - n].provider));
            lemma_turns(task, all[i].provider);
        }
    }
    assert forall|i: int, j: int| 0 <= i < j < all.len() implies (#[trigger] all[i]).provider != (
    #[trigger] all[j]).provider by {
        if j < n {
            assert(all[i] == samples[i] && all[j] == samples[j]);
        } else if i >= n {
            assert(all[i] == added[i - n] && all[j] == added[j - n]);
        }
    }
}

proof fn lemma_next_fits(
    focus: CollectionFocus,
    caches: GroupCaches,
    links_missing: bool,
    now: Nanos,
    done: int,
    samples: Seq<SampleModel>,
)
    requires
        0 <= done <= TASKS,
        caches_fit(caches),
        fits_so_far(focus, done, samples),
    ensures
        ({
            let next = collector::next_of(focus, caches, links_missing, now, done, samples);
            done <= next.0 <= TASKS && fits_so_far(focus, next.0, next.1) && (next.0 < TASKS
                ==> collector::is_wanted(
                focus,
                caches,
                links_missing,
                collector::task_of(next.0),
                now,
            ))
        }),
    decreases TASKS - done,
{
    let task = collector::task_of(done);
    if done < TASKS && !collector::is_wanted(focus, caches, links_missing, task, now) {
        let added = collector::cached_of(focus, caches, task);
        if added.len() == 0 {
            assert(samples + added =~= samples);
        } else {
            lemma_more_is_shown(focus, done, samples, task, added);
        }
        lemma_next_fits(focus, caches, links_missing, now, done + 1, samples + added);
    }
}

/// What a task got from its sources.
pub enum Source {
    /// Counters, for each provider in turn.
    Counters(Seq<(CollectionTiming, Result<Seq<RawSampleModel>, AttemptError>)>),
    /// Rules, for each backend in turn, with the rules that were numbered by then.
    Rules(
        Seq<
            (
                CollectionTiming,
                Result<NetfilterRuleset, AttemptError>,
                Seq<NetfilterRuleIdentity<Seq<char>>>,
            ),
        >,
    ),
    Interrupts(CollectionTiming, Result<HardirqCollection, AttemptError>),
    Qdiscs {
        timing: CollectionTiming,
        native: Result<Vec<QdiscRow>, AttemptError>,
        fallback: Option<(CollectionTiming, Result<Vec<QdiscRow>, AttemptError>)>,
        known: Seq<QdiscIdentity<Seq<char>>>,
    },
    Links(CollectionTiming, Result<Seq<LinkModel>, AttemptError>),
    Interfaces {
        kept: Seq<KeptModel>,
        settings: NicSettingsCache,
        current: bool,
        failure: Option<(Nanos, Seq<char>)>,
        collection: NicCollection,
        timing: CollectionTiming,
    },
    Settings,
}

/// Whether this is what a task gets.
pub open spec fn is_source_of(source: Source, task: Task) -> bool {
    match task {
        Task::Rules => source matches Source::Rules(results) && results.len()
            == collector::providers_of(task).len(),
        Task::Hardirq => source is Interrupts,
        Task::Tc => source is Qdiscs,
        Task::Links => source is Links,
        Task::Nic => source matches Source::Interfaces { settings, .. } && settings.wf(),
        Task::NicConfiguration => source is Settings,
        _ => source matches Source::Counters(results) && results.len() == collector::providers_of(
            task,
        ).len(),
    }
}

/// What the library makes of it.
pub open spec fn translated(catalog: CatalogModel, task: Task, source: Source) -> Seq<
    SampleModel,
> {
    match source {
        Source::Counters(results) => Seq::new(
            results.len(),
            |i: int|
                translate::attempt_report(
                    catalog,
                    collector::providers_of(task)[i],
                    results[i].0,
                    results[i].1,
                ),
        ),
        Source::Rules(results) => Seq::new(
            results.len(),
            |i: int|
                netfilter::ruleset_sample(
                    catalog,
                    collector::providers_of(task)[i],
                    results[i].0,
                    results[i].1,
                    results[i].2,
                ),
        ),
        Source::Interrupts(timing, result) => seq![
            translate::hardirq_report(catalog, timing, result),
        ],
        Source::Qdiscs { timing, native, fallback, known } => qdisc::tc_samples(
            catalog,
            timing,
            native,
            fallback,
            known,
        ),
        Source::Links(timing, result) => seq![translate::link_report(catalog, timing, result)],
        Source::Interfaces { kept, settings, current, failure, collection, timing } =>
            nic::nic_samples(
            catalog,
            kept,
            collection,
            timing,
            collector::shown_settings(catalog, settings, current, failure, collection, timing),
        ),
        Source::Settings => Seq::empty(),
    }
}

/// No task reads a provider twice.
proof fn lemma_providers_differ(task: Task)
    ensures
        forall|i: int, j: int|
            0 <= i < j < collector::providers_of(task).len() ==> #[trigger]
            collector::providers_of(task)[i] != #[trigger] collector::providers_of(task)[j],
{
    lemma_signatures();
    let providers = collector::providers_of(task);
    assert forall|i: int, j: int| 0 <= i < j < providers.len() implies #[trigger] providers[i]
        != #[trigger] providers[j] by {
        assert(i == 0 || i == 1);
        assert(j == 1 || j == 2);
        if providers[i] == providers[j] {
            assert(signature(providers[i]) == signature(providers[j]));
        }
    }
}

/// Samples that are of the providers of a task, in order, fit it.
proof fn lemma_in_turn_fits(task: Task, samples: Seq<SampleModel>)
    requires
        samples.len() == collector::providers_of(task).len(),
        forall|i: int|
            0 <= i < samples.len() ==> (#[trigger] samples[i]).provider
                == collector::providers_of(task)[i],
    ensures
        fits_task(task, samples),
{
    let providers = collector::providers_of(task);
    lemma_providers_differ(task);
    assert forall|i: int, j: int| 0 <= i < j < samples.len() implies (
    #[trigger] samples[i]).provider != (#[trigger] samples[j]).provider by {
        assert(providers[i] != providers[j]);
    }
    assert forall|i: int| 0 <= i < samples.len() implies providers.contains(
        (#[trigger] samples[i]).provider,
    ) by {
        assert(providers.contains(providers[i]));
    }
}

proof fn lemma_counters_in_turn(
    catalog: CatalogModel,
    task: Task,
    results: Seq<(CollectionTiming, Result<Seq<RawSampleModel>, AttemptError>)>,
    i: int,
)
    requires
        0 <= i < results.len(),
    ensures
        translated(catalog, task, Source::Counters(results))[i].provider
            == collector::providers_of(task)[i],
{
}

proof fn lemma_rules_in_turn(
    catalog: CatalogModel,
    task: Task,
    results: Seq<
        (
            CollectionTiming,
            Result<NetfilterRuleset, AttemptError>,
            Seq<NetfilterRuleIdentity<Seq<char>>>,
        ),
    >,
    i: int,
)
    requires
        0 <= i < results.len(),
    ensures
        translated(catalog, task, Source::Rules(results))[i].provider == collector::providers_of(
            task,
        )[i],
{
}

proof fn lemma_qdiscs_in_turn(
    catalog: CatalogModel,
    timing: CollectionTiming,
    native: Result<Vec<QdiscRow>, AttemptError>,
    fallback: Option<(CollectionTiming, Result<Vec<QdiscRow>, AttemptError>)>,
    known: Seq<QdiscIdentity<Seq<char>>>,
)
    ensures
        ({
            let samples = qdisc::tc_samples(catalog, timing, native, fallback, known);
            samples.len() == 2 && samples[0].provider == TC_NETLINK@ && samples[1].provider
                == TC_JSON@
        }),
{
    lemma_qdiscs_provider(catalog, TC_NETLINK@, timing, native, known);
    lemma_qdiscs_provider(catalog, TC_JSON@, (fallback->0).0, (fallback->0).1, known);
}

proof fn lemma_qdiscs_provider(
    catalog: CatalogModel,
    provider: Seq<char>,
    timing: CollectionTiming,
    result: Result<Vec<QdiscRow>, AttemptError>,
    known: Seq<QdiscIdentity<Seq<char>>>,
)
    ensures
        qdisc::tc_sample(catalog, provider, timing, result, known).provider == provider,
{
}

proof fn lemma_single(catalog: CatalogModel, source: Source)
    ensures
        source is Interrupts ==> translated(catalog, Task::Hardirq, source).len() == 1
            && translated(catalog, Task::Hardirq, source)[0].provider == PROC_INTERRUPTS@,
        source is Links ==> translated(catalog, Task::Links, source).len() == 1 && translated(
            catalog,
            Task::Links,
            source,
        )[0].provider == RTNETLINK_LINK@,
{
}

/// The translations of a task give samples of the providers of that task, and of no
/// other, at most one of each.
pub proof fn translations_fit_their_task(catalog: CatalogModel, task: Task, source: Source)
    requires
        is_source_of(source, task),
    ensures
        fits_task(task, translated(catalog, task, source)),
{
    let samples = translated(catalog, task, source);
    match source {
        Source::Interfaces { kept, settings, current, failure, collection, timing } => {
            settings_are_of_their_provider(
                catalog,
                settings,
                current,
                failure,
                collection,
                timing,
            );
            interfaces_fit(
                catalog,
                kept,
                collection,
                timing,
                collector::shown_settings(catalog, settings, current, failure, collection, timing),
            );
        },
        Source::Settings => {},
        Source::Counters(results) => {
            assert forall|i: int| 0 <= i < samples.len() implies (#[trigger] samples[i]).provider
                == collector::providers_of(task)[i] by {
                lemma_counters_in_turn(catalog, task, results, i);
            }
            lemma_in_turn_fits(task, samples);
        },
        Source::Rules(results) => {
            assert forall|i: int| 0 <= i < samples.len() implies (#[trigger] samples[i]).provider
                == collector::providers_of(task)[i] by {
                lemma_rules_in_turn(catalog, task, results, i);
            }
            lemma_in_turn_fits(task, samples);
        },
        Source::Qdiscs { timing, native, fallback, known } => {
            lemma_qdiscs_in_turn(catalog, timing, native, fallback, known);
            lemma_in_turn_fits(task, samples);
        },
        _ => {
            lemma_single(catalog, source);
            lemma_in_turn_fits(task, samples);
        },
    }
}

/// Settings that the worker finished, or its failure, and when it was asked.
pub type Poll = (Result<(NicCollection, CollectionTiming), String>, Nanos);

/// The cached samples of interfaces after the worker was asked `n` times.
pub open spec fn polled_upto(
    catalog: CatalogModel,
    samples: Seq<SampleModel>,
    polls: Seq<Poll>,
    n: int,
) -> Seq<SampleModel>
    decreases n,
{
    if n <= 0 {
        samples
    } else {
        collector::replaced(
            polled_upto(catalog, samples, polls, n - 1),
            ETHTOOL_LINK_TEXT@,
            collector::polled_settings(catalog, polls[n - 1].0, polls[n - 1].1),
        )
    }
}

proof fn lemma_polled_fits(
    catalog: CatalogModel,
    samples: Seq<SampleModel>,
    polls: Seq<Poll>,
    n: int,
)
    requires
        fits_task(Task::Nic, samples),
    ensures
        fits_task(Task::Nic, polled_upto(catalog, samples, polls, n)),
    decreases n,
{
    if n > 0 {
        lemma_polled_fits(catalog, samples, polls, n - 1);
        replaced_settings_fit(
            polled_upto(catalog, samples, polls, n - 1),
            collector::polled_settings(catalog, polls[n - 1].0, polls[n - 1].1),
        );
    }
}

/// One task of a cycle: when it was asked for, what it got, what the worker finished
/// meanwhile, when it was finished and with what, and what is cached of interfaces by
/// then.
pub struct Step {
    pub task: Task,
    pub asked_at: Nanos,
    pub source: Source,
    pub polls: Seq<Poll>,
    pub finished_at: Nanos,
    pub samples: Vec<ProviderSample>,
    pub interfaces: CachedSamples,
}

/// Whether a step was finished with what the library makes of its sources, and with what
/// it makes of the samples of interfaces that were cached before.
pub open spec fn is_performed(
    catalog: CatalogModel,
    before: Seq<SampleModel>,
    step: Step,
) -> bool {
    &&& is_source_of(step.source, step.task)
    &&& step.samples.deep_view() == translated(catalog, step.task, step.source)
    &&& step.interfaces.samples.deep_view() == polled_upto(
        catalog,
        before,
        step.polls,
        step.polls.len() as int,
    )
}

/// Whether a step has samples of its task, at most one of each provider, and leaves
/// samples of interfaces in their cache.
spec fn fits_step(step: Step) -> bool {
    &&& fits_task(step.task, step.samples.deep_view())
    &&& fits_task(Task::Nic, step.interfaces.samples.deep_view())
}

/// Where a cycle stands.
pub struct Progress {
    pub caches: GroupCaches,
    pub links_missing: bool,
    pub done: int,
    pub samples: Seq<SampleModel>,
}

/// The progress when the next task was asked for.
pub open spec fn asked(focus: CollectionFocus, progress: Progress, now: Nanos) -> Progress {
    let next = collector::next_of(
        focus,
        progress.caches,
        progress.links_missing,
        now,
        progress.done,
        progress.samples,
    );
    Progress { done: next.0, samples: next.1, ..progress }
}

/// The progress when the task that is due was finished.
pub open spec fn finished(progress: Progress, step: Step) -> Progress {
    let task = collector::task_of(progress.done);
    let caches = GroupCaches { nic: step.interfaces, ..progress.caches };
    Progress {
        caches: collector::caches_after(caches, task, step.finished_at, step.samples),
        links_missing: match task {
            Task::Links | Task::SysfsLinks => collector::all_give_nothing(
                step.samples.deep_view(),
            ),
            _ => progress.links_missing,
        },
        done: progress.done + 1,
        samples: progress.samples + collector::added_by(caches, task, step.samples.deep_view()),
    }
}

/// Where a cycle stands after the first `n` steps, and whether each of these was the
/// task that was due.
pub open spec fn progress_after(
    focus: CollectionFocus,
    start: Progress,
    steps: Seq<Step>,
    n: int,
) -> Option<Progress>
    decreases n,
{
    if n <= 0 {
        Some(start)
    } else {
        match progress_after(focus, start, steps, n - 1) {
            None => None,
            Some(before) => {
                let due = asked(focus, before, steps[n - 1].asked_at);
                if due.done < TASKS && collector::task_of(due.done) == steps[n - 1].task {
                    Some(finished(due, steps[n - 1]))
                } else {
                    None
                }
            },
        }
    }
}

/// A cycle that begins: nothing is done and nothing is shown.
pub open spec fn beginning(caches: GroupCaches) -> Progress {
    Progress { caches, links_missing: false, done: 0, samples: Seq::empty() }
}

proof fn lemma_step_fits(focus: CollectionFocus, before: Progress, step: Step)
    requires
        0 <= before.done <= TASKS,
        caches_fit(before.caches),
        fits_so_far(focus, before.done, before.samples),
        fits_step(step),
        asked(focus, before, step.asked_at).done < TASKS,
        collector::task_of(asked(focus, before, step.asked_at).done) == step.task,
    ensures
        ({
            let after = finished(asked(focus, before, step.asked_at), step);
            &&& 0 <= after.done <= TASKS
            &&& caches_fit(after.caches)
            &&& fits_so_far(focus, after.done, after.samples)
        }),
{
    lemma_next_fits(
        focus,
        before.caches,
        before.links_missing,
        step.asked_at,
        before.done,
        before.samples,
    );
    let due = asked(focus, before, step.asked_at);
    let caches = GroupCaches { nic: step.interfaces, ..before.caches };
    let added = collector::added_by(caches, step.task, step.samples.deep_view());
    match step.task {
        Task::Nic => {
            assert(due.samples + added =~= due.samples);
        },
        Task::NicConfiguration => {
            lemma_more_is_shown(focus, due.done, due.samples, Task::Nic, added);
        },
        _ => {
            lemma_more_is_shown(focus, due.done, due.samples, step.task, added);
        },
    }
}

/// Whether every step of a cycle was performed.
pub open spec fn all_performed(
    catalog: CatalogModel,
    focus: CollectionFocus,
    caches: GroupCaches,
    steps: Seq<Step>,
) -> bool {
    forall|n: int|
        0 <= n < steps.len() ==> (progress_after(focus, beginning(caches), steps, n) matches Some(
            progress,
        ) ==> is_performed(catalog, progress.caches.nic.samples.deep_view(), #[trigger] steps[n]))
}

proof fn lemma_steps_fit(
    catalog: CatalogModel,
    focus: CollectionFocus,
    caches: GroupCaches,
    steps: Seq<Step>,
    n: int,
)
    requires
        0 <= n <= steps.len(),
        caches_fit(caches),
        all_performed(catalog, focus, caches, steps),
    ensures
        progress_after(focus, beginning(caches), steps, n) matches Some(progress) ==> 0
            <= progress.done <= TASKS && caches_fit(progress.caches) && fits_so_far(
            focus,
            progress.done,
            progress.samples,
        ),
    decreases n,
{
    if n > 0 {
        lemma_steps_fit(catalog, focus, caches, steps, n - 1);
        if let Some(before) = progress_after(focus, beginning(caches), steps, n - 1) {
            let step = steps[n - 1];
            let cached = before.caches.nic.samples.deep_view();
            assert(is_performed(catalog, cached, step));
            translations_fit_their_task(catalog, step.task, step.source);
            lemma_polled_fits(catalog, cached, step.polls, step.polls.len() as int);
            let due = asked(focus, before, step.asked_at);
            if due.done < TASKS && collector::task_of(due.done) == step.task {
                lemma_step_fits(focus, before, step);
            }
        }
    }
}

/// Whether every provider comes after the one before it.
pub open spec fn strictly_ordered(samples: Seq<SampleModel>) -> bool {
    forall|i: int, j: int|
        0 <= i < j < samples.len() ==> text::text_before(
            (#[trigger] samples[i]).provider,
            (#[trigger] samples[j]).provider,
        )
}

/// A provider that occurs once among samples occurs once in any order of them.
proof fn lemma_reordered(a: Seq<SampleModel>, b: Seq<SampleModel>)
    requires
        distinct_providers(a),
        collector::providers_ordered(b),
        a.to_multiset() == b.to_multiset(),
    ensures
        strictly_ordered(b),
        forall|i: int| 0 <= i < b.len() ==> a.contains(#[trigger] b[i]),
{
    a.to_multiset_ensures();
    b.to_multiset_ensures();
    assert forall|i: int| 0 <= i < b.len() implies a.contains(#[trigger] b[i]) by {
        assert(b.contains(b[i]));
        assert(b.to_multiset().count(b[i]) > 0);
    }
    assert(a.no_duplicates()) by {
        assert forall|i: int, j: int| 0 <= i < a.len() && 0 <= j < a.len() && i != j implies a[i]
            != a[j] by {
            if i < j {
                assert(a[i].provider != a[j].provider);
            } else {
                assert(a[j].provider != a[i].provider);
            }
        }
    }
    a.lemma_multiset_has_no_duplicates();
    assert forall|x: SampleModel| b.to_multiset().contains(x) implies b.to_multiset().count(x)
        == 1 by {
        assert(a.to_multiset().contains(x));
    }
    b.lemma_multiset_has_no_duplicates_conv();
    assert forall|i: int, j: int| 0 <= i < j < b.len() implies text::text_before(
        (#[trigger] b[i]).provider,
        (#[trigger] b[j]).provider,
    ) by {
        assert(b[i] != b[j]);
        let k = choose|k: int| 0 <= k < a.len() && a[k] == b[i];
        let l = choose|l: int| 0 <= l < a.len() && a[l] == b[j];
        assert(a.contains(b[i]) && a.contains(b[j]));
        assert(k != l);
        assert(a[k].provider != a[l].provider);
        text::text_order_is_strict_and_total(b[i].provider, b[j].provider, b[i].provider);
    }
}

/// A cycle shows each provider once, in order, and only providers that are needed:
/// whatever the sources gave, what the cycle hands on is strictly ordered by provider, and
/// every provider is read for a needed group, or is one that cannot be read where
/// everything is shown. What is cached fits the next cycle.
pub proof fn cycles_show_each_provider_once(
    catalog: CatalogModel,
    focus: CollectionFocus,
    caches: GroupCaches,
    steps: Seq<Step>,
    last_asked_at: Nanos,
    now: Nanos,
    names: Seq<Seq<char>>,
)
    requires
        caches_fit(caches),
        all_performed(catalog, focus, caches, steps),
        progress_after(focus, beginning(caches), steps, steps.len() as int) is Some,
        collector::are_unsupported(catalog, names),
    ensures
        ({
            let progress = progress_after(focus, beginning(caches), steps, steps.len() as int)->0;
            let shown = collector::cycle_result(
                catalog,
                focus,
                asked(focus, progress, last_asked_at).samples,
                now,
                names,
            );
            &&& strictly_ordered(shown)
            &&& forall|i: int|
                0 <= i < shown.len() ==> is_needed(focus, (#[trigger] shown[i]).provider) || (
                focus.all && names.contains(shown[i].provider))
            &&& caches_fit(progress.caches)
        }),
{
    lemma_steps_fit(catalog, focus, caches, steps, steps.len() as int);
    let progress = progress_after(focus, beginning(caches), steps, steps.len() as int)->0;
    lemma_next_fits(
        focus,
        progress.caches,
        progress.links_missing,
        last_asked_at,
        progress.done,
        progress.samples,
    );
    let read = asked(focus, progress, last_asked_at).samples;
    let unread = collector::unsupported_samples(names, now);
    let all = if focus.all {
        read + unread
    } else {
        read
    };
    let n = read.len() as int;
    assert forall|i: int| 0 <= i < all.len() implies if i < n {
        is_needed(focus, (#[trigger] all[i]).provider) && all[i] == read[i]
    } else {
        focus.all && names.contains(all[i].provider) && all[i].provider == names[i - n]
    } by {
        if i >= n {
            assert(all[i] == unread[i - n]);
        }
    }
    assert forall|i: int, j: int| 0 <= i < j < all.len() implies (#[trigger] all[i]).provider != (
    #[trigger] all[j]).provider by {
        if i >= n {
            text::text_order_is_strict_and_total(
                all[i].provider,
                all[j].provider,
                all[i].provider,
            );
        } else if j >= n {
            collector::implemented_providers_are_read(all[i].provider);
            assert(names.contains(all[j].provider));
        }
    }
    collector::cycles_are_in_provider_order(all);
    let shown = collector::in_provider_order(all);
    lemma_reordered(all, shown);
    assert forall|i: int| 0 <= i < shown.len() implies is_needed(
        focus,
        (#[trigger] shown[i]).provider,
    ) || (focus.all && names.contains(shown[i].provider)) by {
        assert(all.contains(shown[i]));
        let k = choose|k: int| 0 <= k < all.len() && all[k] == shown[i];
        assert(all[k].provider == shown[i].provider);
    }
}

/// The caches of a collector fit from its beginning, and stay so when the focus changes.
pub proof fn caches_fit_whatever_the_focus(
    caches: GroupCaches,
    before: CollectionFocus,
    after: CollectionFocus,
)
    ensures
        caches.configuration.samples.deep_view().len() == 0
            && caches.rules.samples.deep_view().len() == 0
            && caches.hardirq.samples.deep_view().len() == 0
            && caches.tc.samples.deep_view().len() == 0 && caches.nic.samples.deep_view().len()
            == 0 ==> caches_fit(caches),
        caches_fit(caches) ==> caches_fit(collector::refocused(caches, before, after)),
{
}

/// Settings that come in later take the place of others of their provider: the cached
/// samples of interfaces still fit.
pub proof fn replaced_settings_fit(samples: Seq<SampleModel>, settings: SampleModel)
    requires
        fits_task(Task::Nic, samples),
        settings.provider == ETHTOOL_LINK_TEXT@,
    ensures
        fits_task(Task::Nic, collector::replaced(samples, ETHTOOL_LINK_TEXT@, settings)),
{
    let wanted = collector::is_of(ETHTOOL_LINK_TEXT@);
    seqs::lemma_first_where(samples, wanted, samples.len() as int);
    let after = collector::replaced(samples, ETHTOOL_LINK_TEXT@, settings);
    assert forall|i: int| 0 <= i < samples.len() implies (#[trigger] after[i]).provider
        == samples[i].provider by {
        if let Some(at) = seqs::first_where(samples, wanted, samples.len() as int) {
            assert(wanted(samples[at]));
        }
    }
    assert forall|i: int, j: int| 0 <= i < j < after.len() implies (#[trigger] after[i]).provider
        != (#[trigger] after[j]).provider by {
        assert(samples[i].provider != samples[j].provider);
    }
    assert forall|i: int| 0 <= i < after.len() implies collector::providers_of(
        Task::Nic,
    ).contains((#[trigger] after[i]).provider) by {
        assert(collector::providers_of(Task::Nic).contains(samples[i].provider));
    }
}

/// The samples of interfaces are of the providers that are read for them, one of each.
pub proof fn interfaces_fit(
    catalog: CatalogModel,
    kept: Seq<KeptModel>,
    collection: NicCollection,
    timing: CollectionTiming,
    settings: SampleModel,
)
    requires
        settings.provider == ETHTOOL_LINK_TEXT@,
    ensures
        fits_task(Task::Nic, nic::nic_samples(catalog, kept, collection, timing, settings)),
{
    lemma_signatures();
    let providers = collector::providers_of(Task::Nic);
    assert(providers.contains(providers[0]));
    assert(providers.contains(providers[1]));
    assert(providers.contains(providers[2]));
}

/// What is shown of settings is of the provider of settings.
pub proof fn settings_are_of_their_provider(
    catalog: CatalogModel,
    settings: NicSettingsCache,
    current: bool,
    failure: Option<(Nanos, Seq<char>)>,
    collection: NicCollection,
    timing: CollectionTiming,
)
    requires
        settings.wf(),
    ensures
        collector::shown_settings(
            catalog,
            settings,
            current,
            failure,
            collection,
            timing,
        ).provider == ETHTOOL_LINK_TEXT@,
        nic::settings_sample(catalog, collection.interfaces@, timing).provider
            == ETHTOOL_LINK_TEXT@,
{
}

/// One collection of a session: the focuses that were set before it, the last of which it
/// has, its steps, and when its end was reached.
pub struct Visit {
    pub focuses: Seq<CollectionFocus>,
    pub steps: Seq<Step>,
    pub last_asked_at: Nanos,
    pub now: Nanos,
}

/// The focus and the caches after the first `n` focuses were set.
pub open spec fn focused_upto(
    focus: CollectionFocus,
    caches: GroupCaches,
    focuses: Seq<CollectionFocus>,
    n: int,
) -> (CollectionFocus, GroupCaches)
    decreases n,
{
    if n <= 0 {
        (focus, caches)
    } else {
        let (before, kept) = focused_upto(focus, caches, focuses, n - 1);
        (focuses[n - 1], collector::refocused(kept, before, focuses[n - 1]))
    }
}

/// The focus and the caches with which a visit begins.
pub open spec fn visit_begins(focus: CollectionFocus, caches: GroupCaches, visit: Visit) -> (
    CollectionFocus,
    GroupCaches,
) {
    focused_upto(focus, caches, visit.focuses, visit.focuses.len() as int)
}

/// The focus and the caches after the first `n` visits, if the steps of each were those
/// that were due.
pub open spec fn visited(
    focus: CollectionFocus,
    caches: GroupCaches,
    visits: Seq<Visit>,
    n: int,
) -> Option<(CollectionFocus, GroupCaches)>
    decreases n,
{
    if n <= 0 {
        Some((focus, caches))
    } else {
        match visited(focus, caches, visits, n - 1) {
            None => None,
            Some((focus, caches)) => {
                let visit = visits[n - 1];
                let (focus, caches) = visit_begins(focus, caches, visit);
                match progress_after(
                    focus,
                    beginning(caches),
                    visit.steps,
                    visit.steps.len() as int,
                ) {
                    None => None,
                    Some(progress) => Some((focus, progress.caches)),
                }
            },
        }
    }
}

/// Whether every step of every visit was performed.
pub open spec fn visits_performed(
    catalog: CatalogModel,
    focus: CollectionFocus,
    caches: GroupCaches,
    visits: Seq<Visit>,
) -> bool {
    forall|n: int|
        0 <= n < visits.len() ==> (visited(focus, caches, visits, n) matches Some(by_then) ==> {
            let begun = visit_begins(by_then.0, by_then.1, #[trigger] visits[n]);
            all_performed(catalog, begun.0, begun.1, visits[n].steps)
        })
}

proof fn lemma_focuses_fit(
    focus: CollectionFocus,
    caches: GroupCaches,
    focuses: Seq<CollectionFocus>,
    n: int,
)
    requires
        caches_fit(caches),
    ensures
        caches_fit(focused_upto(focus, caches, focuses, n).1),
    decreases n,
{
    if n > 0 {
        lemma_focuses_fit(focus, caches, focuses, n - 1);
        let (before, kept) = focused_upto(focus, caches, focuses, n - 1);
        caches_fit_whatever_the_focus(kept, before, focuses[n - 1]);
    }
}

proof fn lemma_visits_fit(
    catalog: CatalogModel,
    focus: CollectionFocus,
    caches: GroupCaches,
    visits: Seq<Visit>,
    n: int,
)
    requires
        0 <= n <= visits.len(),
        caches_fit(caches),
        visits_performed(catalog, focus, caches, visits),
    ensures
        visited(focus, caches, visits, n) matches Some(by_then) ==> caches_fit(by_then.1),
    decreases n,
{
    if n > 0 {
        lemma_visits_fit(catalog, focus, caches, visits, n - 1);
        if let Some(by_then) = visited(focus, caches, visits, n - 1) {
            let visit = visits[n - 1];
            let begun = visit_begins(by_then.0, by_then.1, visit);
            lemma_focuses_fit(
                by_then.0,
                by_then.1,
                visit.focuses,
                visit.focuses.len() as int,
            );
            assert(all_performed(catalog, begun.0, begun.1, visit.steps));
            lemma_steps_fit(
                catalog,
                begun.0,
                begun.1,
                visit.steps,
                visit.steps.len() as int,
            );
        }
    }
}

/// In a whole session, from a collector that holds nothing, through whatever focuses and
/// whatever the sources gave, every collection shows each provider once, in order, and only
/// providers that its focus needs, or that cannot be read where everything is shown.
pub proof fn sessions_show_each_provider_once(
    catalog: CatalogModel,
    focus: CollectionFocus,
    caches: GroupCaches,
    visits: Seq<Visit>,
    n: int,
    names: Seq<Seq<char>>,
)
    requires
        caches.configuration.samples.deep_view().len() == 0,
        caches.rules.samples.deep_view().len() == 0,
        caches.hardirq.samples.deep_view().len() == 0,
        caches.tc.samples.deep_view().len() == 0,
        caches.nic.samples.deep_view().len() == 0,
        visits_performed(catalog, focus, caches, visits),
        0 <= n < visits.len(),
        visited(focus, caches, visits, n + 1) is Some,
        collector::are_unsupported(catalog, names),
    ensures
        ({
            let by_then = visited(focus, caches, visits, n)->0;
            let begun = visit_begins(by_then.0, by_then.1, visits[n]);
            let steps = visits[n].steps;
            let progress = progress_after(
                begun.0,
                beginning(begun.1),
                steps,
                steps.len() as int,
            )->0;
            let shown = collector::cycle_result(
                catalog,
                begun.0,
                asked(begun.0, progress, visits[n].last_asked_at).samples,
                visits[n].now,
                names,
            );
            &&& strictly_ordered(shown)
            &&& forall|i: int|
                0 <= i < shown.len() ==> is_needed(begun.0, (#[trigger] shown[i]).provider) || (
                begun.0.all && names.contains(shown[i].provider))
        }),
{
    caches_fit_whatever_the_focus(caches, focus, focus);
    lemma_visits_fit(catalog, focus, caches, visits, n);
    let by_then = visited(focus, caches, visits, n)->0;
    let visit = visits[n];
    let begun = visit_begins(by_then.0, by_then.1, visit);
    lemma_focuses_fit(by_then.0, by_then.1, visit.focuses, visit.focuses.len() as int);
    assert(all_performed(catalog, begun.0, begun.1, visit.steps));
    cycles_show_each_provider_once(
        catalog,
        begun.0,
        begun.1,
        visit.steps,
        visit.last_asked_at,
        visit.now,
        names,
    );
}

} // verus!
