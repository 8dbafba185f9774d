//! What is collected and when: which groups a cycle reads, what it shows of the others, and
//! how much of it there is room for.
use crate::catalog::{CatalogModel, SampleModel};
use crate::collector;
use crate::collector::{CachedSamples, CollectionFocus, Group, GroupCaches, TASKS, Task};
use crate::configuration;
use crate::diagnostics;
use crate::interleave;
use crate::model::Nanos;
use crate::nic;
use crate::nic::{NicCollection, NicSettingsCache};
use crate::rows;
use crate::schedule;
use crate::seqs;
use crate::translate::CollectionTiming;
use vstd::prelude::*;

verus! {

/// Each group is asked for by its own part of the focus.
pub proof fn groups_are_asked_for_by_themselves(focus: CollectionFocus)
    ensures
        focus.is_needed(Group::Configuration) == focus.configuration.needed,
        focus.is_needed(Group::Protocols) == focus.protocols.needed,
        focus.is_needed(Group::Sockets) == focus.sockets.needed,
        focus.is_needed(Group::Conntrack) == focus.conntrack.needed,
        focus.is_needed(Group::Rules) == focus.rules.needed,
        focus.is_needed(Group::Softnet) == focus.softnet.needed,
        focus.is_needed(Group::Softirq) == focus.softirq.needed,
        focus.is_needed(Group::Hardirq) == focus.hardirq.needed,
        focus.is_needed(Group::Tc) == focus.tc.needed,
        focus.is_needed(Group::Links) == focus.links.needed,
        focus.is_needed(Group::Nic) == focus.nic.needed,
        focus.is_foreground(Group::Rules) == focus.rules.foreground,
        focus.is_foreground(Group::Hardirq) == focus.hardirq.foreground,
        focus.is_foreground(Group::Tc) == focus.tc.foreground,
        focus.is_foreground(Group::Nic) == focus.nic.foreground,
{
}

/// What is kept is read again if it was never read, if it is looked at, or if it is as old as
/// its interval.
pub proof fn kept_samples_are_read_again(
    cache: CachedSamples,
    now: Nanos,
    foreground: bool,
    interval: Nanos,
)
    ensures
        cache.collected_at is None ==> cache.is_due(now, foreground, interval),
        foreground ==> cache.is_due(now, foreground, interval),
        !foreground && interval > 0 ==> (cache.collected_at matches Some(at) ==> (cache.is_due(
            now,
            foreground,
            interval,
        ) <==> at + interval <= now)),
        interval == 0 ==> cache.is_due(now, foreground, interval),
{
}

/// Whether something that was read at a time is as old as an interval, or was never read.
pub open spec fn is_old(cache: CachedSamples, now: Nanos, seconds: int) -> bool {
    cache.collected_at matches Some(at) ==> at + seconds * 1_000_000_000 <= now
}

/// What always changes is read in every cycle that needs it. Settings of the system are read
/// every half minute; rules and disciplines every ten seconds, and interrupts and devices
/// every five, or in every cycle while they are looked at.
pub proof fn groups_are_read_in_time(
    focus: CollectionFocus,
    caches: GroupCaches,
    links_missing: bool,
    now: Nanos,
)
    ensures
        ({
            let wanted = |task: Task|
                collector::is_wanted(focus, caches, links_missing, task, now);
            &&& wanted(Task::Configuration) <==> focus.configuration.needed && is_old(
                caches.configuration,
                now,
                30,
            )
            &&& wanted(Task::Protocols) <==> focus.protocols.needed
            &&& wanted(Task::Sockets) <==> focus.sockets.needed
            &&& wanted(Task::Conntrack) <==> focus.conntrack.needed
            &&& wanted(Task::Rules) <==> focus.rules.needed && (focus.rules.foreground || is_old(
                caches.rules,
                now,
                10,
            ))
            &&& wanted(Task::Softnet) <==> focus.softnet.needed
            &&& wanted(Task::Softirq) <==> focus.softirq.needed
            &&& wanted(Task::Hardirq) <==> focus.hardirq.needed && (focus.hardirq.foreground
                || is_old(caches.hardirq, now, 5))
            &&& wanted(Task::Tc) <==> focus.tc.needed && (focus.tc.foreground || is_old(
                caches.tc,
                now,
                10,
            ))
            &&& wanted(Task::Links) <==> focus.links.needed
            &&& wanted(Task::SysfsLinks) <==> focus.links.needed && links_missing
            &&& wanted(Task::ProcLinks) <==> focus.links.needed && links_missing
            &&& wanted(Task::Nic) <==> focus.links.needed && focus.nic.needed && (
            focus.nic.foreground || is_old(caches.nic, now, 5))
            &&& wanted(Task::NicConfiguration) <==> focus.links.needed && focus.nic.needed
        }),
{
}

/// A cycle goes through its tasks in one order, each once.
pub proof fn tasks_come_in_order(i: int, j: int)
    requires
        0 <= i < 14,
        0 <= j < 14,
    ensures
        TASKS == 14,
        collector::task_of(i) == collector::task_of(j) <==> i == j,
        collector::task_of(0) is Configuration && collector::task_of(1) is Protocols
            && collector::task_of(2) is Sockets && collector::task_of(3) is Conntrack
            && collector::task_of(4) is Rules && collector::task_of(5) is Softnet
            && collector::task_of(6) is Softirq && collector::task_of(7) is Hardirq
            && collector::task_of(8) is Tc && collector::task_of(9) is Links,
        collector::task_of(10) is SysfsLinks && collector::task_of(11) is ProcLinks
            && collector::task_of(12) is Nic && collector::task_of(13) is NicConfiguration,
{
}

/// The next task is the first that is wanted. Of the tasks that are passed over, what is
/// kept of them is shown, and nothing that was there before is lost.
pub proof fn passed_over_groups_show_what_is_kept(
    focus: CollectionFocus,
    caches: GroupCaches,
    links_missing: bool,
    now: Nanos,
    done: int,
    samples: Seq<SampleModel>,
)
    requires
        0 <= done <= 14,
    ensures
        ({
            let (next, shown) = collector::next_of(
                focus,
                caches,
                links_missing,
                now,
                done,
                samples,
            );
            &&& done <= next <= 14
            &&& next < 14 ==> collector::is_wanted(
                focus,
                caches,
                links_missing,
                collector::task_of(next),
                now,
            )
            &&& forall|i: int|
                done <= i < next ==> !collector::is_wanted(
                    focus,
                    caches,
                    links_missing,
                    #[trigger] collector::task_of(i),
                    now,
                )
            &&& samples.is_prefix_of(shown)
            &&& forall|i: int, k: int|
                #![trigger collector::cached_of(focus, caches, collector::task_of(i))[k]]
                done <= i < next && 0 <= k < collector::cached_of(
                    focus,
                    caches,
                    collector::task_of(i),
                ).len() ==> shown.contains(
                    collector::cached_of(focus, caches, collector::task_of(i))[k],
                )
            &&& forall|s: int|
                samples.len() <= s < shown.len() ==> exists|i: int|
                    done <= i < next && collector::cached_of(
                        focus,
                        caches,
                        #[trigger] collector::task_of(i),
                    ).contains(#[trigger] shown[s])
        }),
    decreases 14 - done,
{
    let task = collector::task_of(done);
    if done < 14 && !collector::is_wanted(focus, caches, links_missing, task, now) {
        let kept = collector::cached_of(focus, caches, task);
        let more = samples + kept;
        passed_over_groups_show_what_is_kept(focus, caches, links_missing, now, done + 1, more);
        let (next, shown) = collector::next_of(
            focus,
            caches,
            links_missing,
            now,
            done + 1,
            more,
        );
        assert(samples.is_prefix_of(shown)) by {
            assert(samples =~= shown.subrange(0, samples.len() as int)) by {
                assert forall|i: int| 0 <= i < samples.len() implies samples[i]
                    == #[trigger] shown[i] by {
                    assert(more[i] == samples[i]);
                    assert(more =~= shown.subrange(0, more.len() as int));
                    assert(shown.subrange(0, more.len() as int)[i] == shown[i]);
                }
            }
        }
        assert forall|i: int, k: int|
            #![trigger collector::cached_of(focus, caches, collector::task_of(i))[k]]
            done <= i < next && 0 <= k < collector::cached_of(
                focus,
                caches,
                collector::task_of(i),
            ).len() implies shown.contains(
            collector::cached_of(focus, caches, collector::task_of(i))[k],
        ) by {
            if i == done {
                assert(more[samples.len() + k] == kept[k]);
                assert(more =~= shown.subrange(0, more.len() as int));
                assert(shown.subrange(0, more.len() as int)[samples.len() + k]
                    == shown[samples.len() + k]);
            }
        }
        assert forall|s: int| samples.len() <= s < shown.len() implies exists|i: int|
            done <= i < next && collector::cached_of(
                focus,
                caches,
                #[trigger] collector::task_of(i),
            ).contains(#[trigger] shown[s]) by {
            if s < more.len() {
                assert(more =~= shown.subrange(0, more.len() as int));
                assert(shown.subrange(0, more.len() as int)[s] == shown[s]);
                assert(kept[s - samples.len()] == shown[s]);
                assert(collector::cached_of(focus, caches, collector::task_of(done)).contains(
                    shown[s],
                ));
            } else {
                let i = choose|i: int|
                    done + 1 <= i < next && collector::cached_of(
                        focus,
                        caches,
                        #[trigger] collector::task_of(i),
                    ).contains(shown[s]);
                assert(collector::cached_of(focus, caches, collector::task_of(i)).contains(
                    shown[s],
                ));
            }
        }
    }
}

/// What is kept is that of the group itself, and it is shown only while the group is needed.
pub proof fn groups_show_their_own_samples(focus: CollectionFocus, caches: GroupCaches)
    ensures
        focus.configuration.needed ==> collector::cached_of(focus, caches, Task::Configuration)
            == caches.configuration.samples.deep_view(),
        focus.rules.needed ==> collector::cached_of(focus, caches, Task::Rules)
            == caches.rules.samples.deep_view(),
        focus.hardirq.needed ==> collector::cached_of(focus, caches, Task::Hardirq)
            == caches.hardirq.samples.deep_view(),
        focus.tc.needed ==> collector::cached_of(focus, caches, Task::Tc)
            == caches.tc.samples.deep_view(),
        forall|task: Task|
            !(task is Configuration || task is Rules || task is Hardirq || task is Tc)
                ==> #[trigger] collector::cached_of(focus, caches, task).len() == 0,
{
}

/// What a task read is kept for its own group, with the time, and nothing else that is kept
/// changes.
pub proof fn read_groups_are_kept(
    caches: GroupCaches,
    task: Task,
    at: Nanos,
    samples: Vec<crate::catalog::ProviderSample>,
)
    ensures
        ({
            let after = collector::caches_after(caches, task, at, samples);
            let kept = |cache: CachedSamples|
                cache.collected_at == Some(at) && cache.samples == samples;
            &&& task is Configuration ==> kept(after.configuration)
            &&& task is Rules ==> kept(after.rules)
            &&& task is Hardirq ==> kept(after.hardirq)
            &&& task is Tc ==> kept(after.tc)
            &&& task is Nic ==> kept(after.nic)
            &&& !(task is Configuration) ==> after.configuration == caches.configuration
            &&& !(task is Rules) ==> after.rules == caches.rules
            &&& !(task is Hardirq) ==> after.hardirq == caches.hardirq
            &&& !(task is Tc) ==> after.tc == caches.tc
            &&& !(task is Nic) ==> after.nic == caches.nic
        }),
{
}

/// What a task read is shown in the cycle; devices are shown when their settings were
/// looked after.
pub proof fn cycles_show_what_was_read(caches: GroupCaches, task: Task, samples: Seq<SampleModel>)
    ensures
        !(task is Nic) && !(task is NicConfiguration) ==> collector::added_by(caches, task, samples)
            == samples,
        task is Nic ==> collector::added_by(caches, task, samples).len() == 0,
        task is NicConfiguration ==> collector::added_by(caches, task, samples)
            == caches.nic.samples.deep_view(),
{
}

/// A sample gives something only if it is fresh and holds a reading.
pub proof fn samples_give_what_they_hold(sample: SampleModel, samples: Seq<SampleModel>)
    ensures
        collector::gives_nothing(sample) <==> !(sample.health is Fresh && sample.readings.len()
            > 0),
        collector::all_give_nothing(samples) && samples.contains(sample)
            ==> collector::gives_nothing(sample),
{
}

/// A group that comes into focus is due; the others stay as they are. Settings of the system
/// are not read again for it.
pub proof fn groups_come_into_focus(
    caches: GroupCaches,
    before: CollectionFocus,
    after: CollectionFocus,
)
    ensures
        ({
            let now = collector::refocused(caches, before, after);
            &&& now.configuration == caches.configuration
            &&& after.rules.needed && !before.rules.needed ==> now.rules.collected_at is None
            &&& !after.rules.needed || before.rules.needed ==> now.rules == caches.rules
            &&& after.hardirq.needed && !before.hardirq.needed ==> now.hardirq.collected_at is None
            &&& !after.hardirq.needed || before.hardirq.needed ==> now.hardirq == caches.hardirq
            &&& after.tc.needed && !before.tc.needed ==> now.tc.collected_at is None
            &&& !after.tc.needed || before.tc.needed ==> now.tc == caches.tc
            &&& after.nic.needed && !before.nic.needed ==> now.nic.collected_at is None
            &&& !after.nic.needed || before.nic.needed ==> now.nic == caches.nic
            &&& now.rules.samples == caches.rules.samples && now.hardirq.samples
                == caches.hardirq.samples && now.tc.samples == caches.tc.samples
                && now.nic.samples == caches.nic.samples
        }),
{
}

/// Every task reads its own providers.
pub proof fn tasks_read_their_providers()
    ensures
        collector::providers_of(Task::Configuration) == seq![
            "linux.proc.sys.net.ipv4"@,
            "linux.proc.sys.net.core"@,
        ],
        collector::providers_of(Task::Protocols) == seq![
            "linux.proc.net.snmp"@,
            "linux.proc.net.netstat"@,
            "linux.proc.net.snmp6"@,
        ],
        collector::providers_of(Task::Sockets) == seq![
            "linux.proc.net.sockstat"@,
            "linux.proc.net.sockstat6"@,
        ],
        collector::providers_of(Task::Conntrack) == seq!["linux.proc.netfilter.conntrack"@],
        collector::providers_of(Task::Rules) == seq![
            "linux.nft.ruleset"@,
            "linux.iptables.ipv4"@,
            "linux.iptables.ipv6"@,
        ],
        collector::providers_of(Task::Softnet) == seq!["linux.proc.net.softnet_stat"@],
        collector::providers_of(Task::Softirq) == seq!["linux.proc.softirqs"@],
        collector::providers_of(Task::Hardirq) == seq!["linux.proc.interrupts"@],
        collector::providers_of(Task::Tc) == seq!["linux.rtnetlink.tc"@, "linux.tc.json"@],
        collector::providers_of(Task::Links) == seq!["linux.rtnetlink.link_stats"@],
        collector::providers_of(Task::SysfsLinks) == seq!["linux.sysfs.net.statistics"@],
        collector::providers_of(Task::ProcLinks) == seq!["linux.proc.net.dev"@],
        collector::providers_of(Task::Nic) == seq![
            "linux.sysfs.net.nic"@,
            "linux.ethtool.text"@,
            "linux.ethtool.link_text"@,
        ],
        collector::providers_of(Task::NicConfiguration) == seq!["linux.ethtool.link_text"@],
{
}

/// Whatever a task reads is implemented.
pub proof fn read_providers_are_implemented(task: Task, i: int)
    requires
        0 <= i < collector::providers_of(task).len(),
    ensures
        collector::is_implemented(collector::providers_of(task)[i]),
{
}

/// A provider that is in the catalog and that nothing reads is reported as not supported.
pub proof fn unread_providers_are_reported(names: Seq<Seq<char>>, finished_at: Nanos, i: int)
    requires
        0 <= i < names.len(),
    ensures
        ({
            let samples = collector::unsupported_samples(names, finished_at);
            &&& samples.len() == names.len()
            &&& samples[i].provider == names[i]
            &&& samples[i].finished_at == finished_at
            &&& samples[i].collection_duration == 0
            &&& samples[i].health is Unsupported
            &&& samples[i].readings.len() == 0
            &&& diagnostics::health_error(samples[i].health) matches Some(error)
                && error.diagnostic == "provider adapter is not implemented"@
        }),
{
    let words = "provider adapter is not implemented";
    reveal_strlit("provider adapter is not implemented");
    crate::laws::samples::printable_diagnostics_are_told(words@);
}

/// A cycle hands on everything that was read, and what cannot be read only if everything is
/// asked for.
pub proof fn cycles_hand_on_what_was_read(
    catalog: CatalogModel,
    focus: CollectionFocus,
    samples: Seq<SampleModel>,
    now: Nanos,
    names: Seq<Seq<char>>,
)
    ensures
        ({
            let result = collector::cycle_result(catalog, focus, samples, now, names);
            &&& collector::providers_ordered(result)
            &&& !focus.all ==> result.to_multiset() == samples.to_multiset()
            &&& focus.all ==> result.to_multiset() == samples.to_multiset().add(
                collector::unsupported_samples(names, now).to_multiset(),
            )
        }),
{
    let more = collector::unsupported_samples(names, now);
    collector::cycles_are_in_provider_order(samples);
    collector::cycles_are_in_provider_order(samples + more);
    vstd::seq_lib::lemma_multiset_commutative(samples, more);
}

/// The settings that are shown are those that failed to be read, those that are kept, or
/// those of this collection.
pub proof fn settings_are_shown_as_they_stand(
    catalog: CatalogModel,
    settings: NicSettingsCache,
    current: bool,
    failure: Option<(Nanos, Seq<char>)>,
    collection: NicCollection,
    timing: CollectionTiming,
)
    ensures
        ({
            let shown = collector::shown_settings(
                catalog,
                settings,
                current,
                failure,
                collection,
                timing,
            );
            &&& failure matches Some((at, words)) ==> {
                &&& shown.provider == "linux.ethtool.link_text"@
                &&& shown.finished_at == at
                &&& shown.collection_duration == 0
                &&& shown.readings.len() == 0
                &&& diagnostics::health_error(shown.health) matches Some(error) && error.code is Io
                    && error.diagnostic == diagnostics::bounded_diagnostic(words)
            }
            &&& failure is None && current ==> (settings.sample matches Some(kept) ==> shown
                == kept.deep_view())
            &&& failure is None && (!current || settings.sample is None) ==> shown
                == nic::settings_sample(catalog, collection.interfaces@, timing)
        }),
{
}

/// A sample takes the place of that of its provider; every other one stays.
pub proof fn replaced_samples_take_their_place(
    samples: Seq<SampleModel>,
    provider: Seq<char>,
    sample: SampleModel,
    i: int,
)
    requires
        0 <= i < samples.len(),
        forall|j: int| 0 <= j < i ==> (#[trigger] samples[j]).provider != provider,
    ensures
        collector::replaced(samples, provider, sample).len() == samples.len(),
        samples[i].provider == provider ==> collector::replaced(samples, provider, sample)[i]
            == sample,
        samples[i].provider != provider ==> collector::replaced(samples, provider, sample)[i]
            == samples[i],
        forall|j: int|
            0 <= j < samples.len() && samples[j].provider != provider
                ==> #[trigger] collector::replaced(samples, provider, sample)[j] == samples[j],
{
    let same = collector::is_of(provider);
    let found = seqs::first_where(samples, same, samples.len() as int);
    seqs::lemma_first_where(samples, same, samples.len() as int);
    if let Some(k) = found {
        assert(same(samples[k]));
        if k < i {
            assert(samples[k].provider != provider);
        }
        if i < k {
            assert(!same(samples[i]));
        }
    } else {
        assert(!same(samples[i]));
    }
}

/// What the worker read is shown with its own time, and a worker that failed is reported.
pub proof fn workers_are_believed(
    catalog: CatalogModel,
    polled: Result<(NicCollection, CollectionTiming), String>,
    now: Nanos,
)
    ensures
        ({
            let shown = collector::polled_settings(catalog, polled, now);
            &&& polled matches Ok((collection, timing)) ==> shown == nic::settings_sample(
                catalog,
                collection.interfaces@,
                timing,
            )
            &&& polled matches Err(words) ==> shown.provider == "linux.ethtool.link_text"@
                && shown.finished_at == now && shown.readings.len() == 0 && (
            diagnostics::health_error(shown.health) matches Some(error) && error.code is Io
                && error.diagnostic == diagnostics::bounded_diagnostic(words@))
        }),
{
}

/// The next deadline is the first that is still to come, a whole number of intervals after
/// the last one; the deadlines between them were missed.
pub proof fn deadlines_stay_in_step(deadline: Nanos, interval: Nanos, now: Nanos)
    requires
        interval > 0,
    ensures
        ({
            let next = schedule::deadline_after(deadline, interval, now);
            let missed = schedule::steps_missed(deadline, interval, now);
            &&& next > now
            &&& next > deadline
            &&& next - interval <= now || next == deadline + interval
            &&& next == deadline + interval * (missed + 1)
            &&& missed == 0 <==> now < deadline + interval
        }),
{
    let missed = schedule::steps_missed(deadline, interval, now);
    let i = interval as int;
    if now >= deadline {
        let past = now - deadline;
        assert(i * (past / i) <= past < i * (past / i) + i && (past / i == 0 <==> past < i))
            by (nonlinear_arith)
            requires
                i > 0,
                past >= 0,
        ;
        assert(i * (missed + 1) == i * missed + i) by (nonlinear_arith);
        assert(i * missed >= 0) by (nonlinear_arith)
            requires
                i > 0,
                missed >= 0,
        ;
    } else {
        assert(i * 1 == i);
    }
}

/// A cycle is as late as its latest sample.
pub proof fn cycles_are_as_late_as_their_samples(
    samples: Seq<crate::catalog::ProviderSample>,
    n: int,
    i: int,
)
    requires
        0 <= i < n <= samples.len(),
    ensures
        samples[i].finished_at <= schedule::finish_upto(samples, n),
        exists|k: int|
            0 <= k < n && (#[trigger] samples[k]).finished_at == schedule::finish_upto(samples, n),
    decreases n,
{
    let last = samples[n - 1];
    if n == 1 {
        assert(schedule::finish_upto(samples, 0) == 0);
        assert(samples[0].finished_at == schedule::finish_upto(samples, 1));
    } else {
        cycles_are_as_late_as_their_samples(
            samples,
            n - 1,
            if i < n - 1 {
                i
            } else {
                0
            },
        );
        let k = choose|k: int|
            0 <= k < n - 1 && (#[trigger] samples[k]).finished_at == schedule::finish_upto(
                samples,
                n - 1,
            );
        if last.finished_at >= schedule::finish_upto(samples, n - 1) {
            assert(samples[n - 1].finished_at == schedule::finish_upto(samples, n));
        } else {
            assert(samples[k].finished_at == schedule::finish_upto(samples, n));
        }
    }
}

/// Batches are spread evenly: each starts at the moment nearest to its share of the window.
pub proof fn batches_start_at_their_share(stagger: int, index: int, batches: int)
    requires
        0 <= stagger,
        0 <= index < batches,
        2 <= batches,
    ensures
        ({
            let d = batches - 1;
            let o = configuration::offset_of(stagger, index, batches);
            2 * d * o <= 2 * stagger * index + d < 2 * d * o + 2 * d
        }),
{
    let d = batches - 1;
    let total = 2 * stagger * index + d;
    assert(0 <= total) by (nonlinear_arith)
        requires
            0 <= stagger,
            0 <= index,
            0 < d,
            total == 2 * stagger * index + d,
    ;
    assert(2 * d * (total / (2 * d)) <= total < 2 * d * (total / (2 * d)) + 2 * d)
        by (nonlinear_arith)
        requires
            0 < d,
            0 <= total,
    ;
}

/// A row that is new gets the next number while there is room, and none after that.
pub proof fn new_rows_get_the_next_number<M>(known: Seq<M>, row: M, limit: nat)
    ensures
        ({
            let (after, number) = rows::numbered(known, row, limit);
            let new = forall|i: int| 0 <= i < known.len() ==> #[trigger] known[i] != row;
            &&& new && known.len() < limit ==> number == Some(known.len() + 1) && after
                == known.push(row)
            &&& new && known.len() >= limit ==> number is None && after == known
            &&& !new ==> after == known && (number matches Some(n) && 1 <= n <= known.len()
                && known[n - 1] == row)
        }),
{
    let same = rows::is_row(row);
    seqs::lemma_first_where(known, same, known.len() as int);
    if let Some(i) = seqs::first_where(known, same, known.len() as int) {
        assert(same(known[i]));
    } else {
        assert forall|i: int| 0 <= i < known.len() implies #[trigger] known[i] != row by {
            assert(!same(known[i]));
        }
    }
}

/// Whatever there is room for in a group is shown, from its first reading on.
pub proof fn groups_are_shown_from_their_first_reading<A>(
    groups: Seq<Seq<A>>,
    limit: int,
    n: int,
    g: int,
    r: int,
)
    requires
        0 <= g < n <= groups.len(),
        0 <= r < interleave::admitted_of(groups, limit, g),
        r < groups[g].len(),
    ensures
        interleave::packed_upto(groups, limit, n).contains(groups[g][r]),
    decreases n,
{
    let before = interleave::packed_upto(groups, limit, n - 1);
    let all = interleave::packed_upto(groups, limit, n);
    lemma_admitted_within(groups, limit, n - 1, groups[n - 1].len() as int);
    if g == n - 1 {
        let own = groups[g].take(interleave::admitted_of(groups, limit, g));
        assert(all[before.len() + r] == own[r]);
    } else {
        groups_are_shown_from_their_first_reading(groups, limit, n - 1, g, r);
        let k = choose|k: int| 0 <= k < before.len() && before[k] == groups[g][r];
        assert(all[k] == before[k]);
    }
}

proof fn lemma_admitted_within<A>(groups: Seq<Seq<A>>, limit: int, g: int, n: int)
    requires
        0 <= n,
    ensures
        0 <= interleave::admitted_rows(groups, limit, g, n) <= n,
    decreases n,
{
    if n > 0 {
        lemma_admitted_within(groups, limit, g, n - 1);
    }
}

/// A group is shown as far as its readings are among the first that there is room for.
pub proof fn room_is_given_in_turn<A>(groups: Seq<Seq<A>>, limit: int, g: int, r: int)
    requires
        0 <= g < groups.len(),
        0 <= r < groups[g].len(),
    ensures
        interleave::is_admitted(groups, limit, g, r) <==> interleave::rank(groups, g, r) < limit,
        r < interleave::admitted_of(groups, limit, g) <==> interleave::is_admitted(
            groups,
            limit,
            g,
            r,
        ),
        interleave::loses_primary(groups, limit, g) <==> !interleave::is_admitted(
            groups,
            limit,
            g,
            0,
        ),
{
    let n = groups[g].len() as int;
    lemma_admitted_are_first(groups, limit, g, n, r);
    lemma_admitted_are_first(groups, limit, g, n, 0);
    lemma_admitted_within(groups, limit, g, n);
}

proof fn lemma_admitted_are_first<A>(groups: Seq<Seq<A>>, limit: int, g: int, n: int, r: int)
    requires
        0 <= g < groups.len(),
        0 <= r < n <= groups[g].len(),
    ensures
        r < interleave::admitted_rows(groups, limit, g, n) <==> interleave::is_admitted(
            groups,
            limit,
            g,
            r,
        ),
    decreases n,
{
    lemma_admitted_within(groups, limit, g, n - 1);
    if r < n - 1 {
        interleave::ranks_follow_the_turns(groups, g, r, g, n - 1);
        lemma_admitted_are_first(groups, limit, g, n - 1, r);
    } else if n > 1 {
        if interleave::is_admitted(groups, limit, g, n - 1) {
            lemma_all_admitted(groups, limit, g, n - 1);
        }
    }
}

proof fn lemma_all_admitted<A>(groups: Seq<Seq<A>>, limit: int, g: int, n: int)
    requires
        0 <= g < groups.len(),
        0 <= n < groups[g].len(),
        interleave::is_admitted(groups, limit, g, n),
    ensures
        interleave::admitted_rows(groups, limit, g, n) == n,
    decreases n,
{
    if n > 0 {
        interleave::ranks_follow_the_turns(groups, g, n - 1, g, n);
        lemma_all_admitted(groups, limit, g, n - 1);
    }
}

/// The first reading of all comes first, and each comes right after those before it in turn.
pub proof fn ranks_count_from_the_first<A>(groups: Seq<Seq<A>>, g: int, r: int)
    requires
        0 <= g < groups.len(),
        0 <= r,
    ensures
        interleave::rank(groups, 0, 0) == 0,
        interleave::rank(groups, g + 1, r) == interleave::rank(groups, g, r) + if r
            < groups[g].len() {
            1int
        } else {
            0
        },
        interleave::rank(groups, groups.len() as int, r) == interleave::rank(groups, 0, r + 1),
{
    lemma_ranks(groups, groups.len() as int, g, r);
}

proof fn lemma_ranks<A>(groups: Seq<Seq<A>>, n: int, g: int, r: int)
    requires
        0 <= n <= groups.len(),
        0 <= g < groups.len(),
        0 <= r,
    ensures
        interleave::rank_upto(groups, n, 0, 0) == 0,
        interleave::rank_upto(groups, n, g + 1, r) == interleave::rank_upto(groups, n, g, r)
            + if g < n && r < groups[g].len() {
            1int
        } else {
            0
        },
        interleave::rank_upto(groups, n, groups.len() as int, r) == interleave::rank_upto(
            groups,
            n,
            0,
            r + 1,
        ),
    decreases n,
{
    if n > 0 {
        lemma_ranks(groups, n - 1, g, r);
    }
}

} // verus!
