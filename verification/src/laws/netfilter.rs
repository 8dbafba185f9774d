//! What packet filters show: the policy, type and size of a chain, and the place, verdict,
//! words and counts of a rule.
use crate::catalog::CatalogModel;
use crate::diagnostics;
use crate::diagnostics::AttemptError;
use crate::model;
use crate::model::{
    MetricLabel, MetricReading, MonitorErrorCode, ProviderHealth, ReadingModel, ReadingOutcome,
    UnavailableReason,
};
use crate::netfilter;
use crate::netfilter::{
    ChainPolicy, IptablesBackend, IptablesFamily, NetfilterBackend, NetfilterChain, NetfilterHook,
    NetfilterRule, NetfilterRuleIdentity, NetfilterRuleset, NetfilterTable, NftFamily, RuleAction,
    RuleVerdict,
};
use crate::seqs;
use crate::text;
use crate::translate::CollectionTiming;
use vstd::prelude::*;

verus! {

/// Whether a reading says a word of a metric.
pub open spec fn says(reading: ReadingModel, metric: Seq<char>, word: Seq<char>) -> bool {
    reading.key.metric == metric && reading.outcome == ReadingOutcome::Observed(
        MetricReading::State(word),
    )
}

/// Whether a reading has no value, for a reason.
pub open spec fn lacks(
    reading: ReadingModel,
    metric: Seq<char>,
    reason: UnavailableReason,
) -> bool {
    reading.key.metric == metric && reading.outcome == ReadingOutcome::<Seq<char>>::Unavailable(
        reason,
    )
}

/// Whether a reading has a number.
pub open spec fn has_number(reading: ReadingModel, metric: Seq<char>, number: nat) -> bool {
    reading.key.metric == metric && (reading.outcome matches ReadingOutcome::Observed(
        MetricReading::Gauge(value),
    ) && value == number)
}

/// Whether a reading is a count, or says that there is none.
pub open spec fn has_count(reading: ReadingModel, metric: Seq<char>, count: Option<u64>) -> bool {
    reading.key.metric == metric && match count {
        Some(count) => reading.outcome matches ReadingOutcome::Observed(
            MetricReading::Counter { value, bits },
        ) && value == count && bits is None,
        None => reading.outcome == ReadingOutcome::<Seq<char>>::Unavailable(
            UnavailableReason::Missing,
        ),
    }
}

/// The policy that is shown is the policy of the chain, by its name: a chain that accepts
/// says accept, one that drops says drop, one where none is set says none, any other says
/// its own word, and a chain that has no policy says that this does not apply.
pub proof fn policies_go_by_their_names(
    backend: NetfilterBackend,
    family: Seq<char>,
    table: Seq<char>,
    chain: NetfilterChain,
)
    ensures
        netfilter::chain_readings(backend, family, table, chain) matches Ok(readings) ==> {
            let metric = "linux.netfilter.chain.policy"@;
            &&& readings.len() == 3
            &&& chain.policy == Some(ChainPolicy::Accept) ==> says(readings[1], metric, "accept"@)
            &&& chain.policy == Some(ChainPolicy::Drop) ==> says(readings[1], metric, "drop"@)
            &&& chain.policy == Some(ChainPolicy::Unset) ==> says(readings[1], metric, "none"@)
            &&& chain.policy matches Some(ChainPolicy::Other(word)) ==> says(
                readings[1],
                metric,
                word@,
            )
            &&& chain.policy is None ==> lacks(
                readings[1],
                metric,
                UnavailableReason::NotApplicable,
            )
        },
{
}

/// Chains of which one accepts, drops or has nothing set, and the other does not do the
/// same, never show the same policy.
pub proof fn different_policies_show(
    a_backend: NetfilterBackend,
    b_backend: NetfilterBackend,
    a: NetfilterChain,
    b: NetfilterChain,
    family: Seq<char>,
    table: Seq<char>,
)
    requires
        a.policy != b.policy,
        a.policy matches Some(policy) && !(policy is Other),
        b.policy matches Some(policy) && !(policy is Other),
        netfilter::chain_readings(a_backend, family, table, a) is Ok,
        netfilter::chain_readings(b_backend, family, table, b) is Ok,
    ensures
        netfilter::chain_readings(a_backend, family, table, a)->Ok_0[1].outcome
            != netfilter::chain_readings(b_backend, family, table, b)->Ok_0[1].outcome,
{
    reveal_strlit("accept");
    reveal_strlit("drop");
    reveal_strlit("none");
    policies_go_by_their_names(a_backend, family, table, a);
    policies_go_by_their_names(b_backend, family, table, b);
    assert("accept"@[0] == 'a' && "drop"@[0] == 'd' && "none"@[0] == 'n');
}

/// A chain shows how many rules it has and its type.
pub proof fn chains_show_their_size_and_type(
    backend: NetfilterBackend,
    family: Seq<char>,
    table: Seq<char>,
    chain: NetfilterChain,
)
    requires
        chain.rules@.len() <= u64::MAX,
    ensures
        netfilter::chain_readings(backend, family, table, chain) matches Ok(readings) ==> {
            &&& has_number(readings[0], "linux.netfilter.chain.rules"@, chain.rules@.len())
            &&& chain.chain_type matches Some(word) ==> says(
                readings[2],
                "linux.netfilter.chain.type"@,
                word@,
            )
            &&& chain.chain_type is None ==> lacks(
                readings[2],
                "linux.netfilter.chain.type"@,
                UnavailableReason::NotApplicable,
            )
            &&& readings[0].key.labels == readings[1].key.labels && readings[1].key.labels
                == readings[2].key.labels
        },
{
}

/// The readings of a chain say where it stands: the backend, the family, the table, the
/// chain, and, as far as they are known, its hook and its priority.
pub proof fn chains_say_where_they_stand(
    backend: NetfilterBackend,
    family: Seq<char>,
    table: Seq<char>,
    chain: NetfilterChain,
)
    ensures
        netfilter::chain_readings(backend, family, table, chain) matches Ok(readings) ==> {
            let labels = readings[0].key.labels;
            &&& model::label_value(labels, MetricLabel::Family) == Some(family)
            &&& model::label_value(labels, MetricLabel::Table) == Some(table)
            &&& model::label_value(labels, MetricLabel::Chain) == Some(chain.name@)
            &&& model::label_value(labels, MetricLabel::Backend) == Some(
                match backend {
                    NetfilterBackend::Nftables => "nftables"@,
                    NetfilterBackend::Iptables { implementation, .. } => match implementation {
                        IptablesBackend::Nft => "iptables_nft"@,
                        IptablesBackend::Legacy => "iptables_legacy"@,
                        IptablesBackend::Unknown => "iptables_unknown"@,
                    },
                },
            )
            &&& chain.priority matches Some(priority) ==> model::label_value(
                labels,
                MetricLabel::Priority,
            ) == Some(text::signed_decimal(priority as int))
            &&& hook_of(backend, chain) matches Some(hook) ==> model::label_value(
                labels,
                MetricLabel::Hook,
            ) == Some(hook)
        },
{
    let entries = netfilter::chain_entries(backend, family, table, chain);
    if model::labels_of(entries) is Ok {
        model::labels_hold_what_was_given(entries, 0);
        model::labels_hold_what_was_given(entries, 1);
        model::labels_hold_what_was_given(entries, 2);
        model::labels_hold_what_was_given(entries, 3);
        if entries.len() > 4 {
            model::labels_hold_what_was_given(entries, 4);
        }
        if entries.len() > 5 {
            model::labels_hold_what_was_given(entries, 5);
        }
    }
}

/// The hook of a chain: the one that it is bound to, and where iptables leaves that out, the
/// one that the chain is named after.
pub open spec fn hook_of(backend: NetfilterBackend, chain: NetfilterChain) -> Option<Seq<char>> {
    match chain.hook {
        Some(NetfilterHook::Ingress) => Some("ingress"@),
        Some(NetfilterHook::Prerouting) => Some("prerouting"@),
        Some(NetfilterHook::Input) => Some("input"@),
        Some(NetfilterHook::Forward) => Some("forward"@),
        Some(NetfilterHook::Output) => Some("output"@),
        Some(NetfilterHook::Postrouting) => Some("postrouting"@),
        Some(NetfilterHook::Egress) => Some("egress"@),
        _ => if backend is Nftables {
            None
        } else if chain.name@ == "PREROUTING"@ {
            Some("prerouting"@)
        } else if chain.name@ == "INPUT"@ {
            Some("input"@)
        } else if chain.name@ == "FORWARD"@ {
            Some("forward"@)
        } else if chain.name@ == "OUTPUT"@ {
            Some("output"@)
        } else if chain.name@ == "POSTROUTING"@ {
            Some("postrouting"@)
        } else {
            None
        },
    }
}

/// Families go by their names; tables of a family that is not known are left out.
pub proof fn families_go_by_their_names(ruleset: NetfilterRuleset, table: int)
    ensures
        ({
            let shown = netfilter::family_at(ruleset, table);
            &&& ruleset.backend matches NetfilterBackend::Iptables { family, .. } ==> {
                &&& family == IptablesFamily::Ipv4 ==> shown == Some("ip"@)
                &&& family == IptablesFamily::Ipv6 ==> shown == Some("ip6"@)
            }
            &&& ruleset.backend is Nftables ==> match ruleset.tables@[table].family {
                Some(NftFamily::Ip) => shown == Some("ip"@),
                Some(NftFamily::Ip6) => shown == Some("ip6"@),
                Some(NftFamily::Inet) => shown == Some("inet"@),
                Some(NftFamily::Arp) => shown == Some("arp"@),
                Some(NftFamily::Bridge) => shown == Some("bridge"@),
                Some(NftFamily::Netdev) => shown == Some("netdev"@),
                Some(NftFamily::Other(_)) => shown is None,
                None => shown is None,
            }
        }),
{
}

/// A rule shows its place in the chain, counted from one, its words, and its packets and
/// bytes as they were counted.
pub proof fn rules_show_their_place_and_counts(
    ruleset: NetfilterRuleset,
    at: (int, int),
    position: int,
    row: nat,
)
    requires
        0 <= position < u64::MAX,
    ensures
        netfilter::turn_readings(ruleset, at, position, row) matches Ok(readings) ==> {
            let table = ruleset.tables@[at.0];
            let rule = table.chains@[at.1].rules@[position];
            &&& readings.len() == 4
            &&& has_number(
                readings[0],
                "linux.netfilter.rule.position"@,
                (position + 1) as nat,
            )
            &&& readings[1].key.metric == "linux.netfilter.rule.expression"@ && readings[1].outcome
                is Observed
            &&& has_count(
                readings[2],
                "linux.netfilter.rule.packets"@,
                match counted(table, rule) {
                    Some(counters) => Some(counters.packets),
                    None => None,
                },
            )
            &&& has_count(
                readings[3],
                "linux.netfilter.rule.bytes"@,
                match counted(table, rule) {
                    Some(counters) => Some(counters.bytes),
                    None => None,
                },
            )
        },
{
    let table = ruleset.tables@[at.0];
    let rule = table.chains@[at.1].rules@[position];
    lemma_counted(table, rule);
}

/// What a rule counted: its own counters, or those of the first counter of the table that has
/// the name to which it refers.
pub open spec fn counted(table: NetfilterTable, rule: NetfilterRule) -> Option<
    netfilter::RuleCounters,
> {
    if rule.counters is Some {
        rule.counters
    } else if rule.counter_reference is None {
        None
    } else if exists|i: int| is_meant(table, rule, i) {
        Some(table.named_counters@[choose|i: int| is_meant(table, rule, i)].counters)
    } else {
        None
    }
}

pub open spec fn is_meant(table: NetfilterTable, rule: NetfilterRule, i: int) -> bool {
    &&& 0 <= i < table.named_counters@.len()
    &&& rule.counter_reference matches Some(name) && table.named_counters@[i].name@ == name@
        && forall|j: int|
        0 <= j < i ==> (#[trigger] table.named_counters@[j]).name@ != name@
}

proof fn lemma_counted(table: NetfilterTable, rule: NetfilterRule)
    ensures
        counted(table, rule) == netfilter::counters_of(table, rule),
{
    if rule.counters is None {
        if let Some(name) = rule.counter_reference {
            let all = table.named_counters@;
            let wanted = netfilter::is_counter(name@);
            seqs::lemma_first_where(all, wanted, all.len() as int);
            assert forall|j: int| 0 <= j < all.len() implies wanted(#[trigger] all[j]) == (
            all[j].name@ == name@) by {}
            match seqs::first_where(all, wanted, all.len() as int) {
                Some(i) => {
                    assert(is_meant(table, rule, i));
                    let k = choose|k: int| is_meant(table, rule, k);
                    assert(k == i) by {
                        if k < i {
                            assert(!wanted(all[k]));
                        }
                        if i < k {
                            assert(all[i].name@ != name@);
                        }
                    }
                },
                None => {
                    assert forall|i: int| !is_meant(table, rule, i) by {
                        if 0 <= i < all.len() {
                            assert(!wanted(all[i]));
                        }
                    }
                },
            }
        }
    }
}

/// The readings of a rule say where it stands, its number, what it decides, and its handle
/// if it has one.
pub proof fn rules_say_where_they_stand(
    ruleset: NetfilterRuleset,
    at: (int, int),
    position: int,
    row: nat,
    i: int,
)
    requires
        0 <= i < 4,
    ensures
        netfilter::turn_readings(ruleset, at, position, row) matches Ok(readings) ==> {
            let labels = readings[i].key.labels;
            let table = ruleset.tables@[at.0];
            let chain = table.chains@[at.1];
            let rule = chain.rules@[position];
            &&& model::label_value(labels, MetricLabel::Table) == Some(table.name@)
            &&& model::label_value(labels, MetricLabel::Chain) == Some(chain.name@)
            &&& model::label_value(labels, MetricLabel::RowId) == Some(text::decimal(row))
            &&& model::label_value(labels, MetricLabel::Verdict) == Some(
                netfilter::rule_verdict(rule.actions@),
            )
            &&& model::label_value(labels, MetricLabel::Family) == Some(
                netfilter::family_at(ruleset, at.0)->0,
            )
            &&& model::label_value(labels, MetricLabel::Backend) == Some(
                netfilter::backend_label(ruleset.backend),
            )
            &&& rule.handle matches Some(handle) ==> model::label_value(
                labels,
                MetricLabel::Handle,
            ) == Some(text::decimal(handle as nat))
        },
{
    let table = ruleset.tables@[at.0];
    let chain = table.chains@[at.1];
    let rule = chain.rules@[position];
    let entries = netfilter::rule_entries(
        netfilter::backend_label(ruleset.backend),
        netfilter::family_at(ruleset, at.0)->0,
        table.name@,
        chain.name@,
        row,
        rule.handle,
        netfilter::rule_verdict(rule.actions@),
    );
    if model::labels_of(entries) is Ok {
        model::labels_hold_what_was_given(entries, 0);
        model::labels_hold_what_was_given(entries, 1);
        model::labels_hold_what_was_given(entries, 2);
        model::labels_hold_what_was_given(entries, 3);
        model::labels_hold_what_was_given(entries, 4);
        model::labels_hold_what_was_given(entries, 5);
        if entries.len() > 6 {
            model::labels_hold_what_was_given(entries, 6);
        }
    }
}

/// A rule whose verdicts agree says that verdict by its name.
pub proof fn verdicts_go_by_their_names(actions: Seq<RuleAction>, i: int, verdict: RuleVerdict)
    requires
        0 <= i < actions.len(),
        actions[i] == RuleAction::Verdict(verdict),
        forall|j: int|
            0 <= j < actions.len() ==> ((#[trigger] actions[j]) matches RuleAction::Verdict(other)
                ==> netfilter::verdict_word(other) == netfilter::verdict_word(verdict)),
    ensures
        netfilter::rule_verdict(actions) == match verdict {
            RuleVerdict::Accept => "accept"@,
            RuleVerdict::Drop => "drop"@,
            RuleVerdict::Reject => "reject"@,
            RuleVerdict::Continue => "continue"@,
            RuleVerdict::Return => "return"@,
            RuleVerdict::Jump(_) => "jump"@,
            RuleVerdict::Goto(_) => "goto"@,
            RuleVerdict::Queue => "queue"@,
        },
{
    let n = actions.len() as int;
    seqs::lemma_first_where(actions, netfilter::decides(), n);
    assert(netfilter::decides()(actions[i]));
    let k = seqs::first_where(actions, netfilter::decides(), n)->0;
    assert(actions[k] is Verdict);
}

/// A rule whose verdicts differ says that it is not known what it decides.
pub proof fn contradicting_verdicts_are_unknown(actions: Seq<RuleAction>, i: int, j: int)
    requires
        0 <= i < actions.len(),
        0 <= j < actions.len(),
        actions[i] matches RuleAction::Verdict(a) && actions[j] matches RuleAction::Verdict(b)
            && netfilter::verdict_word(a) != netfilter::verdict_word(b),
    ensures
        netfilter::rule_verdict(actions) == "unknown"@,
{
    let n = actions.len() as int;
    seqs::lemma_first_where(actions, netfilter::decides(), n);
    assert(netfilter::decides()(actions[i]));
    let k = seqs::first_where(actions, netfilter::decides(), n)->0;
    assert(actions[k] is Verdict);
    let word = netfilter::verdict_word(actions[k]->Verdict_0);
    if netfilter::only_verdict(actions, word, n) {
        assert(netfilter::verdict_word(actions[i]->Verdict_0) == word);
        assert(netfilter::verdict_word(actions[j]->Verdict_0) == word);
    }
}

/// A rule without a verdict continues, unless it changes packets or does something that is
/// not known.
pub proof fn rules_without_a_verdict_continue(actions: Seq<RuleAction>)
    requires
        forall|i: int| 0 <= i < actions.len() ==> !((#[trigger] actions[i]) is Verdict),
    ensures
        netfilter::rule_verdict(actions) == if exists|i: int|
            0 <= i < actions.len() && !((#[trigger] actions[i]) is Log) && !(actions[i] is Mark) {
            "unknown"@
        } else {
            "continue"@
        },
{
    let n = actions.len() as int;
    seqs::lemma_first_where(actions, netfilter::decides(), n);
    seqs::lemma_first_where(actions, netfilter::rewrites(), n);
    if let Some(k) = seqs::first_where(actions, netfilter::decides(), n) {
        assert(actions[k] is Verdict);
    }
    match seqs::first_where(actions, netfilter::rewrites(), n) {
        Some(k) => {
            assert(!(actions[k] is Log) && !(actions[k] is Mark));
        },
        None => {
            assert forall|i: int| 0 <= i < n implies (#[trigger] actions[i]) is Log
                || actions[i] is Mark by {
                assert(!netfilter::rewrites()(actions[i]));
            }
        },
    }
}

/// The words of a rule are what it says, byte by byte, as far as they fit; a rule that says
/// nothing says that it holds for all.
pub proof fn rule_words_are_what_the_rule_says(summary: Seq<char>, i: int)
    ensures
        ({
            let words = netfilter::rule_expression(summary);
            let said = vstd::utf8::encode_utf8(
                if summary.len() == 0 {
                    "all"@
                } else {
                    summary
                },
            );
            &&& words.len() <= 256
            &&& said.len() <= 256 ==> words.len() == said.len()
            &&& said.len() > 256 ==> words.len() == 256
            &&& 0 <= i < words.len() ==> words[i] == said[i] as char
        }),
{
    assert(model::MAX_LABEL_VALUE_BYTES == 256);
}

/// Two rules of one ruleset never share an identity: rules that say the same in one chain
/// are told apart by their order.
pub proof fn rules_have_identities_of_their_own(
    ruleset: NetfilterRuleset,
    at: (int, int),
    p: int,
    q: int,
)
    requires
        0 <= p < q < netfilter::chain_at(ruleset, at).rules@.len(),
        netfilter::chain_at(ruleset, at).rules@.len() <= usize::MAX,
    ensures
        netfilter::rule_identity(ruleset, at, p) != netfilter::rule_identity(ruleset, at, q),
{
    let rules = netfilter::chain_at(ruleset, at).rules@;
    let a = netfilter::rule_identity(ruleset, at, p);
    let b = netfilter::rule_identity(ruleset, at, q);
    let like = netfilter::is_like(rules[p]);
    seqs::lemma_count_where(rules, like, p);
    seqs::lemma_count_where(rules, netfilter::is_like(rules[q]), q);
    if rules[p].handle == rules[q].handle && rules[p].fingerprint == rules[q].fingerprint {
        assert(netfilter::is_like(rules[q]) =~= like);
        lemma_counts_grow(rules, like, p + 1, q);
    }
}

proof fn lemma_counts_grow<A>(s: Seq<A>, p: spec_fn(A) -> bool, m: int, n: int)
    requires
        0 <= m <= n,
    ensures
        seqs::count_where(s, p, m) <= seqs::count_where(s, p, n),
    decreases n,
{
    if m < n {
        lemma_counts_grow(s, p, m, n - 1);
    }
}

/// The identity of a rule is where it stands and what it is, and not its place in the chain:
/// rules that other rules surround keep it.
pub proof fn identities_say_where_and_what(
    a: NetfilterRuleset,
    b: NetfilterRuleset,
    p: (int, int),
    q: (int, int),
    i: int,
    j: int,
)
    requires
        netfilter::rule_identity(a, p, i) == netfilter::rule_identity(b, q, j),
    ensures
        netfilter::backend_label(a.backend) == netfilter::backend_label(b.backend),
        netfilter::family_at(a, p.0)->0 == netfilter::family_at(b, q.0)->0,
        a.tables@[p.0].name@ == b.tables@[q.0].name@,
        a.tables@[p.0].chains@[p.1].name@ == b.tables@[q.0].chains@[q.1].name@,
        a.tables@[p.0].chains@[p.1].rules@[i].handle == b.tables@[q.0].chains@[q.1].rules@[j].handle,
        a.tables@[p.0].chains@[p.1].rules@[i].fingerprint
            == b.tables@[q.0].chains@[q.1].rules@[j].fingerprint,
{
}

/// The chains that are shown are those of tables of a known family, in the order in which
/// they stand, as many as fit.
pub proof fn chains_of_known_families_are_shown(ruleset: NetfilterRuleset, t: int, c: int)
    requires
        0 <= t < ruleset.tables@.len(),
        0 <= c < ruleset.tables@[t].chains@.len(),
        netfilter::chains_upto(ruleset, ruleset.tables@.len() as int).len() <= 1365,
    ensures
        netfilter::retained_chains(ruleset).contains((t, c)) <==> netfilter::family_at(
            ruleset,
            t,
        ) is Some,
{
    assert(netfilter::chain_limit() == 1365);
    let n = ruleset.tables@.len() as int;
    lemma_chain_found(ruleset, n, t, c);
}

proof fn lemma_chain_found(ruleset: NetfilterRuleset, n: int, t: int, c: int)
    requires
        0 <= n <= ruleset.tables@.len(),
        0 <= t < ruleset.tables@.len(),
        0 <= c < ruleset.tables@[t].chains@.len(),
    ensures
        netfilter::chains_upto(ruleset, n).contains((t, c)) <==> t < n && netfilter::family_at(
            ruleset,
            t,
        ) is Some,
    decreases n,
{
    if n > 0 {
        lemma_chain_found(ruleset, n - 1, t, c);
        let before = netfilter::chains_upto(ruleset, n - 1);
        let after = netfilter::chains_upto(ruleset, n);
        if netfilter::family_at(ruleset, n - 1) is Some {
            let added = netfilter::chains_of(
                n - 1,
                ruleset.tables@[n - 1].chains@.len() as int,
            );
            if t == n - 1 {
                assert(after[before.len() + c] == (t, c));
            }
            if before.contains((t, c)) {
                let k = choose|k: int| 0 <= k < before.len() && before[k] == (t, c);
                assert(after[k] == (t, c));
            }
            if after.contains((t, c)) {
                let k = choose|k: int| 0 <= k < after.len() && after[k] == (t, c);
                if k < before.len() {
                    assert(before[k] == (t, c));
                } else {
                    assert(added[k - before.len()] == (t, c));
                }
            }
        }
    }
}

/// Every chain that is shown has its three readings, in order.
pub proof fn chains_have_their_readings(
    ruleset: NetfilterRuleset,
    chains: Seq<(int, int)>,
    n: int,
    i: int,
)
    requires
        0 <= i < n <= chains.len(),
    ensures
        netfilter::all_chain_readings(ruleset, chains, n) matches Ok(shown) ==> {
            &&& shown.len() == 3 * n
            &&& netfilter::chain_readings(
                ruleset.backend,
                netfilter::family_at(ruleset, chains[i].0)->0,
                ruleset.tables@[chains[i].0].name@,
                ruleset.tables@[chains[i].0].chains@[chains[i].1],
            ) matches Ok(readings) && readings.len() == 3 && shown[3 * i] == readings[0]
                && shown[3 * i + 1] == readings[1] && shown[3 * i + 2] == readings[2]
        },
    decreases n,
{
    if netfilter::all_chain_readings(ruleset, chains, n) is Ok {
        if n > 1 {
            if i < n - 1 {
                chains_have_their_readings(ruleset, chains, n - 1, i);
            } else {
                chains_have_their_readings(ruleset, chains, n - 1, 0);
            }
        } else {
            assert(netfilter::all_chain_readings(ruleset, chains, 0)->Ok_0.len() == 0);
        }
    }
}

/// Every rule that has its turn has its four readings, in order, under its number.
pub proof fn rules_have_their_readings(
    ruleset: NetfilterRuleset,
    chains: Seq<(int, int)>,
    known: Seq<NetfilterRuleIdentity<Seq<char>>>,
    turns: Seq<(int, int)>,
    n: int,
    i: int,
)
    requires
        0 <= i < n <= turns.len(),
    ensures
        netfilter::taken_turns(ruleset, chains, known, turns, n).1 matches Ok(shown) ==> {
            &&& shown.len() == 4 * n
            &&& crate::rows::numbered(
                netfilter::taken_turns(ruleset, chains, known, turns, i).0,
                netfilter::rule_identity(ruleset, chains[turns[i].0], turns[i].1),
                2048,
            ).1 matches Some(row) && netfilter::turn_readings(
                ruleset,
                chains[turns[i].0],
                turns[i].1,
                row,
            ) matches Ok(readings) && readings.len() == 4 && shown[4 * i] == readings[0]
                && shown[4 * i + 1] == readings[1] && shown[4 * i + 2] == readings[2] && shown[4 * i
                + 3] == readings[3]
        },
    decreases n,
{
    assert(netfilter::MAX_NETFILTER_RULE_ROW_IDS == 2048);
    if netfilter::taken_turns(ruleset, chains, known, turns, n).1 is Ok {
        if n > 1 {
            if i < n - 1 {
                rules_have_their_readings(ruleset, chains, known, turns, n - 1, i);
            } else {
                rules_have_their_readings(ruleset, chains, known, turns, n - 1, 0);
            }
        } else {
            assert(netfilter::taken_turns(ruleset, chains, known, turns, 0).1->Ok_0.len() == 0);
        }
    }
}

/// A translation shows its chains, and behind them its rules.
pub proof fn translations_show_chains_and_rules(
    ruleset: NetfilterRuleset,
    known: Seq<NetfilterRuleIdentity<Seq<char>>>,
    i: int,
)
    requires
        0 <= i < netfilter::retained_chains(ruleset).len(),
    ensures
        netfilter::ruleset_readings(ruleset, known).1 matches Ok(readings) ==> {
            let at = netfilter::retained_chains(ruleset)[i];
            let chain = ruleset.tables@[at.0].chains@[at.1];
            let metric = "linux.netfilter.chain.policy"@;
            &&& readings.len() >= 3 * netfilter::retained_chains(ruleset).len()
            &&& chain.policy == Some(ChainPolicy::Accept) ==> says(
                readings[3 * i + 1],
                metric,
                "accept"@,
            )
            &&& chain.policy == Some(ChainPolicy::Drop) ==> says(
                readings[3 * i + 1],
                metric,
                "drop"@,
            )
            &&& chain.policy == Some(ChainPolicy::Unset) ==> says(
                readings[3 * i + 1],
                metric,
                "none"@,
            )
            &&& chain.rules@.len() <= u64::MAX ==> has_number(
                readings[3 * i],
                "linux.netfilter.chain.rules"@,
                chain.rules@.len(),
            )
        },
{
    let chains = netfilter::retained_chains(ruleset);
    let at = chains[i];
    if netfilter::ruleset_readings(ruleset, known).1 is Ok {
        chains_have_their_readings(ruleset, chains, chains.len() as int, i);
        policies_go_by_their_names(
            ruleset.backend,
            netfilter::family_at(ruleset, at.0)->0,
            ruleset.tables@[at.0].name@,
            ruleset.tables@[at.0].chains@[at.1],
        );
    }
}

/// A ruleset that is not shown in full is reported as such: what was kept of what there was,
/// tables that were ignored, and flow tables that take packets past the rules.
pub proof fn incomplete_rulesets_are_reported(ruleset: NetfilterRuleset)
    ensures
        ({
            let n = ruleset.tables@.len() as int;
            let chains = netfilter::retained_chains(ruleset).len();
            let rules = netfilter::shown_rules(ruleset);
            let all_chains = netfilter::total_chains(ruleset.tables@, n);
            let all_rules = netfilter::total_rules(ruleset.tables@, n);
            let ignored = netfilter::unknown_families(ruleset, n);
            let offloaded = ruleset.flowtables matches Some(count) && count > 0;
            match netfilter::ruleset_warning(ruleset) {
                None => chains >= all_chains && rules >= all_rules && ignored == 0 && !offloaded,
                Some(warning) => {
                    &&& chains < all_chains || rules < all_rules ==> warning.code
                        == MonitorErrorCode::CardinalityLimit && warning.diagnostic
                        == diagnostics::bounded_diagnostic(
                        "retained "@ + text::decimal(chains) + "/"@ + text::decimal(all_chains)
                            + " chains and "@ + text::decimal(rules as nat) + "/"@ + text::decimal(
                            all_rules,
                        ) + " rules"@,
                    )
                    &&& chains >= all_chains && rules >= all_rules && ignored > 0 ==> warning.code
                        == MonitorErrorCode::SchemaMismatch && warning.diagnostic
                        == diagnostics::bounded_diagnostic(
                        "ignored "@ + text::decimal(ignored) + " tables with unknown nft family"@,
                    )
                    &&& chains >= all_chains && rules >= all_rules && ignored == 0
                        ==> warning.code == MonitorErrorCode::Unsupported && offloaded
                },
            }
        }),
{
}

/// A collection of rules is reported by who read it and when; it is fresh if nothing of it is
/// missing, and says what is missing otherwise. One that failed says why.
pub proof fn collections_of_rules_say_how_they_went(
    catalog: CatalogModel,
    provider: Seq<char>,
    timing: CollectionTiming,
    result: Result<NetfilterRuleset, AttemptError>,
    known: Seq<NetfilterRuleIdentity<Seq<char>>>,
)
    ensures
        ({
            let sample = netfilter::ruleset_sample(catalog, provider, timing, result, known);
            &&& sample.provider == provider
            &&& sample.finished_at == timing.finished_at
            &&& sample.collection_duration == timing.collection_duration
            &&& result matches Err(error) ==> sample.readings.len() == 0 && (
            diagnostics::health_error(sample.health) matches Some(told) && told.code == error.code
                && told.diagnostic == diagnostics::bounded_diagnostic(error.message@))
            &&& result matches Ok(ruleset) ==> {
                &&& sample.health is Fresh ==> netfilter::ruleset_warning(ruleset) is None
                &&& sample.health matches ProviderHealth::Partial { warning }
                    ==> netfilter::ruleset_warning(ruleset) == Some(warning)
                &&& netfilter::ruleset_readings(ruleset, known).1 matches Ok(readings) ==> (
                sample.health is Fresh || sample.health is Partial
                    ==> sample.readings.to_multiset() == readings.to_multiset())
                &&& netfilter::ruleset_readings(ruleset, known).1 matches Err(failure)
                    ==> sample.readings.len() == 0 && (diagnostics::health_error(
                    sample.health,
                ) matches Some(told) && told.code == failure.0 && told.diagnostic
                    == diagnostics::bounded_diagnostic(failure.1))
            }
        }),
{
    if let Ok(ruleset) = result {
        if let Ok(readings) = netfilter::ruleset_readings(ruleset, known).1 {
            model::lemma_canonical_exists(readings);
        }
    }
}

/// A session that has seen too many rules says so.
pub proof fn full_histories_are_told()
    ensures
        netfilter::history_words() == "netfilter rule identity history exceeds the "@
            + text::decimal(netfilter::MAX_NETFILTER_RULE_ROW_IDS as nat) + "-row session limit"@,
{
}

/// As many rules are shown as there is room for beside the chains, and all if there is room.
pub proof fn rules_fill_the_room(ruleset: NetfilterRuleset)
    ensures
        ({
            let chains = netfilter::retained_chains(ruleset);
            let rules = netfilter::all_turns(netfilter::rule_counts(ruleset, chains)).len();
            let shown = netfilter::shown_rules(ruleset);
            &&& 3 * chains.len() + 4 * rules <= 4096 ==> shown == rules
            &&& 3 * chains.len() + 4 * rules > 4096 ==> 3 * chains.len() + 4 * shown <= 4096 && 4096
                < 3 * chains.len() + 4 * (shown + 1)
        }),
{
    let chains = netfilter::retained_chains(ruleset);
    assert(netfilter::chain_limit() == 1365);
    assert(chains.len() <= 1365);
    assert(model::MAX_READINGS_PER_PROVIDER == 4096);
    assert(netfilter::turn_limit(chains.len()) == (4096 - 3 * chains.len()) / 4);
}

/// A table counts its rules and its chains.
pub proof fn tables_add_up(tables: Seq<NetfilterTable>, n: int)
    requires
        0 < n <= tables.len(),
    ensures
        netfilter::total_chains(tables, n) == netfilter::total_chains(tables, n - 1)
            + tables[n - 1].chains@.len(),
        netfilter::total_rules(tables, n) == netfilter::total_rules(tables, n - 1)
            + netfilter::rules_in(tables[n - 1].chains@, tables[n - 1].chains@.len() as int),
        netfilter::total_chains(tables, 0) == 0,
        netfilter::total_rules(tables, 0) == 0,
{
}

/// Tables of a family that is not known are counted.
pub proof fn unknown_families_are_counted(ruleset: NetfilterRuleset, n: int)
    requires
        0 < n <= ruleset.tables@.len(),
    ensures
        netfilter::unknown_families(ruleset, 0) == 0,
        netfilter::unknown_families(ruleset, n) == netfilter::unknown_families(ruleset, n - 1)
            + if netfilter::family_at(ruleset, n - 1) is None {
            1nat
        } else {
            0
        },
{
}

/// A rule that has a handle or a text of its own in its chain so far is the first of its kind.
pub proof fn rules_of_their_own_come_first(ruleset: NetfilterRuleset, at: (int, int), position: int)
    requires
        0 <= position < netfilter::chain_at(ruleset, at).rules@.len(),
        forall|j: int|
            0 <= j < position ==> (#[trigger] netfilter::chain_at(ruleset, at).rules@[j]).handle
                != netfilter::chain_at(ruleset, at).rules@[position].handle
                || netfilter::chain_at(ruleset, at).rules@[j].fingerprint != netfilter::chain_at(
                ruleset,
                at,
            ).rules@[position].fingerprint,
    ensures
        netfilter::rule_identity(ruleset, at, position).duplicate_ordinal == 0,
{
    let rules = netfilter::chain_at(ruleset, at).rules@;
    let like = netfilter::is_like(rules[position]);
    seqs::lemma_first_where(rules, like, position);
    seqs::lemma_count_where(rules, like, position);
    if let Some(j) = seqs::first_where(rules, like, position) {
        assert(like(rules[j]));
    }
}

} // verus!
