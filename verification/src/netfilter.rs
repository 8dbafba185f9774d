//! Packet filter rules: the chains of a ruleset and as many of its rules as fit, as
//! readings of one provider.
use crate::catalog::{CatalogModel, MetricCatalog, ProviderSample, SampleModel};
use crate::diagnostics;
use crate::diagnostics::{error_sample, explain, monitor_error, provider_sample, AttemptError};
use crate::engine::MAX_ADMITTED_SERIES;
use crate::model;
use crate::model::{
    entry, is_bounded_printable, KeyModel, Label, LabelsModel, MetricLabel, MetricLabels,
    MetricReading, MonitorError, MonitorErrorCode, MonitorValidationError, ProviderHealth,
    ReadingModel, ReadingOutcome, SampleReading, UnavailableReason, MAX_LABEL_VALUE_BYTES,
    MAX_READINGS_PER_PROVIDER,
};
use crate::rows;
use crate::rows::{RowIdentity, RowIds};
use crate::seqs;
use crate::text;
use crate::text::{decimal_text, owned, push_decimal, same_text, signed_text};
use crate::translate::CollectionTiming;
use vstd::prelude::*;
use vstd::string::*;
use vstd::utf8::*;

verus! {

pub const NFT_RULESET: &'static str = "linux.nft.ruleset";

pub const IPTABLES_IPV4: &'static str = "linux.iptables.ipv4";

pub const IPTABLES_IPV6: &'static str = "linux.iptables.ipv6";

pub const CHAIN_RULES: &'static str = "linux.netfilter.chain.rules";

pub const CHAIN_POLICY: &'static str = "linux.netfilter.chain.policy";

pub const CHAIN_TYPE: &'static str = "linux.netfilter.chain.type";

pub const RULE_POSITION: &'static str = "linux.netfilter.rule.position";

pub const RULE_EXPRESSION: &'static str = "linux.netfilter.rule.expression";

pub const RULE_PACKETS: &'static str = "linux.netfilter.rule.packets";

pub const RULE_BYTES: &'static str = "linux.netfilter.rule.bytes";

/// How many readings a chain has.
pub const NETFILTER_METRICS_PER_CHAIN: usize = 3;

/// How many readings a rule has.
pub const NETFILTER_METRICS_PER_RULE: usize = 4;

/// How many rules a session can number.
pub const MAX_NETFILTER_RULE_ROW_IDS: usize = MAX_ADMITTED_SERIES / NETFILTER_METRICS_PER_RULE;

#[derive(Clone, Copy, Debug, PartialEq, Eq, Structural)]
pub enum IptablesFamily {
    Ipv4,
    Ipv6,
}

#[derive(Clone, Copy, Debug, PartialEq, Eq, Structural)]
pub enum IptablesBackend {
    Nft,
    Legacy,
    Unknown,
}

#[derive(Clone, Copy, Debug, PartialEq, Eq, Structural)]
pub enum NetfilterBackend {
    Nftables,
    Iptables { family: IptablesFamily, implementation: IptablesBackend },
}

#[derive(Clone, Debug, PartialEq, Eq)]
pub enum NftFamily {
    Ip,
    Ip6,
    Inet,
    Arp,
    Bridge,
    Netdev,
    Other(String),
}

#[derive(Clone, Debug, PartialEq, Eq)]
pub enum NetfilterHook {
    Ingress,
    Prerouting,
    Input,
    Forward,
    Output,
    Postrouting,
    Egress,
    Other(String),
}

#[derive(Clone, Debug, PartialEq, Eq)]
pub enum ChainPolicy {
    Accept,
    Drop,
    Unset,
    Other(String),
}

#[derive(Clone, Debug, PartialEq, Eq)]
pub enum RuleVerdict {
    Accept,
    Drop,
    Reject,
    Continue,
    Return,
    Jump(String),
    Goto(String),
    Queue,
}

#[derive(Clone, Debug, PartialEq, Eq)]
pub enum RuleAction {
    Verdict(RuleVerdict),
    Dnat,
    Snat,
    Masquerade,
    Redirect,
    Log,
    Mark,
    Other(String),
}

#[derive(Clone, Copy, Debug, PartialEq, Eq, Structural)]
pub struct RuleCounters {
    pub packets: u64,
    pub bytes: u64,
}

#[derive(Clone, Debug, PartialEq, Eq)]
pub struct NamedCounter {
    pub name: String,
    pub counters: RuleCounters,
}

/// A digest of what a rule says; equal rules have equal digests.
#[derive(Clone, Copy, Debug, PartialEq, Eq, Structural)]
pub struct RuleFingerprint {
    pub digest: u128,
}

#[derive(Clone, Debug, PartialEq, Eq)]
pub struct NetfilterRule {
    pub handle: Option<u64>,
    pub fingerprint: RuleFingerprint,
    pub counters: Option<RuleCounters>,
    pub counter_reference: Option<String>,
    pub actions: Vec<RuleAction>,
    pub summary: String,
}

#[derive(Clone, Debug, PartialEq, Eq)]
pub struct NetfilterChain {
    pub name: String,
    pub chain_type: Option<String>,
    pub hook: Option<NetfilterHook>,
    pub priority: Option<i32>,
    pub policy: Option<ChainPolicy>,
    pub rules: Vec<NetfilterRule>,
}

#[derive(Clone, Debug, PartialEq, Eq)]
pub struct NetfilterTable {
    pub family: Option<NftFamily>,
    pub name: String,
    pub chains: Vec<NetfilterChain>,
    pub named_counters: Vec<NamedCounter>,
}

#[derive(Clone, Debug, PartialEq, Eq)]
pub struct NetfilterRuleset {
    pub backend: NetfilterBackend,
    pub tables: Vec<NetfilterTable>,
    /// The flow tables of an nftables ruleset.
    pub flowtables: Option<usize>,
}

pub open spec fn backend_label(backend: NetfilterBackend) -> Seq<char> {
    match backend {
        NetfilterBackend::Nftables => "nftables"@,
        NetfilterBackend::Iptables { implementation: IptablesBackend::Nft, .. } => "iptables_nft"@,
        NetfilterBackend::Iptables { implementation: IptablesBackend::Legacy, .. } =>
            "iptables_legacy"@,
        NetfilterBackend::Iptables { implementation: IptablesBackend::Unknown, .. } =>
            "iptables_unknown"@,
    }
}

fn netfilter_backend_label(backend: NetfilterBackend) -> (label: &'static str)
    ensures
        label@ == backend_label(backend),
{
    match backend {
        NetfilterBackend::Nftables => "nftables",
        NetfilterBackend::Iptables { implementation: IptablesBackend::Nft, .. } => "iptables_nft",
        NetfilterBackend::Iptables { implementation: IptablesBackend::Legacy, .. } =>
            "iptables_legacy",
        NetfilterBackend::Iptables { implementation: IptablesBackend::Unknown, .. } =>
            "iptables_unknown",
    }
}

/// The family of a table: of an iptables ruleset that of the whole ruleset, else the
/// table's own, if it is a known one.
pub open spec fn family_label(backend: NetfilterBackend, family: Option<NftFamily>) -> Option<
    Seq<char>,
> {
    match backend {
        NetfilterBackend::Iptables { family: IptablesFamily::Ipv4, .. } => Some("ip"@),
        NetfilterBackend::Iptables { family: IptablesFamily::Ipv6, .. } => Some("ip6"@),
        NetfilterBackend::Nftables => match family {
            Some(NftFamily::Ip) => Some("ip"@),
            Some(NftFamily::Ip6) => Some("ip6"@),
            Some(NftFamily::Inet) => Some("inet"@),
            Some(NftFamily::Arp) => Some("arp"@),
            Some(NftFamily::Bridge) => Some("bridge"@),
            Some(NftFamily::Netdev) => Some("netdev"@),
            Some(NftFamily::Other(_)) => None,
            None => None,
        },
    }
}

fn netfilter_family_label(backend: NetfilterBackend, family: &Option<NftFamily>) -> (label: Option<
    &'static str,
>)
    ensures
        family_label(backend, *family) == match label {
            Some(label) => Some(label@),
            None => None,
        },
{
    match backend {
        NetfilterBackend::Iptables { family: IptablesFamily::Ipv4, .. } => Some("ip"),
        NetfilterBackend::Iptables { family: IptablesFamily::Ipv6, .. } => Some("ip6"),
        NetfilterBackend::Nftables => match family {
            Some(NftFamily::Ip) => Some("ip"),
            Some(NftFamily::Ip6) => Some("ip6"),
            Some(NftFamily::Inet) => Some("inet"),
            Some(NftFamily::Arp) => Some("arp"),
            Some(NftFamily::Bridge) => Some("bridge"),
            Some(NftFamily::Netdev) => Some("netdev"),
            Some(NftFamily::Other(_)) => None,
            None => None,
        },
    }
}

pub open spec fn hook_label(hook: Option<NetfilterHook>) -> Option<Seq<char>> {
    match hook {
        Some(NetfilterHook::Ingress) => Some("ingress"@),
        Some(NetfilterHook::Prerouting) => Some("prerouting"@),
        Some(NetfilterHook::Input) => Some("input"@),
        Some(NetfilterHook::Forward) => Some("forward"@),
        Some(NetfilterHook::Output) => Some("output"@),
        Some(NetfilterHook::Postrouting) => Some("postrouting"@),
        Some(NetfilterHook::Egress) => Some("egress"@),
        Some(NetfilterHook::Other(_)) => None,
        None => None,
    }
}

fn netfilter_hook_label(hook: &Option<NetfilterHook>) -> (label: Option<&'static str>)
    ensures
        hook_label(*hook) == match label {
            Some(label) => Some(label@),
            None => None,
        },
{
    match hook {
        Some(NetfilterHook::Ingress) => Some("ingress"),
        Some(NetfilterHook::Prerouting) => Some("prerouting"),
        Some(NetfilterHook::Input) => Some("input"),
        Some(NetfilterHook::Forward) => Some("forward"),
        Some(NetfilterHook::Output) => Some("output"),
        Some(NetfilterHook::Postrouting) => Some("postrouting"),
        Some(NetfilterHook::Egress) => Some("egress"),
        Some(NetfilterHook::Other(_)) => None,
        None => None,
    }
}

/// The hook of the built-in chains of iptables, which follows from their names.
pub open spec fn implied_hook(backend: NetfilterBackend, chain: Seq<char>) -> Option<Seq<char>> {
    if backend is Nftables {
        None
    } else if chain == "PREROUTING"@ {
        Some("prerouting"@)
    } else if chain == "INPUT"@ {
        Some("input"@)
    } else if chain == "FORWARD"@ {
        Some("forward"@)
    } else if chain == "OUTPUT"@ {
        Some("output"@)
    } else if chain == "POSTROUTING"@ {
        Some("postrouting"@)
    } else {
        None
    }
}

fn infer_iptables_hook(backend: NetfilterBackend, chain: &str) -> (label: Option<&'static str>)
    ensures
        implied_hook(backend, chain@) == match label {
            Some(label) => Some(label@),
            None => None,
        },
{
    if let NetfilterBackend::Nftables = backend {
        return None;
    }
    if same_text(chain, "PREROUTING") {
        Some("prerouting")
    } else if same_text(chain, "INPUT") {
        Some("input")
    } else if same_text(chain, "FORWARD") {
        Some("forward")
    } else if same_text(chain, "OUTPUT") {
        Some("output")
    } else if same_text(chain, "POSTROUTING") {
        Some("postrouting")
    } else {
        None
    }
}

pub open spec fn entry_of(label: MetricLabel, value: Seq<char>) -> Label<Seq<char>> {
    Label { label, value }
}

/// The labels of a chain.
pub open spec fn chain_entries(
    backend: NetfilterBackend,
    family: Seq<char>,
    table: Seq<char>,
    chain: NetfilterChain,
) -> Seq<Label<Seq<char>>> {
    let named = seq![
        entry_of(MetricLabel::Backend, backend_label(backend)),
        entry_of(MetricLabel::Family, family),
        entry_of(MetricLabel::Table, table),
        entry_of(MetricLabel::Chain, chain.name@),
    ];
    let hook = match hook_label(chain.hook) {
        Some(hook) => Some(hook),
        None => implied_hook(backend, chain.name@),
    };
    let hooked = match hook {
        Some(hook) => named.push(entry_of(MetricLabel::Hook, hook)),
        None => named,
    };
    match chain.priority {
        Some(priority) => hooked.push(
            entry_of(MetricLabel::Priority, text::signed_decimal(priority as int)),
        ),
        None => hooked,
    }
}

fn netfilter_chain_labels(
    backend: NetfilterBackend,
    family: &str,
    table: &str,
    chain: &NetfilterChain,
) -> (result: Result<MetricLabels, MonitorValidationError>)
    ensures
        model::labels_of(chain_entries(backend, family@, table@, *chain)) == match result {
            Ok(labels) => Ok(labels.deep_view()),
            Err(error) => Err(error),
        },
        result matches Ok(labels) ==> labels.wf(),
{
    let mut entries: Vec<Label<String>> = Vec::new();
    entries.push(entry(MetricLabel::Backend, netfilter_backend_label(backend)));
    entries.push(entry(MetricLabel::Family, family));
    entries.push(entry(MetricLabel::Table, table));
    entries.push(entry(MetricLabel::Chain, chain.name.as_str()));
    let hook = match netfilter_hook_label(&chain.hook) {
        Some(hook) => Some(hook),
        None => infer_iptables_hook(backend, chain.name.as_str()),
    };
    if let Some(hook) = hook {
        entries.push(entry(MetricLabel::Hook, hook));
    }
    if let Some(priority) = chain.priority {
        let priority = signed_text(priority as i64);
        entries.push(entry(MetricLabel::Priority, priority.as_str()));
    }
    assert(entries.deep_view() =~= chain_entries(backend, family@, table@, *chain));
    MetricLabels::new(entries)
}

/// A reading of a state, if the text can be one.
pub open spec fn checked_state(metric: Seq<char>, labels: LabelsModel, value: Seq<char>) -> Result<
    ReadingModel,
    MonitorValidationError,
> {
    if model::valid_value(value) {
        Ok(observed(metric, labels, MetricReading::State(value)))
    } else {
        Err(MonitorValidationError::InvalidStateValue)
    }
}

pub open spec fn observed(
    metric: Seq<char>,
    labels: LabelsModel,
    reading: MetricReading<Seq<char>>,
) -> ReadingModel {
    ReadingModel { key: KeyModel { metric, labels }, outcome: ReadingOutcome::Observed(reading) }
}

pub open spec fn unavailable(
    metric: Seq<char>,
    labels: LabelsModel,
    reason: UnavailableReason,
) -> ReadingModel {
    ReadingModel { key: KeyModel { metric, labels }, outcome: ReadingOutcome::Unavailable(reason) }
}

fn state_or_error(metric: &str, labels: &MetricLabels, value: &str) -> (result: Result<
    SampleReading,
    MonitorValidationError,
>)
    ensures
        checked_state(metric@, labels.deep_view(), value@) == match result {
            Ok(reading) => Ok(reading.deep_view()),
            Err(error) => Err(error),
        },
{
    if is_bounded_printable(value, MAX_LABEL_VALUE_BYTES) {
        Ok(
            SampleReading::observed(
                owned(metric),
                labels.copy(),
                MetricReading::State(owned(value)),
            ),
        )
    } else {
        Err(MonitorValidationError::InvalidStateValue)
    }
}

/// What becomes of a packet that no rule of the chain decides on.
pub open spec fn policy_reading(labels: LabelsModel, policy: Option<ChainPolicy>) -> Result<
    ReadingModel,
    MonitorValidationError,
> {
    match policy {
        None => Ok(unavailable(CHAIN_POLICY@, labels, UnavailableReason::NotApplicable)),
        Some(ChainPolicy::Accept) => checked_state(CHAIN_POLICY@, labels, "accept"@),
        Some(ChainPolicy::Drop) => checked_state(CHAIN_POLICY@, labels, "drop"@),
        Some(ChainPolicy::Unset) => checked_state(CHAIN_POLICY@, labels, "none"@),
        Some(ChainPolicy::Other(value)) => checked_state(CHAIN_POLICY@, labels, value@),
    }
}

fn netfilter_policy_reading(labels: &MetricLabels, chain: &NetfilterChain) -> (result: Result<
    SampleReading,
    MonitorValidationError,
>)
    ensures
        policy_reading(labels.deep_view(), chain.policy) == match result {
            Ok(reading) => Ok(reading.deep_view()),
            Err(error) => Err(error),
        },
{
    match &chain.policy {
        None => Ok(
            SampleReading::unavailable(
                owned(CHAIN_POLICY),
                labels.copy(),
                UnavailableReason::NotApplicable,
            ),
        ),
        Some(ChainPolicy::Accept) => state_or_error(CHAIN_POLICY, labels, "accept"),
        Some(ChainPolicy::Drop) => state_or_error(CHAIN_POLICY, labels, "drop"),
        Some(ChainPolicy::Unset) => state_or_error(CHAIN_POLICY, labels, "none"),
        Some(ChainPolicy::Other(value)) => state_or_error(CHAIN_POLICY, labels, value.as_str()),
    }
}

pub open spec fn chain_type_reading(labels: LabelsModel, chain_type: Option<String>) -> Result<
    ReadingModel,
    MonitorValidationError,
> {
    match chain_type {
        None => Ok(unavailable(CHAIN_TYPE@, labels, UnavailableReason::NotApplicable)),
        Some(value) => checked_state(CHAIN_TYPE@, labels, value@),
    }
}

fn netfilter_chain_type_reading(labels: &MetricLabels, chain: &NetfilterChain) -> (result: Result<
    SampleReading,
    MonitorValidationError,
>)
    ensures
        chain_type_reading(labels.deep_view(), chain.chain_type) == match result {
            Ok(reading) => Ok(reading.deep_view()),
            Err(error) => Err(error),
        },
{
    match &chain.chain_type {
        None => Ok(
            SampleReading::unavailable(
                owned(CHAIN_TYPE),
                labels.copy(),
                UnavailableReason::NotApplicable,
            ),
        ),
        Some(value) => state_or_error(CHAIN_TYPE, labels, value.as_str()),
    }
}

pub open spec fn verdict_word(verdict: RuleVerdict) -> Seq<char> {
    match verdict {
        RuleVerdict::Accept => "accept"@,
        RuleVerdict::Drop => "drop"@,
        RuleVerdict::Reject => "reject"@,
        RuleVerdict::Continue => "continue"@,
        RuleVerdict::Return => "return"@,
        RuleVerdict::Jump(_) => "jump"@,
        RuleVerdict::Goto(_) => "goto"@,
        RuleVerdict::Queue => "queue"@,
    }
}

fn word_of_verdict(verdict: &RuleVerdict) -> (word: &'static str)
    ensures
        word@ == verdict_word(*verdict),
{
    match verdict {
        RuleVerdict::Accept => "accept",
        RuleVerdict::Drop => "drop",
        RuleVerdict::Reject => "reject",
        RuleVerdict::Continue => "continue",
        RuleVerdict::Return => "return",
        RuleVerdict::Jump(_) => "jump",
        RuleVerdict::Goto(_) => "goto",
        RuleVerdict::Queue => "queue",
    }
}

pub open spec fn decides() -> spec_fn(RuleAction) -> bool {
    |action: RuleAction| action is Verdict
}

/// An action after which it is not known from the rule what becomes of a packet.
pub open spec fn rewrites() -> spec_fn(RuleAction) -> bool {
    |action: RuleAction|
        action is Dnat || action is Snat || action is Masquerade || action is Redirect
            || action is Other
}

/// Whether the first `n` actions have no verdict but `word`.
pub open spec fn only_verdict(actions: Seq<RuleAction>, word: Seq<char>, n: int) -> bool {
    forall|i: int|
        0 <= i < n ==> ((#[trigger] actions[i]) matches RuleAction::Verdict(verdict)
            ==> verdict_word(verdict) == word)
}

/// What a rule decides: its verdict, if all its verdicts agree.
pub open spec fn rule_verdict(actions: Seq<RuleAction>) -> Seq<char> {
    let n = actions.len() as int;
    match seqs::first_where(actions, decides(), n) {
        Some(i) => if only_verdict(actions, verdict_word(actions[i]->Verdict_0), n) {
            verdict_word(actions[i]->Verdict_0)
        } else {
            "unknown"@
        },
        None => if seqs::first_where(actions, rewrites(), n) is Some {
            "unknown"@
        } else {
            "continue"@
        },
    }
}

fn netfilter_rule_verdict(rule: &NetfilterRule) -> (word: &'static str)
    ensures
        word@ == rule_verdict(rule.actions@),
{
    let ghost actions = rule.actions@;
    let ghost n = actions.len() as int;
    let mut seen: Option<&'static str> = None;
    let mut rewritten: bool = false;
    for i in 0..rule.actions.len()
        invariant
            actions == rule.actions@,
            n == actions.len(),
            rewritten == (seqs::first_where(actions, rewrites(), i as int) is Some),
            match seqs::first_where(actions, decides(), i as int) {
                Some(k) => 0 <= k < i && actions[k] is Verdict && (seen matches Some(word)
                    && word@ == verdict_word(actions[k]->Verdict_0) && only_verdict(
                    actions,
                    word@,
                    i as int,
                )),
                None => seen is None,
            },
    {
        match &rule.actions[i] {
            RuleAction::Verdict(verdict) => {
                let current = word_of_verdict(verdict);
                match seen {
                    Some(previous) => {
                        if !same_text(previous, current) {
                            proof {
                                seqs::lemma_first_where_stays(actions, decides(), i as int, n);
                                assert(actions[i as int] is Verdict);
                                assert(!only_verdict(actions, previous@, n));
                            }
                            return "unknown";
                        }
                    },
                    None => {
                        proof {
                            seqs::lemma_first_where(actions, decides(), i as int);
                            assert forall|j: int| 0 <= j < i implies !(
                            #[trigger] actions[j] is Verdict) by {
                                assert(!decides()(actions[j]));
                            }
                        }
                        seen = Some(current);
                    },
                }
            },
            RuleAction::Dnat
            | RuleAction::Snat
            | RuleAction::Masquerade
            | RuleAction::Redirect
            | RuleAction::Other(_) => {
                rewritten = true;
            },
            RuleAction::Log | RuleAction::Mark => {},
        }
    }
    match seen {
        Some(word) => word,
        None => if rewritten {
            "unknown"
        } else {
            "continue"
        },
    }
}

pub open spec fn is_counter(name: Seq<char>) -> spec_fn(NamedCounter) -> bool {
    |counter: NamedCounter| counter.name@ == name
}

/// The counters of a rule: its own, else those it refers to by name.
pub open spec fn counters_of(table: NetfilterTable, rule: NetfilterRule) -> Option<RuleCounters> {
    match (rule.counters, rule.counter_reference) {
        (Some(counters), _) => Some(counters),
        (None, None) => None,
        (None, Some(name)) => match seqs::first_where(
            table.named_counters@,
            is_counter(name@),
            table.named_counters@.len() as int,
        ) {
            Some(i) => Some(table.named_counters@[i].counters),
            None => None,
        },
    }
}

fn netfilter_rule_counters(table: &NetfilterTable, rule: &NetfilterRule) -> (counters: Option<
    RuleCounters,
>)
    ensures
        counters == counters_of(*table, *rule),
{
    if let Some(counters) = rule.counters {
        return Some(counters);
    }
    match &rule.counter_reference {
        None => None,
        Some(name) => {
            let ghost all = table.named_counters@;
            let mut i: usize = 0;
            while i < table.named_counters.len()
                invariant
                    i <= table.named_counters.len(),
                    all == table.named_counters@,
                    rule.counters is None,
                    rule.counter_reference == Some(*name),
                    seqs::first_where(all, is_counter(name@), i as int) is None,
                decreases table.named_counters.len() - i,
            {
                if same_text(table.named_counters[i].name.as_str(), name.as_str()) {
                    proof {
                        seqs::lemma_first_where_stays(
                            all,
                            is_counter(name@),
                            i as int + 1,
                            all.len() as int,
                        );
                    }
                    return Some(table.named_counters[i].counters);
                }
                i += 1;
            }
            None
        },
    }
}

/// What a rule says, as far as a label can hold it: the first bytes, each as one
/// character.
pub open spec fn rule_expression(summary: Seq<char>) -> Seq<char> {
    let bytes = encode_utf8(
        if summary.len() == 0 {
            "all"@
        } else {
            summary
        },
    );
    Seq::new(
        if bytes.len() < MAX_LABEL_VALUE_BYTES {
            bytes.len()
        } else {
            MAX_LABEL_VALUE_BYTES as nat
        },
        |i: int| bytes[i] as char,
    )
}

fn bounded_rule_expression(summary: &str) -> (expression: String)
    ensures
        expression@ == rule_expression(summary@),
{
    let summary = if summary.as_bytes().len() == 0 {
        "all"
    } else {
        summary
    };
    let bytes = summary.as_bytes();
    let mut expression = String::new();
    let mut i: usize = 0;
    while i < bytes.len() && i < MAX_LABEL_VALUE_BYTES
        invariant
            i <= bytes.len(),
            i <= MAX_LABEL_VALUE_BYTES,
            expression@.len() == i,
            forall|j: int| 0 <= j < i ==> expression@[j] == bytes@[j] as char,
        decreases bytes.len() - i,
    {
        expression.push(bytes[i] as char);
        i += 1;
    }
    assert(expression@ =~= rule_expression(summary@));
    expression
}

/// What makes a rule the same rule in the next collection. Equal rules of a chain
/// are told apart by how many of them stand before.
#[derive(Clone, Debug, PartialEq, Eq)]
pub struct NetfilterRuleIdentity<T> {
    pub backend: T,
    pub family: T,
    pub table: T,
    pub chain: T,
    pub handle: Option<u64>,
    pub fingerprint: RuleFingerprint,
    pub duplicate_ordinal: usize,
}

impl DeepView for NetfilterRuleIdentity<String> {
    type V = NetfilterRuleIdentity<Seq<char>>;

    open spec fn deep_view(&self) -> NetfilterRuleIdentity<Seq<char>> {
        NetfilterRuleIdentity {
            backend: self.backend@,
            family: self.family@,
            table: self.table@,
            chain: self.chain@,
            handle: self.handle,
            fingerprint: self.fingerprint,
            duplicate_ordinal: self.duplicate_ordinal,
        }
    }
}

fn same_handle(a: Option<u64>, b: Option<u64>) -> (same: bool)
    ensures
        same == (a == b),
{
    match (a, b) {
        (Some(a), Some(b)) => a == b,
        (None, None) => true,
        _ => false,
    }
}

impl RowIdentity for NetfilterRuleIdentity<String> {
    fn same(&self, other: &Self) -> (same: bool) {
        self.fingerprint == other.fingerprint && self.duplicate_ordinal == other.duplicate_ordinal
            && same_handle(self.handle, other.handle) && same_text(
            self.chain.as_str(),
            other.chain.as_str(),
        ) && same_text(self.table.as_str(), other.table.as_str()) && same_text(
            self.family.as_str(),
            other.family.as_str(),
        ) && same_text(self.backend.as_str(), other.backend.as_str())
    }
}

/// The readings of a chain.
pub open spec fn chain_readings(
    backend: NetfilterBackend,
    family: Seq<char>,
    table: Seq<char>,
    chain: NetfilterChain,
) -> Result<Seq<ReadingModel>, MonitorValidationError> {
    match model::labels_of(chain_entries(backend, family, table, chain)) {
        Err(error) => Err(error),
        Ok(labels) => match policy_reading(labels, chain.policy) {
            Err(error) => Err(error),
            Ok(policy) => match chain_type_reading(labels, chain.chain_type) {
                Err(error) => Err(error),
                Ok(chain_type) => Ok(
                    seq![
                        observed(
                            CHAIN_RULES@,
                            labels,
                            MetricReading::Gauge(chain.rules@.len() as u64),
                        ),
                        policy,
                        chain_type,
                    ],
                ),
            },
        },
    }
}

fn netfilter_chain_readings(
    backend: NetfilterBackend,
    family: &str,
    table: &str,
    chain: &NetfilterChain,
) -> (result: Result<Vec<SampleReading>, MonitorValidationError>)
    ensures
        chain_readings(backend, family@, table@, *chain) == match result {
            Ok(readings) => Ok(readings.deep_view()),
            Err(error) => Err(error),
        },
{
    let labels = match netfilter_chain_labels(backend, family, table, chain) {
        Err(error) => {
            return Err(error);
        },
        Ok(labels) => labels,
    };
    let policy = match netfilter_policy_reading(&labels, chain) {
        Err(error) => {
            return Err(error);
        },
        Ok(policy) => policy,
    };
    let chain_type = match netfilter_chain_type_reading(&labels, chain) {
        Err(error) => {
            return Err(error);
        },
        Ok(chain_type) => chain_type,
    };
    let mut readings: Vec<SampleReading> = Vec::new();
    let ghost shown = labels.deep_view();
    readings.push(
        SampleReading::observed(
            owned(CHAIN_RULES),
            labels,
            MetricReading::Gauge(chain.rules.len() as u64),
        ),
    );
    readings.push(policy);
    readings.push(chain_type);
    assert(readings.deep_view() =~= seq![
        observed(CHAIN_RULES@, shown, MetricReading::Gauge(chain.rules@.len() as u64)),
        policy.deep_view(),
        chain_type.deep_view(),
    ]);
    Ok(readings)
}

/// The labels of a rule.
pub open spec fn rule_entries(
    backend: Seq<char>,
    family: Seq<char>,
    table: Seq<char>,
    chain: Seq<char>,
    row: nat,
    handle: Option<u64>,
    verdict: Seq<char>,
) -> Seq<Label<Seq<char>>> {
    let entries = seq![
        entry_of(MetricLabel::Backend, backend),
        entry_of(MetricLabel::Family, family),
        entry_of(MetricLabel::Table, table),
        entry_of(MetricLabel::Chain, chain),
        entry_of(MetricLabel::RowId, text::decimal(row)),
        entry_of(MetricLabel::Verdict, verdict),
    ];
    match handle {
        Some(handle) => entries.push(
            entry_of(MetricLabel::Handle, text::decimal(handle as nat)),
        ),
        None => entries,
    }
}

fn netfilter_rule_labels(
    backend: &str,
    family: &str,
    table: &str,
    chain: &str,
    row: u64,
    handle: Option<u64>,
    verdict: &str,
) -> (result: Result<MetricLabels, MonitorValidationError>)
    ensures
        model::labels_of(
            rule_entries(backend@, family@, table@, chain@, row as nat, handle, verdict@),
        ) == match result {
            Ok(labels) => Ok(labels.deep_view()),
            Err(error) => Err(error),
        },
        result matches Ok(labels) ==> labels.wf(),
{
    let mut entries: Vec<Label<String>> = Vec::new();
    let row_text = decimal_text(row as u128);
    entries.push(entry(MetricLabel::Backend, backend));
    entries.push(entry(MetricLabel::Family, family));
    entries.push(entry(MetricLabel::Table, table));
    entries.push(entry(MetricLabel::Chain, chain));
    entries.push(entry(MetricLabel::RowId, row_text.as_str()));
    entries.push(entry(MetricLabel::Verdict, verdict));
    if let Some(handle) = handle {
        let handle_text = decimal_text(handle as u128);
        entries.push(entry(MetricLabel::Handle, handle_text.as_str()));
    }
    assert(entries.deep_view() =~= rule_entries(
        backend@,
        family@,
        table@,
        chain@,
        row as nat,
        handle,
        verdict@,
    ));
    MetricLabels::new(entries)
}

/// A counter of a rule; without it there is no value, and no zero.
pub open spec fn rule_counter(
    metric: Seq<char>,
    labels: LabelsModel,
    value: Option<u64>,
) -> ReadingModel {
    match value {
        Some(value) => observed(metric, labels, MetricReading::Counter { value, bits: None }),
        None => unavailable(metric, labels, UnavailableReason::Missing),
    }
}

fn counter_or_missing(metric: &str, labels: &MetricLabels, value: Option<u64>) -> (reading:
    SampleReading)
    ensures
        reading.deep_view() == rule_counter(metric@, labels.deep_view(), value),
{
    match value {
        Some(value) => SampleReading::observed(
            owned(metric),
            labels.copy(),
            MetricReading::Counter { value, bits: None },
        ),
        None => SampleReading::unavailable(
            owned(metric),
            labels.copy(),
            UnavailableReason::Missing,
        ),
    }
}

pub open spec fn packets_of(counters: Option<RuleCounters>) -> Option<u64> {
    match counters {
        Some(counters) => Some(counters.packets),
        None => None,
    }
}

pub open spec fn bytes_of(counters: Option<RuleCounters>) -> Option<u64> {
    match counters {
        Some(counters) => Some(counters.bytes),
        None => None,
    }
}

/// The readings of a rule.
pub open spec fn rule_readings(
    labels: LabelsModel,
    position: int,
    rule: NetfilterRule,
    counters: Option<RuleCounters>,
) -> Result<Seq<ReadingModel>, MonitorValidationError> {
    match checked_state(RULE_EXPRESSION@, labels, rule_expression(rule.summary@)) {
        Err(error) => Err(error),
        Ok(expression) => Ok(
            seq![
                observed(RULE_POSITION@, labels, MetricReading::Gauge((position + 1) as u64)),
                expression,
                rule_counter(RULE_PACKETS@, labels, packets_of(counters)),
                rule_counter(RULE_BYTES@, labels, bytes_of(counters)),
            ],
        ),
    }
}

fn netfilter_rule_readings(
    labels: MetricLabels,
    position: usize,
    rule: &NetfilterRule,
    counters: Option<RuleCounters>,
) -> (result: Result<Vec<SampleReading>, MonitorValidationError>)
    requires
        position < usize::MAX,
    ensures
        rule_readings(labels.deep_view(), position as int, *rule, counters) == match result {
            Ok(readings) => Ok(readings.deep_view()),
            Err(error) => Err(error),
        },
{
    let expression = bounded_rule_expression(rule.summary.as_str());
    match state_or_error(RULE_EXPRESSION, &labels, expression.as_str()) {
        Err(error) => Err(error),
        Ok(expression) => {
            let (packets, bytes) = match counters {
                Some(counters) => (Some(counters.packets), Some(counters.bytes)),
                None => (None, None),
            };
            let mut readings: Vec<SampleReading> = Vec::new();
            readings.push(
                SampleReading::observed(
                    owned(RULE_POSITION),
                    labels.copy(),
                    MetricReading::Gauge(position as u64 + 1),
                ),
            );
            readings.push(expression);
            readings.push(counter_or_missing(RULE_PACKETS, &labels, packets));
            readings.push(counter_or_missing(RULE_BYTES, &labels, bytes));
            assert(readings.deep_view() =~= rule_readings(
                labels.deep_view(),
                position as int,
                *rule,
                counters,
            )->Ok_0);
            Ok(readings)
        },
    }
}

/// A chain of a ruleset: the table it is in, and where it stands there.
pub open spec fn chain_at(ruleset: NetfilterRuleset, at: (int, int)) -> NetfilterChain {
    ruleset.tables@[at.0].chains@[at.1]
}

pub open spec fn family_at(ruleset: NetfilterRuleset, table: int) -> Option<Seq<char>> {
    family_label(ruleset.backend, ruleset.tables@[table].family)
}

/// The first `m` chains of table `t`.
pub open spec fn chains_of(t: int, m: int) -> Seq<(int, int)> {
    Seq::new(m as nat, |c: int| (t, c))
}

/// The chains of the first `n` tables, without tables of an unknown family.
pub open spec fn chains_upto(ruleset: NetfilterRuleset, n: int) -> Seq<(int, int)>
    decreases n,
{
    if n <= 0 {
        Seq::empty()
    } else if family_at(ruleset, n - 1) is None {
        chains_upto(ruleset, n - 1)
    } else {
        chains_upto(ruleset, n - 1) + chains_of(
            n - 1,
            ruleset.tables@[n - 1].chains@.len() as int,
        )
    }
}

/// How many chains can be shown.
pub open spec fn chain_limit() -> int {
    MAX_READINGS_PER_PROVIDER as int / NETFILTER_METRICS_PER_CHAIN as int
}

/// The chains that are shown.
pub open spec fn retained_chains(ruleset: NetfilterRuleset) -> Seq<(int, int)> {
    let chains = chains_upto(ruleset, ruleset.tables@.len() as int);
    if chains.len() <= chain_limit() {
        chains
    } else {
        chains.take(chain_limit())
    }
}

/// How many rules and how many chains the first `n` tables have, and how many
/// tables have an unknown family.
pub open spec fn rules_in(chains: Seq<NetfilterChain>, n: int) -> nat
    decreases n,
{
    if n <= 0 {
        0
    } else {
        rules_in(chains, n - 1) + chains[n - 1].rules@.len()
    }
}

pub open spec fn total_rules(tables: Seq<NetfilterTable>, n: int) -> nat
    decreases n,
{
    if n <= 0 {
        0
    } else {
        total_rules(tables, n - 1) + rules_in(
            tables[n - 1].chains@,
            tables[n - 1].chains@.len() as int,
        )
    }
}

pub open spec fn total_chains(tables: Seq<NetfilterTable>, n: int) -> nat
    decreases n,
{
    if n <= 0 {
        0
    } else {
        total_chains(tables, n - 1) + tables[n - 1].chains@.len()
    }
}

pub open spec fn unknown_families(ruleset: NetfilterRuleset, n: int) -> nat
    decreases n,
{
    if n <= 0 {
        0
    } else if family_at(ruleset, n - 1) is None {
        unknown_families(ruleset, n - 1) + 1
    } else {
        unknown_families(ruleset, n - 1)
    }
}

/// Whether the rules and the chains of a ruleset can be counted.
pub open spec fn is_countable(ruleset: NetfilterRuleset) -> bool {
    &&& total_rules(ruleset.tables@, ruleset.tables@.len() as int) <= usize::MAX
    &&& total_chains(ruleset.tables@, ruleset.tables@.len() as int) <= usize::MAX
}

/// The readings of the first `n` of the shown chains.
pub open spec fn all_chain_readings(
    ruleset: NetfilterRuleset,
    chains: Seq<(int, int)>,
    n: int,
) -> Result<Seq<ReadingModel>, MonitorValidationError>
    decreases n,
{
    if n <= 0 {
        Ok(Seq::empty())
    } else {
        match all_chain_readings(ruleset, chains, n - 1) {
            Err(error) => Err(error),
            Ok(before) => match chain_readings(
                ruleset.backend,
                family_at(ruleset, chains[n - 1].0)->0,
                ruleset.tables@[chains[n - 1].0].name@,
                chain_at(ruleset, chains[n - 1]),
            ) {
                Err(error) => Err(error),
                Ok(readings) => Ok(before + readings),
            },
        }
    }
}

/// How many rules each of the chains has.
pub open spec fn rule_counts(ruleset: NetfilterRuleset, chains: Seq<(int, int)>) -> Seq<int> {
    Seq::new(chains.len(), |i: int| chain_at(ruleset, chains[i]).rules@.len() as int)
}

/// The turns of the first `n` chains in one round: a chain and its rule of this
/// round, where it has one.
pub open spec fn round_turns(counts: Seq<int>, round: int, n: int) -> Seq<(int, int)>
    decreases n,
{
    if n <= 0 {
        Seq::empty()
    } else if counts[n - 1] > round {
        round_turns(counts, round, n - 1).push((n - 1, round))
    } else {
        round_turns(counts, round, n - 1)
    }
}

/// The turns of the first `rounds` rounds.
pub open spec fn turns_upto(counts: Seq<int>, rounds: int) -> Seq<(int, int)>
    decreases rounds,
{
    if rounds <= 0 {
        Seq::empty()
    } else {
        turns_upto(counts, rounds - 1) + round_turns(counts, rounds - 1, counts.len() as int)
    }
}

/// The largest of the first `n` counts.
pub open spec fn longest(counts: Seq<int>, n: int) -> int
    decreases n,
{
    if n <= 0 {
        0
    } else if counts[n - 1] > longest(counts, n - 1) {
        counts[n - 1]
    } else {
        longest(counts, n - 1)
    }
}

/// The turns of all rules: the first rule of every chain, then the second of every
/// chain that has two, and so on.
pub open spec fn all_turns(counts: Seq<int>) -> Seq<(int, int)> {
    turns_upto(counts, longest(counts, counts.len() as int))
}

pub open spec fn is_turn(counts: Seq<int>, turn: (int, int)) -> bool {
    0 <= turn.0 < counts.len() && 0 <= turn.1 < counts[turn.0]
}

pub open spec fn turn_before(a: (int, int), b: (int, int)) -> bool {
    a.1 < b.1 || (a.1 == b.1 && a.0 < b.0)
}

proof fn lemma_round_turns(counts: Seq<int>, round: int, n: int)
    requires
        0 <= n <= counts.len(),
        0 <= round,
    ensures
        forall|i: int|
            0 <= i < round_turns(counts, round, n).len() ==> {
                let turn = #[trigger] round_turns(counts, round, n)[i];
                is_turn(counts, turn) && turn.1 == round && turn.0 < n
            },
        forall|i: int, j: int|
            0 <= i < j < round_turns(counts, round, n).len() ==> turn_before(
                #[trigger] round_turns(counts, round, n)[i],
                #[trigger] round_turns(counts, round, n)[j],
            ),
        forall|c: int|
            0 <= c < n && counts[c] > round ==> round_turns(counts, round, n).contains(
                #[trigger] turn(c, round),
            ),
    decreases n,
{
    if n > 0 {
        lemma_round_turns(counts, round, n - 1);
        let before = round_turns(counts, round, n - 1);
        let after = round_turns(counts, round, n);
        assert forall|c: int| 0 <= c < n && counts[c] > round implies after.contains(
            #[trigger] turn(c, round),
        ) by {
            if c == n - 1 {
                assert(after[after.len() - 1] == turn(c, round));
            } else {
                let i = choose|i: int| 0 <= i < before.len() && before[i] == turn(c, round);
                assert(after[i] == turn(c, round));
            }
        }
    }
}

pub open spec fn turn(chain: int, rule: int) -> (int, int) {
    (chain, rule)
}

proof fn lemma_turns(counts: Seq<int>, rounds: int)
    requires
        0 <= rounds,
    ensures
        forall|i: int|
            0 <= i < turns_upto(counts, rounds).len() ==> {
                let turn = #[trigger] turns_upto(counts, rounds)[i];
                is_turn(counts, turn) && turn.1 < rounds
            },
        forall|i: int, j: int|
            0 <= i < j < turns_upto(counts, rounds).len() ==> turn_before(
                #[trigger] turns_upto(counts, rounds)[i],
                #[trigger] turns_upto(counts, rounds)[j],
            ),
        forall|c: int, r: int|
            0 <= c < counts.len() && 0 <= r < counts[c] && r < rounds ==> turns_upto(
                counts,
                rounds,
            ).contains(#[trigger] turn(c, r)),
    decreases rounds,
{
    if rounds > 0 {
        let n = counts.len() as int;
        lemma_turns(counts, rounds - 1);
        lemma_round_turns(counts, rounds - 1, n);
        let before = turns_upto(counts, rounds - 1);
        let last = round_turns(counts, rounds - 1, n);
        let after = turns_upto(counts, rounds);
        assert forall|c: int, r: int|
            0 <= c < counts.len() && 0 <= r < counts[c] && r < rounds implies after.contains(
            #[trigger] turn(c, r),
        ) by {
            if r == rounds - 1 {
                assert(last.contains(turn(c, r)));
                let i = choose|i: int| 0 <= i < last.len() && last[i] == turn(c, r);
                assert(after[before.len() + i] == turn(c, r));
            } else {
                assert(before.contains(turn(c, r)));
                let i = choose|i: int| 0 <= i < before.len() && before[i] == turn(c, r);
                assert(after[i] == turn(c, r));
            }
        }
    }
}

proof fn lemma_longest(counts: Seq<int>, n: int)
    requires
        0 <= n <= counts.len(),
    ensures
        0 <= longest(counts, n),
        forall|c: int| 0 <= c < n ==> #[trigger] counts[c] <= longest(counts, n),
    decreases n,
{
    if n > 0 {
        lemma_longest(counts, n - 1);
    }
}

/// Rules are shown in turns: a rule of any chain comes before all rules that stand
/// further down in their chains, and every rule has exactly one turn.
pub proof fn rules_take_turns(counts: Seq<int>)
    ensures
        forall|i: int, j: int|
            0 <= i < j < all_turns(counts).len() ==> turn_before(
                #[trigger] all_turns(counts)[i],
                #[trigger] all_turns(counts)[j],
            ),
        all_turns(counts).no_duplicates(),
        forall|c: int, r: int|
            all_turns(counts).contains(#[trigger] turn(c, r)) <==> is_turn(counts, turn(c, r)),
{
    let rounds = longest(counts, counts.len() as int);
    lemma_longest(counts, counts.len() as int);
    lemma_turns(counts, rounds);
    let turns = all_turns(counts);
    assert forall|c: int, r: int| is_turn(counts, turn(c, r)) implies turns.contains(
        #[trigger] turn(c, r),
    ) by {
        assert(counts[c] <= rounds);
    }
}

/// A failed translation: the class of the failure, and what it says.
pub type Failure = (MonitorErrorCode, Seq<char>);

pub open spec fn failure_of(error: MonitorValidationError) -> Failure {
    (MonitorErrorCode::Internal, diagnostics::explanation(error))
}

pub open spec fn is_like(rule: NetfilterRule) -> spec_fn(NetfilterRule) -> bool {
    |other: NetfilterRule| other.handle == rule.handle && other.fingerprint == rule.fingerprint
}

/// What makes the rule of a turn the same rule in the next collection.
pub open spec fn rule_identity(
    ruleset: NetfilterRuleset,
    at: (int, int),
    position: int,
) -> NetfilterRuleIdentity<Seq<char>> {
    let rules = chain_at(ruleset, at).rules@;
    NetfilterRuleIdentity {
        backend: backend_label(ruleset.backend),
        family: family_at(ruleset, at.0)->0,
        table: ruleset.tables@[at.0].name@,
        chain: chain_at(ruleset, at).name@,
        handle: rules[position].handle,
        fingerprint: rules[position].fingerprint,
        duplicate_ordinal: seqs::count_where(rules, is_like(rules[position]), position) as usize,
    }
}

/// What is said when no further rule can be numbered.
pub open spec fn history_words() -> Seq<char> {
    "netfilter rule identity history exceeds the "@ + text::decimal(
        MAX_NETFILTER_RULE_ROW_IDS as nat,
    ) + "-row session limit"@
}

/// What the numbered rule of a turn adds.
pub open spec fn turn_readings(
    ruleset: NetfilterRuleset,
    at: (int, int),
    position: int,
    row: nat,
) -> Result<Seq<ReadingModel>, MonitorValidationError> {
    let rule = chain_at(ruleset, at).rules@[position];
    match model::labels_of(
        rule_entries(
            backend_label(ruleset.backend),
            family_at(ruleset, at.0)->0,
            ruleset.tables@[at.0].name@,
            chain_at(ruleset, at).name@,
            row,
            rule.handle,
            rule_verdict(rule.actions@),
        ),
    ) {
        Err(error) => Err(error),
        Ok(labels) => rule_readings(
            labels,
            position,
            rule,
            counters_of(ruleset.tables@[at.0], rule),
        ),
    }
}

/// The numbered rules after the first `n` turns, and the readings of these rules.
/// The first rule that cannot be shown ends the translation.
pub open spec fn taken_turns(
    ruleset: NetfilterRuleset,
    chains: Seq<(int, int)>,
    known: Seq<NetfilterRuleIdentity<Seq<char>>>,
    turns: Seq<(int, int)>,
    n: int,
) -> (Seq<NetfilterRuleIdentity<Seq<char>>>, Result<Seq<ReadingModel>, Failure>)
    decreases n,
{
    if n <= 0 {
        (known, Ok(Seq::empty()))
    } else {
        let (before, result) = taken_turns(ruleset, chains, known, turns, n - 1);
        match result {
            Err(failure) => (before, Err(failure)),
            Ok(shown) => {
                let at = chains[turns[n - 1].0];
                let position = turns[n - 1].1;
                let (after, row) = rows::numbered(
                    before,
                    rule_identity(ruleset, at, position),
                    MAX_NETFILTER_RULE_ROW_IDS as nat,
                );
                match row {
                    None => (after, Err((MonitorErrorCode::CardinalityLimit, history_words()))),
                    Some(row) => match turn_readings(ruleset, at, position, row) {
                        Err(error) => (after, Err(failure_of(error))),
                        Ok(readings) => (after, Ok(shown + readings)),
                    },
                }
            },
        }
    }
}

/// How many turns fit beside the readings of `chains` chains.
pub open spec fn turn_limit(chains: nat) -> int {
    (MAX_READINGS_PER_PROVIDER - NETFILTER_METRICS_PER_CHAIN * chains) / (
    NETFILTER_METRICS_PER_RULE as int)
}

/// How many rules are shown.
pub open spec fn shown_rules(ruleset: NetfilterRuleset) -> int {
    let chains = retained_chains(ruleset);
    let turns = all_turns(rule_counts(ruleset, chains));
    if turns.len() <= turn_limit(chains.len()) {
        turns.len() as int
    } else {
        turn_limit(chains.len())
    }
}

/// What a ruleset is said to lack.
pub open spec fn ruleset_warning(ruleset: NetfilterRuleset) -> Option<MonitorError<Seq<char>>> {
    let n = ruleset.tables@.len() as int;
    let chains = retained_chains(ruleset).len();
    let rules = shown_rules(ruleset) as nat;
    let all_chains = total_chains(ruleset.tables@, n);
    let all_rules = total_rules(ruleset.tables@, n);
    let unknown = unknown_families(ruleset, n);
    let flowtables = match ruleset.flowtables {
        Some(flowtables) => flowtables as nat,
        None => 0,
    };
    if chains < all_chains || rules < all_rules {
        Some(
            diagnostics::error_with(
                MonitorErrorCode::CardinalityLimit,
                "retained "@ + text::decimal(chains) + "/"@ + text::decimal(all_chains)
                    + " chains and "@ + text::decimal(rules) + "/"@ + text::decimal(all_rules)
                    + " rules"@,
            ),
        )
    } else if unknown != 0 {
        Some(
            diagnostics::error_with(
                MonitorErrorCode::SchemaMismatch,
                "ignored "@ + text::decimal(unknown) + " tables with unknown nft family"@,
            ),
        )
    } else if flowtables != 0 {
        Some(
            diagnostics::error_with(
                MonitorErrorCode::Unsupported,
                text::decimal(flowtables)
                    + " nft flowtables are active; classic rule visibility may be partial"@,
            ),
        )
    } else {
        None
    }
}

/// The numbered rules after a translation, and the readings of the ruleset.
pub open spec fn ruleset_readings(
    ruleset: NetfilterRuleset,
    known: Seq<NetfilterRuleIdentity<Seq<char>>>,
) -> (Seq<NetfilterRuleIdentity<Seq<char>>>, Result<Seq<ReadingModel>, Failure>) {
    let chains = retained_chains(ruleset);
    match all_chain_readings(ruleset, chains, chains.len() as int) {
        Err(error) => (known, Err(failure_of(error))),
        Ok(shown) => {
            let (after, result) = taken_turns(
                ruleset,
                chains,
                known,
                all_turns(rule_counts(ruleset, chains)),
                shown_rules(ruleset),
            );
            match result {
                Err(failure) => (after, Err(failure)),
                Ok(readings) => (after, Ok(shown + readings)),
            }
        },
    }
}

proof fn lemma_failure_stays(
    ruleset: NetfilterRuleset,
    chains: Seq<(int, int)>,
    known: Seq<NetfilterRuleIdentity<Seq<char>>>,
    turns: Seq<(int, int)>,
    m: int,
    n: int,
)
    requires
        m <= n,
        taken_turns(ruleset, chains, known, turns, m).1 is Err,
    ensures
        taken_turns(ruleset, chains, known, turns, n) == taken_turns(
            ruleset,
            chains,
            known,
            turns,
            m,
        ),
    decreases n - m,
{
    if m < n {
        lemma_failure_stays(ruleset, chains, known, turns, m, n - 1);
    }
}

proof fn lemma_chain_failure_stays(
    ruleset: NetfilterRuleset,
    chains: Seq<(int, int)>,
    m: int,
    n: int,
)
    requires
        m <= n,
        all_chain_readings(ruleset, chains, m) is Err,
    ensures
        all_chain_readings(ruleset, chains, n) == all_chain_readings(ruleset, chains, m),
    decreases n - m,
{
    if m < n {
        lemma_chain_failure_stays(ruleset, chains, m, n - 1);
    }
}

proof fn lemma_taken_turns_keep_rows(
    ruleset: NetfilterRuleset,
    chains: Seq<(int, int)>,
    known: Seq<NetfilterRuleIdentity<Seq<char>>>,
    turns: Seq<(int, int)>,
    n: int,
)
    requires
        rows::rows_valid(known, MAX_NETFILTER_RULE_ROW_IDS as nat),
    ensures
        rows::keeps_rows(known, taken_turns(ruleset, chains, known, turns, n).0),
        rows::rows_valid(
            taken_turns(ruleset, chains, known, turns, n).0,
            MAX_NETFILTER_RULE_ROW_IDS as nat,
        ),
    decreases n,
{
    if n > 0 {
        lemma_taken_turns_keep_rows(ruleset, chains, known, turns, n - 1);
        let before = taken_turns(ruleset, chains, known, turns, n - 1).0;
        let identity = rule_identity(ruleset, chains[turns[n - 1].0], turns[n - 1].1);
        rows::numbers_are_stable_and_distinct(
            before,
            identity,
            identity,
            MAX_NETFILTER_RULE_ROW_IDS as nat,
        );
        rows::lemma_keeps_rows_chain(
            known,
            before,
            rows::numbered(before, identity, MAX_NETFILTER_RULE_ROW_IDS as nat).0,
        );
    }
}

/// A rule keeps its number from one collection to the next, whatever rules come and
/// go around it, and also when a translation fails.
pub proof fn rules_keep_their_numbers(
    ruleset: NetfilterRuleset,
    known: Seq<NetfilterRuleIdentity<Seq<char>>>,
)
    requires
        rows::rows_valid(known, MAX_NETFILTER_RULE_ROW_IDS as nat),
    ensures
        rows::keeps_rows(known, ruleset_readings(ruleset, known).0),
        rows::rows_valid(
            ruleset_readings(ruleset, known).0,
            MAX_NETFILTER_RULE_ROW_IDS as nat,
        ),
{
    let chains = retained_chains(ruleset);
    lemma_taken_turns_keep_rows(
        ruleset,
        chains,
        known,
        all_turns(rule_counts(ruleset, chains)),
        shown_rules(ruleset),
    );
}

proof fn lemma_chains_are_known(ruleset: NetfilterRuleset, n: int)
    requires
        0 <= n <= ruleset.tables@.len(),
    ensures
        forall|i: int|
            0 <= i < chains_upto(ruleset, n).len() ==> is_known_chain(
                ruleset,
                #[trigger] chains_upto(ruleset, n)[i],
            ),
        chains_upto(ruleset, n).len() <= total_chains(ruleset.tables@, n),
    decreases n,
{
    if n > 0 {
        lemma_chains_are_known(ruleset, n - 1);
    }
}

pub open spec fn is_known_chain(ruleset: NetfilterRuleset, at: (int, int)) -> bool {
    &&& 0 <= at.0 < ruleset.tables@.len()
    &&& 0 <= at.1 < ruleset.tables@[at.0].chains@.len()
    &&& family_at(ruleset, at.0) is Some
}

/// Where the shown chains stand, as executable values.
pub open spec fn places(chains: Seq<(usize, usize)>) -> Seq<(int, int)> {
    Seq::new(chains.len(), |i: int| (chains[i].0 as int, chains[i].1 as int))
}

/// What is counted of a ruleset.
struct Census {
    rules: usize,
    chains: usize,
    unknown: usize,
}

proof fn lemma_rules_grow(chains: Seq<NetfilterChain>, m: int, n: int)
    requires
        0 <= m <= n,
    ensures
        rules_in(chains, m) <= rules_in(chains, n),
    decreases n - m,
{
    if m < n {
        lemma_rules_grow(chains, m, n - 1);
    }
}

proof fn lemma_totals_grow(tables: Seq<NetfilterTable>, m: int, n: int)
    requires
        0 <= m <= n,
    ensures
        total_rules(tables, m) <= total_rules(tables, n),
        total_chains(tables, m) <= total_chains(tables, n),
    decreases n - m,
{
    if m < n {
        lemma_totals_grow(tables, m, n - 1);
    }
}

fn count_ruleset(ruleset: &NetfilterRuleset) -> (census: Census)
    requires
        is_countable(*ruleset),
    ensures
        census.rules == total_rules(ruleset.tables@, ruleset.tables@.len() as int),
        census.chains == total_chains(ruleset.tables@, ruleset.tables@.len() as int),
        census.unknown == unknown_families(*ruleset, ruleset.tables@.len() as int),
{
    let ghost tables = ruleset.tables@;
    let mut census = Census { rules: 0, chains: 0, unknown: 0 };
    for t in 0..ruleset.tables.len()
        invariant
            is_countable(*ruleset),
            tables == ruleset.tables@,
            census.rules == total_rules(tables, t as int),
            census.chains == total_chains(tables, t as int),
            census.unknown == unknown_families(*ruleset, t as int),
            census.unknown <= t,
    {
        let table = &ruleset.tables[t];
        let ghost chains = table.chains@;
        proof {
            lemma_totals_grow(tables, t as int + 1, tables.len() as int);
        }
        for c in 0..table.chains.len()
            invariant
                is_countable(*ruleset),
                tables == ruleset.tables@,
                0 <= t < tables.len(),
                chains == table.chains@,
                *table == tables[t as int],
                total_rules(tables, t as int + 1) <= usize::MAX,
                census.rules == total_rules(tables, t as int) + rules_in(chains, c as int),
                census.chains == total_chains(tables, t as int),
                census.unknown == unknown_families(*ruleset, t as int),
                census.unknown <= t,
        {
            proof {
                lemma_rules_grow(chains, c as int + 1, chains.len() as int);
            }
            census.rules = census.rules + table.chains[c].rules.len();
        }
        census.chains = census.chains + table.chains.len();
        if netfilter_family_label(ruleset.backend, &table.family).is_none() {
            census.unknown = census.unknown + 1;
        }
    }
    census
}

/// The chains that are shown.
fn select_chains(ruleset: &NetfilterRuleset) -> (chains: Vec<(usize, usize)>)
    ensures
        places(chains@) == retained_chains(*ruleset),
        chains@.len() <= chain_limit(),
        forall|i: int|
            0 <= i < chains@.len() ==> is_known_chain(*ruleset, #[trigger] places(chains@)[i]),
{
    let limit: usize = MAX_READINGS_PER_PROVIDER / NETFILTER_METRICS_PER_CHAIN;
    let mut chains: Vec<(usize, usize)> = Vec::new();
    let ghost mut seen: Seq<(int, int)> = Seq::empty();
    assert(places(chains@) =~= Seq::<(int, int)>::empty());
    for t in 0..ruleset.tables.len()
        invariant
            limit == chain_limit(),
            seen == chains_upto(*ruleset, t as int),
            chains@.len() <= limit,
            places(chains@) == if seen.len() <= limit {
                seen
            } else {
                seen.take(limit as int)
            },
    {
        let table = &ruleset.tables[t];
        if netfilter_family_label(ruleset.backend, &table.family).is_some() {
            let ghost before = seen;
            for c in 0..table.chains.len()
                invariant
                    limit == chain_limit(),
                    seen == before + chains_of(t as int, c as int),
                    chains@.len() <= limit,
                    places(chains@) == if seen.len() <= limit {
                        seen
                    } else {
                        seen.take(limit as int)
                    },
            {
                let ghost last = seen;
                proof {
                    seen = before + chains_of(t as int, c as int + 1);
                    assert(seen =~= last.push((t as int, c as int)));
                }
                if chains.len() < limit {
                    let ghost kept = chains@;
                    chains.push((t, c));
                    assert(places(chains@) =~= places(kept).push((t as int, c as int)));
                    assert(last.take(limit as int).len() == limit || last.len() <= limit);
                    assert(places(kept).len() == kept.len());
                } else {
                    assert(places(chains@).len() == chains@.len());
                    assert(seen.take(limit as int) =~= places(chains@));
                }
            }
            assert(seen =~= chains_upto(*ruleset, t as int + 1));
        }
    }
    proof {
        lemma_chains_are_known(*ruleset, ruleset.tables@.len() as int);
        let all = chains_upto(*ruleset, ruleset.tables@.len() as int);
        assert(places(chains@).len() == chains@.len());
        assert forall|i: int| 0 <= i < chains@.len() implies is_known_chain(
            *ruleset,
            #[trigger] places(chains@)[i],
        ) by {
            assert(places(chains@)[i] == all[i]);
        }
    }
    chains
}

fn label_of_family(ruleset: &NetfilterRuleset, table: usize) -> (label: &'static str)
    requires
        table < ruleset.tables@.len(),
        family_at(*ruleset, table as int) is Some,
    ensures
        label@ == family_at(*ruleset, table as int)->0,
{
    match netfilter_family_label(ruleset.backend, &ruleset.tables[table].family) {
        Some(label) => label,
        None => "",
    }
}

fn show_chains(ruleset: &NetfilterRuleset, chains: &Vec<(usize, usize)>) -> (result: Result<
    Vec<SampleReading>,
    MonitorValidationError,
>)
    requires
        forall|i: int|
            0 <= i < chains@.len() ==> is_known_chain(*ruleset, #[trigger] places(chains@)[i]),
    ensures
        all_chain_readings(*ruleset, places(chains@), chains@.len() as int) == match result {
            Ok(readings) => Ok(readings.deep_view()),
            Err(error) => Err(error),
        },
        result matches Ok(readings) ==> readings@.len() == NETFILTER_METRICS_PER_CHAIN
            * chains@.len(),
{
    let ghost at = places(chains@);
    let mut shown: Vec<SampleReading> = Vec::new();
    assert(shown.deep_view() =~= Seq::<ReadingModel>::empty());
    for i in 0..chains.len()
        invariant
            at == places(chains@),
            forall|k: int| 0 <= k < chains@.len() ==> is_known_chain(*ruleset, #[trigger] at[k]),
            all_chain_readings(*ruleset, at, i as int) == Ok::<
                Seq<ReadingModel>,
                MonitorValidationError,
            >(shown.deep_view()),
            shown@.len() == NETFILTER_METRICS_PER_CHAIN * i,
    {
        let (t, c) = chains[i];
        assert(is_known_chain(*ruleset, at[i as int]));
        let table = &ruleset.tables[t];
        match netfilter_chain_readings(
            ruleset.backend,
            label_of_family(ruleset, t),
            table.name.as_str(),
            &table.chains[c],
        ) {
            Err(error) => {
                proof {
                    lemma_chain_failure_stays(*ruleset, at, i as int + 1, at.len() as int);
                }
                return Err(error);
            },
            Ok(readings) => {
                let mut readings = readings;
                let ghost before = shown.deep_view();
                let ghost added = readings.deep_view();
                assert(added.len() == readings@.len());
                shown.append(&mut readings);
                assert(shown.deep_view() =~= before + added);
            },
        }
    }
    Ok(shown)
}

fn history_full() -> (words: String)
    ensures
        words@ == history_words(),
{
    let mut words = owned("netfilter rule identity history exceeds the ");
    push_decimal(&mut words, MAX_NETFILTER_RULE_ROW_IDS as u128);
    words.append("-row session limit");
    words
}

/// How many of the first `position` rules are like the rule there.
fn count_like(rules: &Vec<NetfilterRule>, position: usize) -> (count: usize)
    requires
        position < rules@.len(),
    ensures
        count == seqs::count_where(rules@, is_like(rules@[position as int]), position as int),
{
    let rule = &rules[position];
    let ghost like = is_like(*rule);
    let mut count: usize = 0;
    for i in 0..position
        invariant
            position < rules@.len(),
            *rule == rules@[position as int],
            like == is_like(*rule),
            count <= i,
            count == seqs::count_where(rules@, like, i as int),
    {
        if rules[i].fingerprint == rule.fingerprint && same_handle(rules[i].handle, rule.handle) {
            count += 1;
        }
    }
    count
}

fn show_rule(
    ruleset: &NetfilterRuleset,
    t: usize,
    c: usize,
    position: usize,
    row: u64,
) -> (result: Result<Vec<SampleReading>, MonitorValidationError>)
    requires
        is_known_chain(*ruleset, (t as int, c as int)),
        position < chain_at(*ruleset, (t as int, c as int)).rules@.len(),
    ensures
        turn_readings(*ruleset, (t as int, c as int), position as int, row as nat)
            == match result {
            Ok(readings) => Ok(readings.deep_view()),
            Err(error) => Err(error),
        },
        result matches Ok(readings) ==> readings@.len() == NETFILTER_METRICS_PER_RULE,
{
    let table = &ruleset.tables[t];
    let chain = &table.chains[c];
    let count: usize = chain.rules.len();
    assert(position < count);
    let rule = &chain.rules[position];
    match netfilter_rule_labels(
        netfilter_backend_label(ruleset.backend),
        label_of_family(ruleset, t),
        table.name.as_str(),
        chain.name.as_str(),
        row,
        rule.handle,
        netfilter_rule_verdict(rule),
    ) {
        Err(error) => Err(error),
        Ok(labels) => {
            let counters = netfilter_rule_counters(table, rule);
            let result = netfilter_rule_readings(labels, position, rule, counters);
            proof {
                if result is Ok {
                    assert(result->Ok_0.deep_view().len() == result->Ok_0@.len());
                }
            }
            result
        },
    }
}

fn identify_rule(ruleset: &NetfilterRuleset, t: usize, c: usize, position: usize) -> (identity:
    NetfilterRuleIdentity<String>)
    requires
        is_known_chain(*ruleset, (t as int, c as int)),
        position < chain_at(*ruleset, (t as int, c as int)).rules@.len(),
    ensures
        identity.deep_view() == rule_identity(*ruleset, (t as int, c as int), position as int),
{
    let table = &ruleset.tables[t];
    let chain = &table.chains[c];
    let rule = &chain.rules[position];
    NetfilterRuleIdentity {
        backend: owned(netfilter_backend_label(ruleset.backend)),
        family: owned(label_of_family(ruleset, t)),
        table: owned(table.name.as_str()),
        chain: owned(chain.name.as_str()),
        handle: rule.handle,
        fingerprint: rule.fingerprint,
        duplicate_ordinal: count_like(&chain.rules, position),
    }
}

/// Numbers and shows the rule of a turn.
fn take_turn(
    ruleset: &NetfilterRuleset,
    rule_rows: &mut RowIds<NetfilterRuleIdentity<String>>,
    t: usize,
    c: usize,
    position: usize,
) -> (result: Result<Vec<SampleReading>, AttemptError>)
    requires
        is_known_chain(*ruleset, (t as int, c as int)),
        position < chain_at(*ruleset, (t as int, c as int)).rules@.len(),
        old(rule_rows).known@.len() <= MAX_NETFILTER_RULE_ROW_IDS,
    ensures
        final(rule_rows).known@.len() <= MAX_NETFILTER_RULE_ROW_IDS,
        ({
            let (after, row) = rows::numbered(
                old(rule_rows).known.deep_view(),
                rule_identity(*ruleset, (t as int, c as int), position as int),
                MAX_NETFILTER_RULE_ROW_IDS as nat,
            );
            &&& final(rule_rows).known.deep_view() == after
            &&& match row {
                None => result matches Err(error) && error.code == MonitorErrorCode::CardinalityLimit
                    && error.message@ == history_words(),
                Some(row) => match turn_readings(
                    *ruleset,
                    (t as int, c as int),
                    position as int,
                    row,
                ) {
                    Err(error) => result matches Err(failure) && (failure.code, failure.message@)
                        == failure_of(error),
                    Ok(readings) => result matches Ok(shown) && shown.deep_view() == readings
                        && shown@.len() == NETFILTER_METRICS_PER_RULE,
                },
            }
        }),
{
    let identity = identify_rule(ruleset, t, c, position);
    match rule_rows.number(identity, MAX_NETFILTER_RULE_ROW_IDS) {
        None => Err(
            AttemptError { code: MonitorErrorCode::CardinalityLimit, message: history_full() },
        ),
        Some(row) => match show_rule(ruleset, t, c, position, row) {
            Err(error) => Err(AttemptError::internal(owned(explain(error)))),
            Ok(readings) => Ok(readings),
        },
    }
}

proof fn lemma_round_is_next(counts: Seq<int>, rounds: int, round: int, i: int)
    requires
        0 <= round < rounds,
        0 <= i < counts.len(),
        counts[i] > round,
    ensures
        (turns_upto(counts, round) + round_turns(counts, round, i)).len() < turns_upto(
            counts,
            rounds,
        ).len(),
        turns_upto(counts, rounds)[(turns_upto(counts, round) + round_turns(
            counts,
            round,
            i,
        )).len() as int] == (i, round),
    decreases rounds,
{
    let n = counts.len() as int;
    if round == rounds - 1 {
        lemma_round_prefix(counts, round, i + 1, n);
    } else {
        lemma_round_is_next(counts, rounds - 1, round, i);
    }
}

proof fn lemma_round_prefix(counts: Seq<int>, round: int, m: int, n: int)
    requires
        0 <= m <= n <= counts.len(),
    ensures
        round_turns(counts, round, m).len() <= round_turns(counts, round, n).len(),
        forall|k: int|
            0 <= k < round_turns(counts, round, m).len() ==> #[trigger] round_turns(
                counts,
                round,
                n,
            )[k] == round_turns(counts, round, m)[k],
    decreases n - m,
{
    if m < n {
        lemma_round_prefix(counts, round, m, n - 1);
    }
}

fn longest_chain(ruleset: &NetfilterRuleset, chains: &Vec<(usize, usize)>) -> (rounds: usize)
    requires
        forall|i: int|
            0 <= i < chains@.len() ==> is_known_chain(*ruleset, #[trigger] places(chains@)[i]),
    ensures
        rounds == longest(rule_counts(*ruleset, places(chains@)), chains@.len() as int),
{
    let ghost at = places(chains@);
    let ghost counts = rule_counts(*ruleset, at);
    let mut rounds: usize = 0;
    for i in 0..chains.len()
        invariant
            at == places(chains@),
            counts == rule_counts(*ruleset, at),
            forall|k: int| 0 <= k < chains@.len() ==> is_known_chain(*ruleset, #[trigger] at[k]),
            rounds == longest(counts, i as int),
    {
        let (t, c) = chains[i];
        assert(is_known_chain(*ruleset, at[i as int]));
        let count: usize = ruleset.tables[t].chains[c].rules.len();
        assert(counts[i as int] == count);
        if count > rounds {
            rounds = count;
        }
    }
    rounds
}

/// The readings of as many rules as fit beside the chains, with how many these are.
#[verifier::rlimit(40)]
fn show_rules(
    ruleset: &NetfilterRuleset,
    chains: &Vec<(usize, usize)>,
    rule_rows: &mut RowIds<NetfilterRuleIdentity<String>>,
) -> (result: Result<(Vec<SampleReading>, usize), AttemptError>)
    requires
        places(chains@) == retained_chains(*ruleset),
        chains@.len() <= chain_limit(),
        forall|i: int|
            0 <= i < chains@.len() ==> is_known_chain(*ruleset, #[trigger] places(chains@)[i]),
        old(rule_rows).known@.len() <= MAX_NETFILTER_RULE_ROW_IDS,
    ensures
        final(rule_rows).known@.len() <= MAX_NETFILTER_RULE_ROW_IDS,
        taken_turns(
            *ruleset,
            places(chains@),
            old(rule_rows).known.deep_view(),
            all_turns(rule_counts(*ruleset, places(chains@))),
            shown_rules(*ruleset),
        ) == (
            final(rule_rows).known.deep_view(),
            match result {
                Ok((readings, _)) => Ok(readings.deep_view()),
                Err(error) => Err((error.code, error.message@)),
            },
        ),
        result matches Ok((_, rules)) ==> rules == shown_rules(*ruleset),
{
    let ghost at = places(chains@);
    let ghost counts = rule_counts(*ruleset, at);
    let ghost turns = all_turns(counts);
    let ghost known = rule_rows.known.deep_view();
    let ghost target = shown_rules(*ruleset);
    let budget: usize = (MAX_READINGS_PER_PROVIDER - NETFILTER_METRICS_PER_CHAIN * chains.len())
        / NETFILTER_METRICS_PER_RULE;
    assert(at.len() == chains@.len());
    let rounds: usize = longest_chain(ruleset, chains);
    let mut shown: Vec<SampleReading> = Vec::new();
    assert(shown.deep_view() =~= Seq::<ReadingModel>::empty());
    let mut rules: usize = 0;
    proof {
        lemma_longest(counts, counts.len() as int);
    }
    for round in 0..rounds
        invariant
            at == places(chains@),
            at == retained_chains(*ruleset),
            at.len() == chains@.len(),
            counts == rule_counts(*ruleset, at),
            turns == all_turns(counts),
            rounds == longest(counts, counts.len() as int),
            target == shown_rules(*ruleset),
            budget == turn_limit(at.len()),
            forall|k: int| 0 <= k < chains@.len() ==> is_known_chain(*ruleset, #[trigger] at[k]),
            known == old(rule_rows).known.deep_view(),
            rule_rows.known@.len() <= MAX_NETFILTER_RULE_ROW_IDS,
            rules <= budget <= MAX_READINGS_PER_PROVIDER,
            rules == turns_upto(counts, round as int).len(),
            taken_turns(*ruleset, at, known, turns, rules as int) == (
                rule_rows.known.deep_view(),
                Ok::<Seq<ReadingModel>, Failure>(shown.deep_view()),
            ),
    {
        for i in 0..chains.len()
            invariant
                0 <= round < rounds,
                at == places(chains@),
                at == retained_chains(*ruleset),
                at.len() == chains@.len(),
                counts == rule_counts(*ruleset, at),
                turns == all_turns(counts),
                rounds == longest(counts, counts.len() as int),
                target == shown_rules(*ruleset),
                budget == turn_limit(at.len()),
                forall|k: int|
                    0 <= k < chains@.len() ==> is_known_chain(*ruleset, #[trigger] at[k]),
                known == old(rule_rows).known.deep_view(),
                rule_rows.known@.len() <= MAX_NETFILTER_RULE_ROW_IDS,
                rules <= budget <= MAX_READINGS_PER_PROVIDER,
                rules == (turns_upto(counts, round as int) + round_turns(
                    counts,
                    round as int,
                    i as int,
                )).len(),
                taken_turns(*ruleset, at, known, turns, rules as int) == (
                    rule_rows.known.deep_view(),
                    Ok::<Seq<ReadingModel>, Failure>(shown.deep_view()),
                ),
        {
            let (t, c) = chains[i];
            assert(is_known_chain(*ruleset, at[i as int]));
            assert(at[i as int] == (t as int, c as int));
            let count: usize = ruleset.tables[t].chains[c].rules.len();
            assert(counts[i as int] == count);
            if count > round {
                proof {
                    lemma_round_is_next(counts, rounds as int, round as int, i as int);
                }
                if rules >= budget {
                    assert(target == rules);
                    return Ok((shown, rules));
                }
                assert(rules < target);
                assert(turns[rules as int] == (i as int, round as int));
                match take_turn(ruleset, rule_rows, t, c, round) {
                    Err(error) => {
                        proof {
                            lemma_failure_stays(
                                *ruleset,
                                at,
                                known,
                                turns,
                                rules as int + 1,
                                target,
                            );
                        }
                        return Err(error);
                    },
                    Ok(readings) => {
                        let mut readings = readings;
                        let ghost before = shown.deep_view();
                        let ghost added = readings.deep_view();
                        shown.append(&mut readings);
                        assert(shown.deep_view() =~= before + added);
                        rules += 1;
                    },
                }
            }
        }
    }
    Ok((shown, rules))
}

/// The readings of a ruleset, and what it lacks.
#[derive(Clone, Debug, PartialEq, Eq)]
pub struct NetfilterTranslation {
    pub readings: Vec<SampleReading>,
    pub warning: Option<MonitorError<String>>,
}

fn describe_retained(chains: usize, rules: usize, census: &Census) -> (words: String)
    ensures
        words@ == "retained "@ + text::decimal(chains as nat) + "/"@ + text::decimal(
            census.chains as nat,
        ) + " chains and "@ + text::decimal(rules as nat) + "/"@ + text::decimal(
            census.rules as nat,
        ) + " rules"@,
{
    let mut words = owned("retained ");
    push_decimal(&mut words, chains as u128);
    words.append("/");
    push_decimal(&mut words, census.chains as u128);
    words.append(" chains and ");
    push_decimal(&mut words, rules as u128);
    words.append("/");
    push_decimal(&mut words, census.rules as u128);
    words.append(" rules");
    words
}

/// Translates a ruleset. Chains come first; the rules share what is left in turns.
pub fn translate_netfilter_ruleset(
    ruleset: &NetfilterRuleset,
    rule_rows: &mut RowIds<NetfilterRuleIdentity<String>>,
) -> (result: Result<NetfilterTranslation, AttemptError>)
    requires
        is_countable(*ruleset),
        old(rule_rows).known@.len() <= MAX_NETFILTER_RULE_ROW_IDS,
    ensures
        final(rule_rows).known@.len() <= MAX_NETFILTER_RULE_ROW_IDS,
        ruleset_readings(*ruleset, old(rule_rows).known.deep_view()) == (
            final(rule_rows).known.deep_view(),
            match result {
                Ok(translation) => Ok(translation.readings.deep_view()),
                Err(error) => Err((error.code, error.message@)),
            },
        ),
        result matches Ok(translation) ==> ruleset_warning(*ruleset) == match translation.warning {
            Some(warning) => Some(warning.deep_view()),
            None => None,
        },
{
    let census = count_ruleset(ruleset);
    let chains = select_chains(ruleset);
    assert(places(chains@).len() == chains@.len());
    let mut readings = match show_chains(ruleset, &chains) {
        Err(error) => {
            return Err(AttemptError::internal(owned(explain(error))));
        },
        Ok(readings) => readings,
    };
    let ghost shown = readings.deep_view();
    let (rule_readings, rules) = match show_rules(ruleset, &chains, rule_rows) {
        Err(error) => {
            return Err(error);
        },
        Ok(shown) => shown,
    };
    let mut rule_readings = rule_readings;
    let ghost added = rule_readings.deep_view();
    readings.append(&mut rule_readings);
    assert(readings.deep_view() =~= shown + added);
    let flowtables: usize = match ruleset.flowtables {
        Some(flowtables) => flowtables,
        None => 0,
    };
    let warning = if chains.len() < census.chains || rules < census.rules {
        let words = describe_retained(chains.len(), rules, &census);
        Some(monitor_error(MonitorErrorCode::CardinalityLimit, words.as_str()))
    } else if census.unknown != 0 {
        let mut words = owned("ignored ");
        push_decimal(&mut words, census.unknown as u128);
        words.append(" tables with unknown nft family");
        Some(monitor_error(MonitorErrorCode::SchemaMismatch, words.as_str()))
    } else if flowtables != 0 {
        let mut words = decimal_text(flowtables as u128);
        words.append(" nft flowtables are active; classic rule visibility may be partial");
        Some(monitor_error(MonitorErrorCode::Unsupported, words.as_str()))
    } else {
        None
    };
    Ok(NetfilterTranslation { readings, warning })
}

/// The sample of one provider's ruleset, or of why there is none.
pub open spec fn ruleset_sample(
    catalog: CatalogModel,
    provider: Seq<char>,
    timing: CollectionTiming,
    result: Result<NetfilterRuleset, AttemptError>,
    known: Seq<NetfilterRuleIdentity<Seq<char>>>,
) -> SampleModel {
    match result {
        Err(error) => diagnostics::failed_sample(
            provider,
            timing.finished_at,
            timing.collection_duration,
            error.code,
            error.message@,
        ),
        Ok(ruleset) => match ruleset_readings(ruleset, known).1 {
            Err(failure) => diagnostics::failed_sample(
                provider,
                timing.finished_at,
                timing.collection_duration,
                failure.0,
                failure.1,
            ),
            Ok(readings) => diagnostics::sample_or_failure(
                catalog,
                provider,
                timing.finished_at,
                timing.collection_duration,
                match ruleset_warning(ruleset) {
                    Some(warning) => ProviderHealth::Partial { warning },
                    None => ProviderHealth::Fresh,
                },
                readings,
            ),
        },
    }
}

pub fn collect_netfilter_sample(
    catalog: &MetricCatalog,
    provider: &str,
    timing: CollectionTiming,
    result: Result<NetfilterRuleset, AttemptError>,
    rule_rows: &mut RowIds<NetfilterRuleIdentity<String>>,
) -> (sample: ProviderSample)
    requires
        result matches Ok(ruleset) ==> is_countable(ruleset),
        old(rule_rows).known@.len() <= MAX_NETFILTER_RULE_ROW_IDS,
    ensures
        final(rule_rows).known@.len() <= MAX_NETFILTER_RULE_ROW_IDS,
        sample.deep_view() == ruleset_sample(
            catalog.deep_view(),
            provider@,
            timing,
            result,
            old(rule_rows).known.deep_view(),
        ),
        final(rule_rows).known.deep_view() == match result {
            Ok(ruleset) => ruleset_readings(ruleset, old(rule_rows).known.deep_view()).0,
            Err(_) => old(rule_rows).known.deep_view(),
        },
{
    let ruleset = match result {
        Err(error) => {
            return error_sample(
                provider,
                timing.finished_at,
                timing.collection_duration,
                error.code,
                error.message.as_str(),
            );
        },
        Ok(ruleset) => ruleset,
    };
    match translate_netfilter_ruleset(&ruleset, rule_rows) {
        Err(error) => error_sample(
            provider,
            timing.finished_at,
            timing.collection_duration,
            error.code,
            error.message.as_str(),
        ),
        Ok(translation) => {
            let health = match translation.warning {
                Some(warning) => ProviderHealth::Partial { warning },
                None => ProviderHealth::Fresh,
            };
            provider_sample(
                catalog,
                provider,
                timing.finished_at,
                timing.collection_duration,
                health,
                translation.readings,
            )
        },
    }
}

} // verus!
