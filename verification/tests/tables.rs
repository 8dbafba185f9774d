use std::collections::{BTreeMap, BTreeSet};

use netlens::catalog::{MetricCatalog, MetricDescriptor, MetricSource, ProviderSample};
use netlens::diagnostics::{provider_sample, AttemptError, TcErrorKind};
use netlens::engine::MonitorEngine;
use netlens::model::{
    CounterBits, MetricKind, MetricLabel, MetricReading, MonitorErrorCode, Nanos, ProviderHealth,
    ReadingOutcome, SampleReading, UnavailableReason,
};
use netlens::netfilter::{
    collect_netfilter_sample, translate_netfilter_ruleset, ChainPolicy, IptablesBackend,
    IptablesFamily, NamedCounter, NetfilterBackend, NetfilterChain, NetfilterHook, NetfilterRule,
    NetfilterRuleIdentity, NetfilterRuleset, NetfilterTable, NftFamily, RuleAction, RuleCounters,
    RuleFingerprint, RuleVerdict, NFT_RULESET,
};
use netlens::qdisc::{
    finish_tc_collection, needs_tc_fallback, qdisc_reading, translate_qdisc_rows, QdiscCounterBits,
    QdiscDirection, QdiscIdentity, QdiscRow, FALLBACK_IDLE, MAX_QDISC_ROW_IDS,
    QDISC_METRICS_PER_ROW, TC_JSON, TC_NETLINK,
};
use netlens::rows::RowIds;
use netlens::series::{CounterContinuity, ProjectedValue, SeriesValue};
use netlens::translate::CollectionTiming;

const SECOND: Nanos = 1_000_000_000;

const QDISC_LABELS: [MetricLabel; 8] = [
    MetricLabel::Interface,
    MetricLabel::Ifindex,
    MetricLabel::Direction,
    MetricLabel::ObjectKind,
    MetricLabel::QdiscKind,
    MetricLabel::QdiscAttachment,
    MetricLabel::Execution,
    MetricLabel::RowId,
];

const QDISC_COUNTERS: [&str; 8] = [
    "packets",
    "bytes",
    "drops",
    "overlimits",
    "requeues",
    "drop_overlimit",
    "new_flow_count",
    "ecn_marks",
];

const QDISC_GAUGES: [&str; 5] =
    ["backlog_bytes", "backlog_packets", "max_packet_bytes", "new_flows_len", "old_flows_len"];

const RULE_METRICS: [(&str, MetricKind); 7] = [
    ("linux.netfilter.chain.rules", MetricKind::Gauge),
    ("linux.netfilter.chain.policy", MetricKind::State),
    ("linux.netfilter.chain.type", MetricKind::State),
    ("linux.netfilter.rule.position", MetricKind::Gauge),
    ("linux.netfilter.rule.expression", MetricKind::State),
    ("linux.netfilter.rule.packets", MetricKind::Counter),
    ("linux.netfilter.rule.bytes", MetricKind::Counter),
];

fn described(
    id: &str,
    kind: MetricKind,
    labels: &[MetricLabel],
    sources: &[&str],
) -> MetricDescriptor {
    MetricDescriptor {
        id: id.to_owned(),
        kind,
        owner: "linux.tc".to_owned(),
        allowed_labels: labels.to_vec(),
        sources: sources
            .iter()
            .map(|provider| MetricSource {
                provider: (*provider).to_owned(),
                raw_metric: id.to_owned(),
            })
            .collect(),
    }
}

fn catalog() -> MetricCatalog {
    let tc = [TC_NETLINK, TC_JSON];
    let mut metrics = Vec::new();
    for name in QDISC_COUNTERS {
        let id = format!("linux.tc.{name}");
        metrics.push(described(&id, MetricKind::Counter, &QDISC_LABELS, &tc));
    }
    for name in QDISC_GAUGES {
        let id = format!("linux.tc.{name}");
        metrics.push(described(&id, MetricKind::Gauge, &QDISC_LABELS, &tc));
    }
    for (id, kind) in RULE_METRICS {
        metrics.push(described(id, kind, &[MetricLabel::RowId], &[NFT_RULESET]));
    }
    MetricCatalog { metrics }
}

fn qdisc(kind: &str, handle: &str, root: bool, parent: Option<&str>) -> QdiscRow {
    QdiscRow {
        interface: "eth0".to_owned(),
        identity: QdiscIdentity {
            ifindex: 2,
            kind: kind.to_owned(),
            root,
            handle: handle.to_owned(),
            parent: parent.map(|parent| parent.to_owned()),
        },
        direction: Some(QdiscDirection::Egress),
        packets: None,
        bytes: None,
        drops: None,
        overlimits: None,
        requeues: None,
        counter_bits: QdiscCounterBits {
            packets: None,
            bytes: None,
            drops: None,
            overlimits: None,
            requeues: None,
        },
        backlog_bytes: None,
        backlog_packets: None,
        max_packet_bytes: None,
        drop_overlimit: None,
        new_flow_count: None,
        ecn_marks: None,
        new_flows_len: None,
        old_flows_len: None,
    }
}

fn full_rows() -> Vec<QdiscRow> {
    vec![
        QdiscRow {
            packets: Some(10),
            bytes: Some(1000),
            drops: Some(2),
            overlimits: Some(3),
            requeues: Some(4),
            backlog_bytes: Some(50),
            backlog_packets: Some(5),
            max_packet_bytes: Some(1514),
            drop_overlimit: Some(6),
            new_flow_count: Some(7),
            ecn_marks: Some(8),
            new_flows_len: Some(9),
            old_flows_len: Some(10),
            ..qdisc("fq_codel", "1:", true, None)
        },
        QdiscRow {
            direction: Some(QdiscDirection::Ingress),
            packets: Some(7),
            ..qdisc("ingress", "ffff:", false, Some("ffff:fff1"))
        },
        QdiscRow { direction: None, packets: Some(99), ..qdisc("clsact", "ffff:", true, None) },
    ]
}

fn row_ids(readings: &[SampleReading]) -> BTreeSet<&str> {
    readings.iter().map(|reading| reading.labels.get(MetricLabel::RowId).unwrap()).collect()
}

fn tc_sample(source: &str, at: Nanos, readings: Vec<SampleReading>) -> ProviderSample {
    provider_sample(&catalog(), source, at, 0, ProviderHealth::Fresh, readings)
}

#[test]
fn qdisc_rows_use_stable_opaque_ids_and_explicit_missing_values() {
    let mut ids = RowIds::new();
    let first = translate_qdisc_rows(&full_rows(), &mut ids).unwrap();
    assert_eq!(first.len(), 20);
    assert!(tc_sample(TC_JSON, SECOND, first.clone()).health.is_fresh());
    assert!(first.iter().all(|reading| {
        reading.labels.get(MetricLabel::Interface) == Some("eth0")
            && reading.labels.get(MetricLabel::Ifindex) == Some("2")
            && reading.labels.get(MetricLabel::ObjectKind) == Some("qdisc")
            && reading.labels.get(MetricLabel::QdiscKind).is_some()
            && reading.labels.get(MetricLabel::Execution) == Some("software")
            && reading.labels.get(MetricLabel::Handle).is_none()
            && reading.labels.get(MetricLabel::QdiscAttachment).is_some()
    }));
    let ingress_drop = first
        .iter()
        .find(|reading| {
            reading.metric == "linux.tc.drops"
                && reading.labels.get(MetricLabel::Direction) == Some("ingress")
        })
        .unwrap();
    assert_eq!(
        ingress_drop.labels.get(MetricLabel::QdiscAttachment),
        Some(r#"[false,"ffff:","ffff:fff1"]"#)
    );
    assert!(matches!(
        ingress_drop.outcome,
        ReadingOutcome::Unavailable(UnavailableReason::Missing)
    ));
    for metric in [
        "linux.tc.max_packet_bytes",
        "linux.tc.drop_overlimit",
        "linux.tc.new_flow_count",
        "linux.tc.ecn_marks",
        "linux.tc.new_flows_len",
        "linux.tc.old_flows_len",
    ] {
        assert!(!first.iter().any(|reading| {
            reading.metric == metric
                && reading.labels.get(MetricLabel::Direction) == Some("ingress")
        }));
    }
    let egress_reading = |metric: &str| {
        first
            .iter()
            .find(|reading| {
                reading.metric == metric
                    && reading.labels.get(MetricLabel::Direction) == Some("egress")
            })
            .unwrap()
    };
    assert_eq!(
        egress_reading("linux.tc.drops").labels.get(MetricLabel::QdiscAttachment),
        Some(r#"[true,"1:",null]"#)
    );
    assert!(matches!(
        egress_reading("linux.tc.max_packet_bytes").outcome,
        ReadingOutcome::Observed(MetricReading::Gauge(1514))
    ));
    for (metric, value) in [
        ("linux.tc.drop_overlimit", 6),
        ("linux.tc.new_flow_count", 7),
        ("linux.tc.ecn_marks", 8),
    ] {
        assert!(matches!(
            egress_reading(metric).outcome,
            ReadingOutcome::Observed(MetricReading::Counter {
                value: observed,
                bits: Some(CounterBits::Bits32)
            }) if observed == value
        ));
    }
    for (metric, value) in [("linux.tc.new_flows_len", 9), ("linux.tc.old_flows_len", 10)] {
        assert!(matches!(
            egress_reading(metric).outcome,
            ReadingOutcome::Observed(MetricReading::Gauge(observed)) if observed == value
        ));
    }
    let second = translate_qdisc_rows(&full_rows(), &mut ids).unwrap();
    assert_eq!(row_ids(&first), row_ids(&second));
}

#[test]
fn qdisc_attachments_and_row_ids_survive_reordering_and_distinguish_shared_handles() {
    let mut row_ids = RowIds::new();
    let mut rows = vec![
        qdisc("mq", "0:", true, None),
        qdisc("fq_codel", "0:", false, Some(":1")),
        qdisc("fq_codel", "0:", false, Some(":2")),
    ];
    let ids = |readings: Vec<SampleReading>| {
        readings
            .into_iter()
            .map(|reading| {
                (
                    reading.labels.get(MetricLabel::QdiscAttachment).unwrap().to_owned(),
                    reading.labels.get(MetricLabel::RowId).unwrap().to_owned(),
                )
            })
            .collect::<BTreeMap<_, _>>()
    };
    let first = ids(translate_qdisc_rows(&rows, &mut row_ids).unwrap());
    rows.reverse();
    let second = ids(translate_qdisc_rows(&rows, &mut row_ids).unwrap());
    assert_eq!(first, second);
    assert_eq!(first.len(), 3);
    assert_eq!(first.values().collect::<BTreeSet<_>>().len(), 3);
}

#[test]
fn every_order_of_the_same_qdisc_rows_keeps_their_numbers() {
    let row = |at: usize| match at {
        0 => qdisc("mq", "0:", true, None),
        1 => qdisc("fq_codel", "0:", false, Some(":1")),
        _ => qdisc("fq_codel", "0:", false, Some(":2")),
    };
    let ids = |readings: Vec<SampleReading>| {
        readings
            .into_iter()
            .map(|reading| {
                (
                    reading.labels.get(MetricLabel::QdiscAttachment).unwrap().to_owned(),
                    reading.labels.get(MetricLabel::RowId).unwrap().to_owned(),
                )
            })
            .collect::<BTreeMap<_, _>>()
    };
    let mut row_ids = RowIds::new();
    let first = ids(translate_qdisc_rows(&(0..3).map(row).collect(), &mut row_ids).unwrap());
    for order in [[0, 2, 1], [1, 0, 2], [1, 2, 0], [2, 0, 1], [2, 1, 0]] {
        let rows = order.into_iter().map(row).collect();
        assert_eq!(ids(translate_qdisc_rows(&rows, &mut row_ids).unwrap()), first);
    }
}

#[test]
fn attachments_quote_what_the_kernel_reports() {
    let rows = vec![qdisc("fq", "1:\"\\", false, Some(""))];
    let readings = translate_qdisc_rows(&rows, &mut RowIds::new()).unwrap();
    assert_eq!(
        readings[0].labels.get(MetricLabel::QdiscAttachment),
        Some(r#"[false,"1:\"\\",""]"#)
    );
}

#[test]
fn attachments_escape_control_characters_and_tell_rows_apart() {
    let attachment = |handle: &str, root: bool, parent: Option<&str>| {
        let rows = vec![qdisc("fq", handle, root, parent)];
        let readings = translate_qdisc_rows(&rows, &mut RowIds::new()).unwrap();
        readings[0].labels.get(MetricLabel::QdiscAttachment).unwrap().to_owned()
    };
    assert_eq!(
        attachment("\u{8}\t\n\u{c}\r\u{1f}", true, None),
        "[true,\"\\b\\t\\n\\f\\r\\u001f\",null]"
    );
    assert_eq!(attachment("1:", false, Some("null")), r#"[false,"1:","null"]"#);
    assert_eq!(attachment("1:\",\"2:", false, None), r#"[false,"1:\",\"2:",null]"#);
    assert_ne!(
        attachment("1:\",\"2:", false, None),
        attachment("1:", false, Some("2:"))
    );
}

#[test]
fn qdisc_rows_beyond_the_row_limit_are_an_error() {
    let rows: Vec<_> = (0..=MAX_QDISC_ROW_IDS)
        .map(|index| qdisc("fq", &format!("{index:x}:"), true, None))
        .collect();
    let mut ids = RowIds::new();
    let error = translate_qdisc_rows(&rows, &mut ids).unwrap_err();
    assert_eq!(error.code, MonitorErrorCode::CardinalityLimit);
    assert_eq!(ids.known.len(), MAX_QDISC_ROW_IDS);
    assert!(translate_qdisc_rows(&rows[1..2].to_vec(), &mut ids).is_ok());
    let labels = netlens::model::MetricLabels::none();
    let state = qdisc_reading("linux.tc.drops", &labels, Some(1), MetricKind::State, None);
    assert_eq!(state.unwrap_err().code, MonitorErrorCode::Internal);
}

fn failed_tc(words: &str) -> AttemptError {
    AttemptError::tc(TcErrorKind::SchemaMismatch, words.to_owned())
}

#[test]
fn native_tc_uses_json_only_on_failure_and_preserves_missing_values() {
    let rows = vec![qdisc("fq_codel", "1:", true, None)];
    let mut ids = RowIds::new();
    let at = CollectionTiming { finished_at: SECOND, collection_duration: 0 };
    assert!(!needs_tc_fallback(&Ok(rows.clone())));
    let native = finish_tc_collection(&catalog(), at, Ok(rows.clone()), None, &mut ids);
    assert_eq!(native[0].provider(), TC_NETLINK);
    assert!(native[0].health.is_fresh());
    assert!(native[0].readings.iter().all(|reading| matches!(
        reading.outcome,
        ReadingOutcome::Unavailable(UnavailableReason::Missing)
    )));
    assert!(matches!(
        &native[1].health,
        ProviderHealth::Unsupported { reason } if reason.diagnostic() == FALLBACK_IDLE
    ));
    assert!(needs_tc_fallback(&Err(failed_tc("not json"))));
    let fallback = finish_tc_collection(
        &catalog(),
        at,
        Err(failed_tc("not json")),
        Some((at, Ok(rows.clone()))),
        &mut ids,
    );
    assert!(!fallback[0].health.is_fresh());
    assert_eq!(fallback[1].provider(), TC_JSON);
    assert!(fallback[1].health.is_fresh());
    assert_eq!(native[0].readings, fallback[1].readings);
    let failed = finish_tc_collection(
        &catalog(),
        at,
        Err(failed_tc("bad")),
        Some((at, Err(failed_tc("bad")))),
        &mut ids,
    );
    assert!(failed
        .iter()
        .all(|sample| !sample.health.is_fresh() && sample.readings.is_empty()));
}

fn interval_of(value: &SeriesValue<String>) -> Option<CounterContinuity> {
    match value {
        SeriesValue::Counter { current, interval, .. } => {
            assert!(matches!(current, ProjectedValue::Fresh { .. }));
            *interval
        }
        _ => panic!("counter expected"),
    }
}

fn rate(interval: Option<CounterContinuity>) -> Option<u128> {
    match interval {
        Some(CounterContinuity::Continuous { delta, elapsed })
        | Some(CounterContinuity::Wrapped { delta, elapsed, .. }) => {
            Some(u128::from(delta) * 1_000_000_000 / elapsed as u128)
        }
        _ => None,
    }
}

#[test]
fn tc_backend_switch_keeps_identity_but_rewarms_rates() {
    let mut ids = RowIds::new();
    let mut engine = MonitorEngine::new(catalog(), 1);
    let mut id = None;
    for (second, source) in
        [(1, TC_NETLINK), (2, TC_NETLINK), (3, TC_JSON), (4, TC_JSON), (5, TC_NETLINK)]
    {
        let rows =
            vec![QdiscRow { drops: Some(second * 10), ..qdisc("fq_codel", "1:", true, None) }];
        let readings = translate_qdisc_rows(&rows, &mut ids).unwrap();
        let at = Nanos::from(second) * SECOND;
        let (snapshot, _) =
            engine.ingest(at, vec![tc_sample(source, at, readings)], None).unwrap();
        let drop =
            snapshot.series.iter().find(|series| series.metric == "linux.tc.drops").unwrap();
        assert_eq!(*id.get_or_insert(drop.id), drop.id);
        let expected = if matches!(second, 2 | 4) { Some(10) } else { None };
        assert_eq!(rate(interval_of(&drop.value)), expected);
    }
}

#[test]
fn tc_native_queue_and_basic_packet_widths_produce_wrap_rates() {
    let mut ids = RowIds::new();
    let mut engine = MonitorEngine::new(catalog(), 1);
    for (second, value) in [(1, u64::from(u32::MAX) - 2), (2, 4)] {
        let rows = vec![QdiscRow {
            drops: Some(value),
            packets: Some(value),
            requeues: Some(value),
            overlimits: Some(value),
            counter_bits: QdiscCounterBits {
                packets: Some(32),
                bytes: None,
                drops: Some(32),
                overlimits: Some(32),
                requeues: Some(32),
            },
            ..qdisc("fq_codel", "1:", true, None)
        }];
        let readings = translate_qdisc_rows(&rows, &mut ids).unwrap();
        let at = Nanos::from(second as u64) * SECOND;
        let (snapshot, _) =
            engine.ingest(at, vec![tc_sample(TC_NETLINK, at, readings)], None).unwrap();
        if second == 2 {
            for metric in
                ["linux.tc.packets", "linux.tc.drops", "linux.tc.requeues", "linux.tc.overlimits"]
            {
                let series =
                    snapshot.series.iter().find(|series| series.metric == metric).unwrap();
                let interval = interval_of(&series.value);
                assert!(matches!(
                    interval,
                    Some(CounterContinuity::Wrapped { bits: CounterBits::Bits32, .. })
                ));
                assert_eq!(rate(interval), Some(7));
            }
        }
    }
}

#[test]
fn fq_codel_missing_extended_statistics_are_explicitly_unavailable() {
    let rows = vec![qdisc("fq_codel", "1:", true, None)];
    let readings = translate_qdisc_rows(&rows, &mut RowIds::new()).unwrap();
    assert_eq!(readings.len(), QDISC_METRICS_PER_ROW);
    for metric in [
        "linux.tc.max_packet_bytes",
        "linux.tc.drop_overlimit",
        "linux.tc.new_flow_count",
        "linux.tc.ecn_marks",
        "linux.tc.new_flows_len",
        "linux.tc.old_flows_len",
    ] {
        let reading = readings.iter().find(|reading| reading.metric == metric).unwrap();
        assert!(matches!(
            reading.outcome,
            ReadingOutcome::Unavailable(UnavailableReason::Missing)
        ));
    }
}

#[test]
fn extended_statistics_are_retained_when_another_qdisc_exports_them() {
    let rows = vec![QdiscRow { max_packet_bytes: Some(900), ..qdisc("fq", "1:", true, None) }];
    let readings = translate_qdisc_rows(&rows, &mut RowIds::new()).unwrap();
    assert_eq!(readings.len(), QDISC_METRICS_PER_ROW);
    let maximum = readings
        .iter()
        .find(|reading| reading.metric == "linux.tc.max_packet_bytes")
        .unwrap();
    assert!(matches!(
        maximum.outcome,
        ReadingOutcome::Observed(MetricReading::Gauge(900))
    ));
}

fn fingerprint(identity: &str) -> RuleFingerprint {
    let digest = identity
        .bytes()
        .fold(7_u128, |digest, byte| digest.wrapping_mul(257).wrapping_add(u128::from(byte)));
    RuleFingerprint { digest }
}

fn nft_ruleset(rules: Vec<NetfilterRule>) -> NetfilterRuleset {
    NetfilterRuleset {
        backend: NetfilterBackend::Nftables,
        tables: vec![NetfilterTable {
            family: Some(NftFamily::Inet),
            name: "fw4".to_owned(),
            chains: vec![NetfilterChain {
                name: "input".to_owned(),
                chain_type: Some("filter".to_owned()),
                hook: Some(NetfilterHook::Input),
                priority: Some(0),
                policy: Some(ChainPolicy::Drop),
                rules,
            }],
            named_counters: Vec::new(),
        }],
        flowtables: None,
    }
}

fn nft_rule(summary: &str, verdict: RuleVerdict, counters: Option<(u64, u64)>) -> NetfilterRule {
    NetfilterRule {
        handle: None,
        fingerprint: fingerprint(summary),
        counters: counters.map(|(packets, bytes)| RuleCounters { packets, bytes }),
        counter_reference: None,
        actions: vec![RuleAction::Verdict(verdict)],
        summary: summary.to_owned(),
    }
}

fn rule_row_id(readings: &[SampleReading], expression: &str) -> String {
    readings
        .iter()
        .find(|reading| {
            reading.metric == "linux.netfilter.rule.expression"
                && matches!(
                    &reading.outcome,
                    ReadingOutcome::Observed(MetricReading::State(value)) if value == expression
                )
        })
        .and_then(|reading| reading.labels.get(MetricLabel::RowId))
        .unwrap()
        .to_owned()
}

fn rule_rows() -> RowIds<NetfilterRuleIdentity<String>> {
    RowIds::new()
}

#[test]
fn netfilter_translation_keeps_counterless_rules_visible_without_zeroes() {
    let ruleset = nft_ruleset(vec![
        nft_rule("tcp dport 443 accept", RuleVerdict::Accept, Some((12, 960))),
        nft_rule("tcp dport 23 reject", RuleVerdict::Reject, None),
    ]);
    let translated = translate_netfilter_ruleset(&ruleset, &mut rule_rows()).unwrap();
    assert!(translated.warning.is_none());
    assert_eq!(translated.readings.len(), 11);
    let counterless = translated
        .readings
        .iter()
        .find(|reading| {
            reading.metric == "linux.netfilter.rule.packets"
                && reading.labels.get(MetricLabel::Verdict) == Some("reject")
        })
        .unwrap();
    assert!(matches!(
        counterless.outcome,
        ReadingOutcome::Unavailable(UnavailableReason::Missing)
    ));
    assert_eq!(counterless.labels.get(MetricLabel::Backend), Some("nftables"));
    assert_eq!(counterless.labels.get(MetricLabel::Family), Some("inet"));
}

#[test]
fn netfilter_rule_identity_survives_an_insertion_before_it() {
    let mut rows = rule_rows();
    let first =
        nft_ruleset(vec![nft_rule("existing accept", RuleVerdict::Accept, Some((10, 100)))]);
    let first = translate_netfilter_ruleset(&first, &mut rows).unwrap();
    let existing_row_id = rule_row_id(&first.readings, "existing accept");
    let second = nft_ruleset(vec![
        nft_rule("new drop", RuleVerdict::Drop, Some((1, 10))),
        nft_rule("existing accept", RuleVerdict::Accept, Some((12, 120))),
    ]);
    let second = translate_netfilter_ruleset(&second, &mut rows).unwrap();
    assert_eq!(rule_row_id(&second.readings, "existing accept"), existing_row_id);
    let position = second
        .readings
        .iter()
        .find(|reading| {
            reading.metric == "linux.netfilter.rule.position"
                && reading.labels.get(MetricLabel::RowId) == Some(existing_row_id.as_str())
        })
        .unwrap();
    assert!(matches!(
        position.outcome,
        ReadingOutcome::Observed(MetricReading::Gauge(2))
    ));
}

#[test]
fn netfilter_translation_reports_rule_cardinality_as_partial() {
    let rules = (0..1_100)
        .map(|index| {
            nft_rule(
                &format!("rule {index} accept"),
                RuleVerdict::Accept,
                Some((index, index * 10)),
            )
        })
        .collect();
    let translated = translate_netfilter_ruleset(&nft_ruleset(rules), &mut rule_rows()).unwrap();
    assert_eq!(translated.readings.len(), 4_095);
    assert!(translated.warning.is_some_and(|warning| {
        warning.code() == MonitorErrorCode::CardinalityLimit
            && warning.diagnostic().contains("1023/1100 rules")
    }));
}

#[test]
fn equal_rules_of_a_chain_keep_rows_of_their_own() {
    let rule = || nft_rule("ct state established accept", RuleVerdict::Accept, Some((1, 2)));
    let mut rows = rule_rows();
    let ruleset = nft_ruleset(vec![rule(), rule()]);
    let first = translate_netfilter_ruleset(&ruleset, &mut rows).unwrap();
    assert_eq!(rows.known.len(), 2);
    assert_eq!(rows.known[0].duplicate_ordinal, 0);
    assert_eq!(rows.known[1].duplicate_ordinal, 1);
    let second = translate_netfilter_ruleset(&ruleset, &mut rows).unwrap();
    assert_eq!(first.readings, second.readings);
    assert_eq!(rows.known.len(), 2);
}

#[test]
fn named_counters_fill_rules_that_refer_to_them() {
    let mut rule = nft_rule("counter name hits", RuleVerdict::Accept, None);
    rule.counter_reference = Some("hits".to_owned());
    let mut ruleset = nft_ruleset(vec![rule]);
    ruleset.tables[0].named_counters = vec![NamedCounter {
        name: "hits".to_owned(),
        counters: RuleCounters { packets: 5, bytes: 60 },
    }];
    let readings = translate_netfilter_ruleset(&ruleset, &mut rule_rows()).unwrap().readings;
    let value = |metric: &str| {
        readings.iter().find(|reading| reading.metric == metric).unwrap().outcome.clone()
    };
    assert_eq!(
        value("linux.netfilter.rule.packets"),
        ReadingOutcome::Observed(MetricReading::Counter {
            value: 5,
            bits: None
        })
    );
    assert_eq!(
        value("linux.netfilter.rule.bytes"),
        ReadingOutcome::Observed(MetricReading::Counter {
            value: 60,
            bits: None
        })
    );
}

#[test]
fn flowtables_and_failures_show_in_the_health_of_a_ruleset() {
    let at = CollectionTiming { finished_at: SECOND, collection_duration: 0 };
    let mut ruleset = nft_ruleset(Vec::new());
    ruleset.flowtables = Some(2);
    let sample =
        collect_netfilter_sample(&catalog(), NFT_RULESET, at, Ok(ruleset), &mut rule_rows());
    assert!(matches!(
        &sample.health,
        ProviderHealth::Partial { warning }
            if warning.code() == MonitorErrorCode::Unsupported
                && warning.diagnostic()
                    == "2 nft flowtables are active; classic rule visibility may be partial"
    ));
    let denied = AttemptError {
        code: MonitorErrorCode::PermissionDenied,
        message: "nft: denied".to_owned(),
    };
    let sample =
        collect_netfilter_sample(&catalog(), NFT_RULESET, at, Err(denied), &mut rule_rows());
    assert!(matches!(
        &sample.health,
        ProviderHealth::PermissionDenied { reason } if reason.diagnostic() == "nft: denied"
    ));
    assert!(sample.readings.is_empty());
}

#[test]
fn iptables_chains_carry_the_backend_and_the_family() {
    let mut ruleset = nft_ruleset(vec![nft_rule("-j ACCEPT", RuleVerdict::Accept, None)]);
    ruleset.backend = NetfilterBackend::Iptables {
        family: IptablesFamily::Ipv6,
        implementation: IptablesBackend::Legacy,
    };
    ruleset.tables[0].family = None;
    ruleset.tables[0].chains[0].name = "FORWARD".to_owned();
    ruleset.tables[0].chains[0].hook = None;
    let readings = translate_netfilter_ruleset(&ruleset, &mut rule_rows()).unwrap().readings;
    assert!(readings.iter().all(|reading| {
        reading.labels.get(MetricLabel::Chain) == Some("FORWARD")
            && reading.labels.get(MetricLabel::Family) == Some("ip6")
            && reading.labels.get(MetricLabel::Backend) == Some("iptables_legacy")
    }));
    let chain =
        readings.iter().find(|reading| reading.metric == "linux.netfilter.chain.rules").unwrap();
    assert_eq!(chain.labels.get(MetricLabel::Hook), Some("forward"));
}
