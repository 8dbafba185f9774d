//! Network interface cards: their state, settings and driver statistics as
//! readings of three providers.
use crate::catalog;
use crate::catalog::{CatalogModel, MetricCatalog, ProviderSample, SampleModel};
use crate::diagnostics;
use crate::diagnostics::{error_sample, explain, is_permission_message, monitor_error, provider_sample};
use crate::engine::{TextMap, RAW_PRIVATE_NIC_METRIC_ID};
use crate::interleave;
use crate::interleave::{interleave_readings, BoundedInterfaceReadings};
use crate::model;
use crate::model::{
    KeyModel, LabelsModel, MetricLabel, MetricLabels, MetricReading, MonitorErrorCode,
    MonitorValidationError, Nanos, ProviderHealth, ReadingModel, ReadingOutcome, SampleReading,
    UnavailableReason, MAX_READINGS_PER_PROVIDER,
};
use crate::order::CanonicalReadingOrder;
use crate::seqs;
use crate::text;
use crate::text::{decimal_text, owned, push_decimal, same_text};
use crate::translate;
use crate::translate::{interface_labels, CollectionTiming};
use vstd::prelude::*;
use vstd::string::*;

verus! {

pub const SYSFS_NIC: &'static str = "linux.sysfs.net.nic";

pub const ETHTOOL_TEXT: &'static str = "linux.ethtool.text";

pub const ETHTOOL_LINK_TEXT: &'static str = "linux.ethtool.link_text";

pub const NIC_KIND_METRIC_ID: &'static str = "linux.nic.interface_kind";

pub const NIC_LINK_STATE_METRIC_ID: &'static str = "linux.nic.link_state";

pub const NIC_MTU_METRIC_ID: &'static str = "linux.nic.mtu";

pub const RAW_NIC_SETTING_METRIC_ID: &'static str = "linux.nic.setting";

pub const NIC_ETHTOOL_STATISTICS_STATUS_METRIC_ID: &'static str =
    "linux.nic.ethtool_statistics_status";

pub const NIC_ETHTOOL_SETTINGS_STATUS_METRIC_ID: &'static str =
    "linux.nic.ethtool_settings_status";

/// How long collected settings stay current.
pub const NIC_SETTINGS_REFRESH_INTERVAL: Nanos = 30_000_000_000;

#[derive(Clone, Debug, PartialEq, Eq)]
pub enum OperState {
    Up,
    Down,
    Unknown,
    Dormant,
    LowerLayerDown,
    NotPresent,
    Testing,
    Other(String),
    Unavailable,
}

#[derive(Clone, Debug, PartialEq, Eq)]
pub struct NicSysfsInfo {
    pub driver: Option<String>,
    pub rx_queue_count: Option<u32>,
    pub tx_queue_count: Option<u32>,
    pub tx_queue_len: Option<u32>,
    pub mtu: Option<u32>,
}

#[derive(Clone, Debug, PartialEq, Eq)]
pub struct EthtoolSetting {
    pub name: String,
    pub value: String,
}

#[derive(Clone, Debug, PartialEq, Eq)]
pub struct EthtoolSettings {
    pub fields: Vec<EthtoolSetting>,
}

/// Why `ethtool` gave no result.
#[derive(Clone, Debug, PartialEq, Eq)]
pub enum EthtoolFailure {
    CommandNotFound,
    PermissionDenied { detail: String },
    Unsupported { detail: String },
    InterfaceUnavailable { detail: String },
    TimedOut,
    OutputTooLarge { limit: usize },
    InvalidOutput,
    ExitFailure { code: Option<i32>, detail: String },
    Io { detail: String },
}

#[derive(Clone, Debug, PartialEq, Eq)]
pub enum EthtoolSettingsOutcome {
    NotHardwareInterface,
    RefreshPending,
    Collected(EthtoolSettings),
    Partial { settings: EthtoolSettings, rejected_lines: usize },
    Failed(EthtoolFailure),
}

/// A statistic that every driver names alike.
#[derive(Clone, Copy, Debug, PartialEq, Eq, Structural)]
pub enum StandardStatistic {
    RxPackets,
    TxPackets,
    RxBytes,
    TxBytes,
    RxErrors,
    TxErrors,
    RxDropped,
    TxDropped,
}

#[derive(Clone, Copy, Debug, PartialEq, Eq, Structural)]
pub struct StandardNicStatistic {
    pub statistic: StandardStatistic,
    pub value: u64,
}

#[derive(Clone, Debug, PartialEq, Eq)]
pub struct PrivateNicStatistic {
    pub name: String,
    pub value: u64,
}

#[derive(Clone, Debug, PartialEq, Eq)]
pub struct NicStatistics {
    pub standard: Vec<StandardNicStatistic>,
    pub private: Vec<PrivateNicStatistic>,
}

#[derive(Clone, Debug, PartialEq, Eq)]
pub enum EthtoolOutcome {
    NotHardwareInterface,
    Collected(NicStatistics),
    Partial { statistics: NicStatistics, rejected_lines: usize, omitted_private: usize },
    Failed(EthtoolFailure),
}

#[derive(Clone, Debug, PartialEq, Eq)]
pub struct NicInterface {
    pub interface: String,
    pub ifindex: u32,
    pub hardware_backed: bool,
    pub operstate: OperState,
    pub sysfs: NicSysfsInfo,
    pub channels: Vec<EthtoolSetting>,
    pub fallback_settings: Vec<EthtoolSetting>,
    pub settings: EthtoolSettingsOutcome,
    pub ethtool: EthtoolOutcome,
}

#[derive(Clone, Debug, PartialEq, Eq)]
pub struct NicCollectionError {
    pub interface: Option<String>,
    pub detail: String,
}

#[derive(Clone, Debug, PartialEq, Eq)]
pub struct NicCollection {
    pub interfaces: Vec<NicInterface>,
    pub errors: Vec<NicCollectionError>,
}

/// A failure as a status shows it.
pub open spec fn failure_status(failure: EthtoolFailure) -> Seq<char> {
    match failure {
        EthtoolFailure::CommandNotFound => "command_not_found"@,
        EthtoolFailure::PermissionDenied { .. } => "permission_denied"@,
        EthtoolFailure::Unsupported { .. } => "unsupported"@,
        EthtoolFailure::InterfaceUnavailable { .. } => "interface_unavailable"@,
        EthtoolFailure::TimedOut => "timed_out"@,
        EthtoolFailure::OutputTooLarge { .. } => "output_limit"@,
        EthtoolFailure::InvalidOutput => "invalid_output"@,
        EthtoolFailure::ExitFailure { .. } => "command_failed"@,
        EthtoolFailure::Io { .. } => "io_error"@,
    }
}

pub fn ethtool_failure_status(failure: &EthtoolFailure) -> (status: &'static str)
    ensures
        status@ == failure_status(*failure),
{
    match failure {
        EthtoolFailure::CommandNotFound => "command_not_found",
        EthtoolFailure::PermissionDenied { .. } => "permission_denied",
        EthtoolFailure::Unsupported { .. } => "unsupported",
        EthtoolFailure::InterfaceUnavailable { .. } => "interface_unavailable",
        EthtoolFailure::TimedOut => "timed_out",
        EthtoolFailure::OutputTooLarge { .. } => "output_limit",
        EthtoolFailure::InvalidOutput => "invalid_output",
        EthtoolFailure::ExitFailure { .. } => "command_failed",
        EthtoolFailure::Io { .. } => "io_error",
    }
}

/// A failure in words.
pub open spec fn failure_words(failure: EthtoolFailure) -> Seq<char> {
    match failure {
        EthtoolFailure::CommandNotFound => "ethtool command was not found"@,
        EthtoolFailure::PermissionDenied { detail } => "ethtool permission denied: "@ + detail@,
        EthtoolFailure::Unsupported { detail } => "ethtool operation is not supported: "@
            + detail@,
        EthtoolFailure::InterfaceUnavailable { detail } => "interface is not available: "@
            + detail@,
        EthtoolFailure::TimedOut => "ethtool timed out"@,
        EthtoolFailure::OutputTooLarge { limit } => "ethtool output exceeded the limit of "@
            + text::decimal(limit as nat) + " bytes"@,
        EthtoolFailure::InvalidOutput => "ethtool output is not valid"@,
        EthtoolFailure::ExitFailure { detail, .. } => "ethtool failed: "@ + detail@,
        EthtoolFailure::Io { detail } => "ethtool could not be run: "@ + detail@,
    }
}

pub fn describe_failure(failure: &EthtoolFailure) -> (words: String)
    ensures
        words@ == failure_words(*failure),
{
    match failure {
        EthtoolFailure::CommandNotFound => owned("ethtool command was not found"),
        EthtoolFailure::PermissionDenied { detail } => joined(
            "ethtool permission denied: ",
            detail.as_str(),
        ),
        EthtoolFailure::Unsupported { detail } => joined(
            "ethtool operation is not supported: ",
            detail.as_str(),
        ),
        EthtoolFailure::InterfaceUnavailable { detail } => joined(
            "interface is not available: ",
            detail.as_str(),
        ),
        EthtoolFailure::TimedOut => owned("ethtool timed out"),
        EthtoolFailure::OutputTooLarge { limit } => {
            let mut words = owned("ethtool output exceeded the limit of ");
            push_decimal(&mut words, *limit as u128);
            words.append(" bytes");
            words
        },
        EthtoolFailure::InvalidOutput => owned("ethtool output is not valid"),
        EthtoolFailure::ExitFailure { detail, .. } => joined("ethtool failed: ", detail.as_str()),
        EthtoolFailure::Io { detail } => joined("ethtool could not be run: ", detail.as_str()),
    }
}

fn joined(a: &str, b: &str) -> (both: String)
    ensures
        both@ == a@ + b@,
{
    let mut both = owned(a);
    both.append(b);
    both
}

/// The code of a failure, and whether it means that the interface cannot do it.
pub open spec fn failure_class(failure: EthtoolFailure) -> (MonitorErrorCode, bool) {
    match failure {
        EthtoolFailure::CommandNotFound => (MonitorErrorCode::NotFound, false),
        EthtoolFailure::PermissionDenied { .. } => (MonitorErrorCode::PermissionDenied, false),
        EthtoolFailure::Unsupported { .. } => (MonitorErrorCode::Unsupported, true),
        EthtoolFailure::InterfaceUnavailable { .. } => (MonitorErrorCode::NotFound, false),
        EthtoolFailure::TimedOut => (MonitorErrorCode::Timeout, false),
        EthtoolFailure::OutputTooLarge { .. } => (MonitorErrorCode::OutputLimit, false),
        EthtoolFailure::InvalidOutput => (MonitorErrorCode::SchemaMismatch, false),
        EthtoolFailure::ExitFailure { detail, .. } => if diagnostics::says_denied(detail@) {
            (MonitorErrorCode::PermissionDenied, false)
        } else {
            (MonitorErrorCode::Io, false)
        },
        EthtoolFailure::Io { .. } => (MonitorErrorCode::Io, false),
    }
}

pub fn ethtool_failure_class(failure: &EthtoolFailure) -> (class: (MonitorErrorCode, bool))
    ensures
        class == failure_class(*failure),
{
    match failure {
        EthtoolFailure::CommandNotFound => (MonitorErrorCode::NotFound, false),
        EthtoolFailure::PermissionDenied { .. } => (MonitorErrorCode::PermissionDenied, false),
        EthtoolFailure::Unsupported { .. } => (MonitorErrorCode::Unsupported, true),
        EthtoolFailure::InterfaceUnavailable { .. } => (MonitorErrorCode::NotFound, false),
        EthtoolFailure::TimedOut => (MonitorErrorCode::Timeout, false),
        EthtoolFailure::OutputTooLarge { .. } => (MonitorErrorCode::OutputLimit, false),
        EthtoolFailure::InvalidOutput => (MonitorErrorCode::SchemaMismatch, false),
        EthtoolFailure::ExitFailure { detail, .. } => if is_permission_message(detail.as_str()) {
            (MonitorErrorCode::PermissionDenied, false)
        } else {
            (MonitorErrorCode::Io, false)
        },
        EthtoolFailure::Io { .. } => (MonitorErrorCode::Io, false),
    }
}

/// The sample of a provider that has nothing but one failure.
pub open spec fn failure_sample(
    provider: Seq<char>,
    timing: CollectionTiming,
    failure: EthtoolFailure,
) -> SampleModel {
    diagnostics::failed_sample(
        provider,
        timing.finished_at,
        timing.collection_duration,
        failure_class(failure).0,
        failure_words(failure),
    )
}

fn ethtool_error_sample(provider: &str, timing: CollectionTiming, failure: &EthtoolFailure) -> (
    sample: ProviderSample)
    ensures
        sample.deep_view() == failure_sample(provider@, timing, *failure),
{
    let (code, _) = ethtool_failure_class(failure);
    let words = describe_failure(failure);
    error_sample(
        provider,
        timing.finished_at,
        timing.collection_duration,
        code,
        words.as_str(),
    )
}

/// The operational state as it is shown, if it is one of the known ones.
pub open spec fn shown_state(state: OperState) -> Option<Seq<char>> {
    match state {
        OperState::Up => Some("up"@),
        OperState::Down => Some("down"@),
        OperState::Unknown => Some("unknown"@),
        OperState::Dormant => Some("dormant"@),
        OperState::LowerLayerDown => Some("lower_layer_down"@),
        OperState::NotPresent => Some("not_present"@),
        OperState::Testing => Some("testing"@),
        OperState::Other(_) => None,
        OperState::Unavailable => None,
    }
}

pub fn nic_state_value(state: &OperState) -> (shown: Option<&'static str>)
    ensures
        match shown {
            Some(value) => shown_state(*state) == Some(value@),
            None => shown_state(*state) is None,
        },
{
    match state {
        OperState::Up => Some("up"),
        OperState::Down => Some("down"),
        OperState::Unknown => Some("unknown"),
        OperState::Dormant => Some("dormant"),
        OperState::LowerLayerDown => Some("lower_layer_down"),
        OperState::NotPresent => Some("not_present"),
        OperState::Testing => Some("testing"),
        OperState::Other(_) => None,
        OperState::Unavailable => None,
    }
}

/// The name of a standard statistic.
pub open spec fn standard_name(statistic: StandardStatistic) -> Seq<char> {
    match statistic {
        StandardStatistic::RxPackets => "rx_packets"@,
        StandardStatistic::TxPackets => "tx_packets"@,
        StandardStatistic::RxBytes => "rx_bytes"@,
        StandardStatistic::TxBytes => "tx_bytes"@,
        StandardStatistic::RxErrors => "rx_errors"@,
        StandardStatistic::TxErrors => "tx_errors"@,
        StandardStatistic::RxDropped => "rx_dropped"@,
        StandardStatistic::TxDropped => "tx_dropped"@,
    }
}

impl StandardStatistic {
    pub fn as_str(self) -> (name: &'static str)
        ensures
            name@ == standard_name(self),
    {
        match self {
            StandardStatistic::RxPackets => "rx_packets",
            StandardStatistic::TxPackets => "tx_packets",
            StandardStatistic::RxBytes => "rx_bytes",
            StandardStatistic::TxBytes => "tx_bytes",
            StandardStatistic::RxErrors => "rx_errors",
            StandardStatistic::TxErrors => "tx_errors",
            StandardStatistic::RxDropped => "rx_dropped",
            StandardStatistic::TxDropped => "tx_dropped",
        }
    }
}

/// The labels of one named field of an interface.
pub open spec fn statistic_labels(interface: Seq<char>, ifindex: u32, name: Seq<char>) -> Result<
    LabelsModel,
    MonitorValidationError,
> {
    match translate::interface_labels_of(interface, ifindex) {
        Err(error) => Err(error),
        Ok(labels) => if model::valid_value(name) {
            Ok(labels.push(model::Label { label: MetricLabel::Statistic, value: name }))
        } else {
            Err(MonitorValidationError::InvalidLabelValue)
        },
    }
}

pub fn nic_statistic_labels(interface: &str, ifindex: u32, name: &str) -> (result: Result<
    MetricLabels,
    MonitorValidationError,
>)
    ensures
        statistic_labels(interface@, ifindex, name@) == match result {
            Ok(labels) => Ok(labels.deep_view()),
            Err(error) => Err(error),
        },
{
    let mut labels = match interface_labels(interface, ifindex) {
        Ok(labels) => labels,
        Err(error) => {
            return Err(error);
        },
    };
    let ghost two = labels.deep_view();
    proof {
        assert(two.len() == 2);
        assert(two.drop_last().len() == 1);
        assert(two.drop_last().drop_last().len() == 0);
        reveal_with_fuel(model::label_value, 3);
        assert(model::label_value(two, MetricLabel::Statistic) is None);
        assert(model::label_slot(two, MetricLabel::Statistic) == 2);
    }
    match labels.put(MetricLabel::Statistic, owned(name)) {
        Ok(()) => {
            assert(labels.deep_view() =~= two.push(
                model::Label { label: MetricLabel::Statistic, value: name@ },
            ));
            Ok(labels)
        },
        Err(error) => Err(error),
    }
}

/// A reading that shows a state.
pub open spec fn state_reading(
    metric: Seq<char>,
    labels: LabelsModel,
    value: Seq<char>,
) -> ReadingModel {
    ReadingModel {
        key: KeyModel { metric, labels },
        outcome: ReadingOutcome::Observed(MetricReading::State(value)),
    }
}

/// A reading that has no value.
pub open spec fn missing_reading(
    metric: Seq<char>,
    labels: LabelsModel,
    reason: UnavailableReason,
) -> ReadingModel {
    ReadingModel {
        key: KeyModel { metric, labels },
        outcome: ReadingOutcome::Unavailable(reason),
    }
}

/// A state, or "missing".
pub open spec fn state_or_missing(
    metric: Seq<char>,
    labels: LabelsModel,
    value: Option<Seq<char>>,
) -> ReadingModel {
    match value {
        Some(value) => state_reading(metric, labels, value),
        None => missing_reading(metric, labels, UnavailableReason::Missing),
    }
}

/// A number in decimal, if there is one.
pub open spec fn shown_number(number: Option<u32>) -> Option<Seq<char>> {
    match number {
        Some(n) => Some(text::decimal(n as nat)),
        None => None,
    }
}

/// The labels of a field whose interface and name are valid.
pub open spec fn field_labels(interface: NicInterface, name: Seq<char>) -> LabelsModel {
    statistic_labels(interface.interface@, interface.ifindex, name)->Ok_0
}

/// The state readings of an interface: first its kind, then the link state, the
/// settings that sysfs knows, and the MTU.
pub open spec fn state_group(interface: NicInterface) -> Seq<ReadingModel> {
    let labels = translate::interface_labels_of(interface.interface@, interface.ifindex)->Ok_0;
    let setting = RAW_NIC_SETTING_METRIC_ID@;
    let driver = match interface.sysfs.driver {
        Some(driver) => Some(driver@),
        None => None,
    };
    seq![
        state_reading(
            NIC_KIND_METRIC_ID@,
            labels,
            if interface.hardware_backed {
                "physical"@
            } else {
                "virtual"@
            },
        ),
        match shown_state(interface.operstate) {
            Some(state) => state_reading(NIC_LINK_STATE_METRIC_ID@, labels, state),
            None => missing_reading(
                NIC_LINK_STATE_METRIC_ID@,
                labels,
                UnavailableReason::InvalidValue,
            ),
        },
        state_or_missing(setting, field_labels(interface, "Driver"@), driver),
        state_or_missing(
            setting,
            field_labels(interface, "RX Queues"@),
            shown_number(interface.sysfs.rx_queue_count),
        ),
        state_or_missing(
            setting,
            field_labels(interface, "TX Queues"@),
            shown_number(interface.sysfs.tx_queue_count),
        ),
        state_or_missing(
            setting,
            field_labels(interface, "TX Queue Length"@),
            shown_number(interface.sysfs.tx_queue_len),
        ),
        match interface.sysfs.mtu {
            Some(mtu) => ReadingModel {
                key: KeyModel { metric: NIC_MTU_METRIC_ID@, labels },
                outcome: ReadingOutcome::Observed(MetricReading::Gauge(mtu as u64)),
            },
            None => missing_reading(NIC_MTU_METRIC_ID@, labels, UnavailableReason::Missing),
        },
    ]
}

/// The name of statistic `i`: the standard ones first.
pub open spec fn statistic_name(statistics: NicStatistics, i: int) -> Seq<char> {
    let n = statistics.standard@.len();
    if i < n {
        standard_name(statistics.standard@[i].statistic)
    } else {
        statistics.private@[i - n].name@
    }
}

pub open spec fn statistic_value(statistics: NicStatistics, i: int) -> u64 {
    let n = statistics.standard@.len();
    if i < n {
        statistics.standard@[i].value
    } else {
        statistics.private@[i - n].value
    }
}

pub open spec fn statistic_count(statistics: NicStatistics) -> int {
    statistics.standard@.len() as int + statistics.private@.len() as int
}

/// The readings of the first `n` statistics; one without a valid name is left out.
pub open spec fn statistic_readings(interface: NicInterface, statistics: NicStatistics, n: int) -> Seq<
    ReadingModel,
>
    decreases n,
{
    if n <= 0 {
        Seq::empty()
    } else {
        let before = statistic_readings(interface, statistics, n - 1);
        match statistic_labels(
            interface.interface@,
            interface.ifindex,
            statistic_name(statistics, n - 1),
        ) {
            Ok(labels) => before.push(
                ReadingModel {
                    key: KeyModel { metric: RAW_PRIVATE_NIC_METRIC_ID@, labels },
                    outcome: ReadingOutcome::Observed(
                        MetricReading::Gauge(statistic_value(statistics, n - 1)),
                    ),
                },
            ),
            Err(_) => before,
        }
    }
}

/// Whether the interface is one that `ethtool` was asked about.
pub open spec fn is_hardware(interface: NicInterface) -> bool {
    !(interface.ethtool is NotHardwareInterface)
}

/// How the statistics of an interface went.
pub open spec fn statistics_status(interface: NicInterface) -> Seq<char> {
    match interface.ethtool {
        EthtoolOutcome::NotHardwareInterface => Seq::empty(),
        EthtoolOutcome::Collected(_) => "complete"@,
        EthtoolOutcome::Partial { rejected_lines, .. } => if rejected_lines > 0 {
            "partial_schema_mismatch"@
        } else {
            "partial_cardinality_limit"@
        },
        EthtoolOutcome::Failed(failure) => failure_status(failure),
    }
}

/// An interface under another index.
pub open spec fn labelled(interface: NicInterface, ifindex: u32) -> NicInterface {
    NicInterface { ifindex, ..interface }
}

/// What `ethtool` counted for an interface.
pub open spec fn statistics_of(interface: NicInterface) -> Option<NicStatistics> {
    match interface.ethtool {
        EthtoolOutcome::Collected(statistics) => Some(statistics),
        EthtoolOutcome::Partial { statistics, .. } => Some(statistics),
        _ => None,
    }
}

/// The statistics readings of an interface: first the status, under the index that is
/// kept of the interface, then the statistics, under the index that is kept of them.
pub open spec fn statistics_group(interface: NicInterface, entry: KeptModel) -> Seq<ReadingModel> {
    let labels = translate::interface_labels_of(interface.interface@, entry.ifindex)->Ok_0;
    let status = seq![
        state_reading(
            NIC_ETHTOOL_STATISTICS_STATUS_METRIC_ID@,
            labels,
            statistics_status(interface),
        ),
    ];
    match statistics_of(interface) {
        Some(statistics) => status + statistic_readings(
            labelled(interface, entry.statistics_ifindex),
            statistics,
            statistic_count(statistics),
        ),
        None => status,
    }
}

/// Whether the name of an interface can be a label.
pub open spec fn is_named(interface: NicInterface) -> bool {
    model::valid_value(interface.interface@)
}

/// Whether what sysfs says of the driver can be shown.
pub open spec fn driver_shows(interface: NicInterface) -> bool {
    interface.sysfs.driver matches Some(driver) ==> model::valid_value(driver@)
}

/// What is kept of one interface: under which index it is shown, the names of its
/// statistics, and under which index these are shown.
#[verifier::ext_equal]
pub struct KeptModel {
    pub interface: Seq<char>,
    pub ifindex: u32,
    pub hardware_backed: bool,
    pub standard: nat,
    pub statistics: Seq<Seq<char>>,
    pub statistics_ifindex: u32,
}

pub open spec fn is_kept(name: Seq<char>) -> spec_fn(KeptModel) -> bool {
    |entry: KeptModel| entry.interface == name
}

/// Where an interface of this name is kept.
pub open spec fn kept_at(kept: Seq<KeptModel>, name: Seq<char>) -> Option<int> {
    seqs::first_where(kept, is_kept(name), kept.len() as int)
}

/// What is kept of an interface that is new.
pub open spec fn fresh(interface: NicInterface) -> KeptModel {
    KeptModel {
        interface: interface.interface@,
        ifindex: interface.ifindex,
        hardware_backed: interface.hardware_backed,
        standard: 0,
        statistics: Seq::empty(),
        statistics_ifindex: interface.ifindex,
    }
}

/// Whether the kept names are those of the statistics, in order.
pub open spec fn knows(entry: KeptModel, statistics: NicStatistics) -> bool {
    &&& entry.standard == statistics.standard@.len()
    &&& entry.statistics.len() == statistic_count(statistics)
    &&& forall|i: int|
        0 <= i < entry.statistics.len() ==> #[trigger] entry.statistics[i] == statistic_name(
            statistics,
            i,
        )
}

/// What is kept after the statistics of an interface were shown.
pub open spec fn taught(
    entry: KeptModel,
    interface: NicInterface,
    statistics: NicStatistics,
) -> KeptModel {
    if knows(entry, statistics) {
        entry
    } else {
        KeptModel {
            standard: statistics.standard@.len(),
            statistics: Seq::new(
                statistic_count(statistics) as nat,
                |i: int| statistic_name(statistics, i),
            ),
            statistics_ifindex: interface.ifindex,
            ..entry
        }
    }
}

/// What is kept with an interface, which is found by its name.
pub open spec fn with_interface(kept: Seq<KeptModel>, interface: NicInterface) -> Seq<KeptModel> {
    match kept_at(kept, interface.interface@) {
        Some(_) => kept,
        None => kept.push(fresh(interface)),
    }
}

/// What is kept after an interface was shown.
pub open spec fn after_interface(kept: Seq<KeptModel>, interface: NicInterface) -> Seq<KeptModel> {
    let known = with_interface(kept, interface);
    let i = kept_at(known, interface.interface@)->0;
    match statistics_of(interface) {
        Some(statistics) => known.update(i, taught(known[i], interface, statistics)),
        None => known,
    }
}

/// What an interface is shown by.
pub open spec fn entry_for(kept: Seq<KeptModel>, interface: NicInterface) -> KeptModel {
    after_interface(kept, interface)[kept_at(
        with_interface(kept, interface),
        interface.interface@,
    )->0]
}

/// What is kept after the first `n` interfaces were shown.
pub open spec fn kept_upto(kept: Seq<KeptModel>, interfaces: Seq<NicInterface>, n: int) -> Seq<
    KeptModel,
>
    decreases n,
{
    if n <= 0 {
        kept
    } else {
        after_interface(kept_upto(kept, interfaces, n - 1), interfaces[n - 1])
    }
}

/// Whether what is kept is of one of the interfaces.
pub open spec fn belongs(entry: KeptModel, interfaces: Seq<NicInterface>) -> bool {
    exists|i: int|
        0 <= i < interfaces.len() && entry.interface == (#[trigger] interfaces[i]).interface@
            && entry.ifindex == interfaces[i].ifindex && entry.hardware_backed
            == interfaces[i].hardware_backed
}

/// What stays of the first `n` entries: interfaces that are gone, renamed or replaced
/// are forgotten.
pub open spec fn retained(kept: Seq<KeptModel>, interfaces: Seq<NicInterface>, n: int) -> Seq<
    KeptModel,
>
    decreases n,
{
    if n <= 0 {
        Seq::empty()
    } else if belongs(kept[n - 1], interfaces) {
        retained(kept, interfaces, n - 1).push(kept[n - 1])
    } else {
        retained(kept, interfaces, n - 1)
    }
}

pub open spec fn unnamed() -> spec_fn(NicInterface) -> bool {
    |interface: NicInterface| !is_named(interface)
}

/// What stays of earlier collections.
pub open spec fn kept_of(kept: Seq<KeptModel>, interfaces: Seq<NicInterface>) -> Seq<KeptModel> {
    retained(kept, interfaces, kept.len() as int)
}

/// What is kept after a collection. The first interface whose name cannot be a label ends
/// it.
pub open spec fn kept_after(kept: Seq<KeptModel>, interfaces: Seq<NicInterface>) -> Seq<KeptModel> {
    kept_upto(
        kept_of(kept, interfaces),
        interfaces,
        match seqs::first_where(interfaces, unnamed(), interfaces.len() as int) {
            Some(i) => i,
            None => interfaces.len() as int,
        },
    )
}

/// The state groups of the first `n` interfaces.
pub open spec fn state_groups(kept: Seq<KeptModel>, interfaces: Seq<NicInterface>, n: int) -> Seq<
    Seq<ReadingModel>,
>
    decreases n,
{
    if n <= 0 {
        Seq::empty()
    } else {
        let entry = entry_for(kept_upto(kept, interfaces, n - 1), interfaces[n - 1]);
        state_groups(kept, interfaces, n - 1).push(
            state_group(labelled(interfaces[n - 1], entry.ifindex)),
        )
    }
}

/// The statistics groups of the hardware among the first `n` interfaces.
pub open spec fn statistics_groups(
    kept: Seq<KeptModel>,
    interfaces: Seq<NicInterface>,
    n: int,
) -> Seq<Seq<ReadingModel>>
    decreases n,
{
    if n <= 0 {
        Seq::empty()
    } else if is_hardware(interfaces[n - 1]) {
        let entry = entry_for(kept_upto(kept, interfaces, n - 1), interfaces[n - 1]);
        statistics_groups(kept, interfaces, n - 1).push(
            statistics_group(interfaces[n - 1], entry),
        )
    } else {
        statistics_groups(kept, interfaces, n - 1)
    }
}

/// A reading of this metric with these labels.
pub open spec fn is_reading_of(metric: Seq<char>, labels: LabelsModel) -> spec_fn(
    ReadingModel,
) -> bool {
    |reading: ReadingModel| reading.key == (KeyModel { metric, labels })
}

/// Readings in which the status of each of the first `n` groups that lost rows says
/// so.
pub open spec fn marked_upto(
    readings: Seq<ReadingModel>,
    metric: Seq<char>,
    groups: Seq<Seq<ReadingModel>>,
    limit: int,
    n: int,
) -> Seq<ReadingModel>
    decreases n,
{
    if n <= 0 {
        readings
    } else {
        let before = marked_upto(readings, metric, groups, limit, n - 1);
        let labels = groups[n - 1][0].key.labels;
        if interleave::omitted_rows(groups, limit, n - 1) == 0 {
            before
        } else {
            match seqs::first_where(before, is_reading_of(metric, labels), before.len() as int) {
                Some(i) => before.update(
                    i,
                    state_reading(metric, labels, "partial_cardinality_limit"@),
                ),
                None => before,
            }
        }
    }
}

/// What is shown of groups: the rows that fit, with a mark at the status of groups
/// that lost rows.
pub open spec fn marked_readings(groups: Seq<Seq<ReadingModel>>, metric: Seq<char>) -> Seq<
    ReadingModel,
> {
    let limit = MAX_READINGS_PER_PROVIDER as int;
    marked_upto(
        interleave::packed_upto(groups, limit, groups.len() as int),
        metric,
        groups,
        limit,
        groups.len() as int,
    )
}

fn state_of(metric: &str, labels: MetricLabels, value: &str) -> (reading: SampleReading)
    ensures
        reading.deep_view() == state_reading(metric@, labels.deep_view(), value@),
{
    SampleReading::observed(owned(metric), labels, MetricReading::State(owned(value)))
}

fn missing_of(metric: &str, labels: MetricLabels, reason: UnavailableReason) -> (reading:
    SampleReading)
    ensures
        reading.deep_view() == missing_reading(metric@, labels.deep_view(), reason),
{
    SampleReading::unavailable(owned(metric), labels, reason)
}

/// The status reading of an `ethtool` result.
pub fn ethtool_status_reading(metric: &str, labels: MetricLabels, status: &str) -> (reading:
    SampleReading)
    ensures
        reading.deep_view() == state_reading(metric@, labels.deep_view(), status@),
{
    state_of(metric, labels, status)
}

/// Marks the status of groups that lost rows.
fn mark_cardinality_limited_statuses(
    readings: &mut Vec<SampleReading>,
    metric: &str,
    groups: &Vec<Vec<SampleReading>>,
    omitted: &Vec<usize>,
)
    requires
        groups.len() == omitted.len(),
        forall|g: int| 0 <= g < groups.len() ==> (#[trigger] groups.deep_view()[g]).len() > 0,
        forall|g: int|
            0 <= g < groups.len() ==> #[trigger] omitted@[g] == interleave::omitted_rows(
                groups.deep_view(),
                MAX_READINGS_PER_PROVIDER as int,
                g,
            ),
    ensures
        final(readings).deep_view() == marked_upto(
            old(readings).deep_view(),
            metric@,
            groups.deep_view(),
            MAX_READINGS_PER_PROVIDER as int,
            groups.len() as int,
        ),
{
    let ghost given = readings.deep_view();
    let ghost all = groups.deep_view();
    let ghost limit = MAX_READINGS_PER_PROVIDER as int;
    for g in 0..groups.len()
        invariant
            all == groups.deep_view(),
            limit == MAX_READINGS_PER_PROVIDER as int,
            groups.len() == omitted.len(),
            forall|h: int| 0 <= h < groups.len() ==> (#[trigger] all[h]).len() > 0,
            forall|h: int|
                0 <= h < groups.len() ==> #[trigger] omitted@[h] == interleave::omitted_rows(
                    all,
                    limit,
                    h,
                ),
            readings.deep_view() == marked_upto(given, metric@, all, limit, g as int),
    {
        assert(all[g as int] == groups@[g as int].deep_view());
        assert(all[g as int].len() > 0);
        if omitted[g] > 0 {
            let status = &groups[g][0];
            let ghost before = readings.deep_view();
            let ghost labels = all[g as int][0].key.labels;
            let ghost p = is_reading_of(metric@, labels);
            assert(all[g as int][0] == status.deep_view());
            let mut i: usize = 0;
            let mut found: bool = false;
            while i < readings.len() && !found
                invariant
                    i <= readings.len(),
                    before == readings.deep_view(),
                    p == is_reading_of(metric@, labels),
                    labels == status.labels.deep_view(),
                    !found ==> seqs::first_where(before, p, i as int) is None,
                    found ==> i < readings.len() && seqs::first_where(before, p, i as int + 1)
                        == Some(i as int),
                decreases readings.len() - i, if found { 0int } else { 1int },
            {
                assert(before[i as int] == readings@[i as int].deep_view());
                if same_text(readings[i].metric.as_str(), metric) && readings[i].labels.same(
                    &status.labels,
                ) {
                    found = true;
                } else {
                    i += 1;
                }
            }
            if found {
                proof {
                    seqs::lemma_first_where_stays(before, p, i as int + 1, before.len() as int);
                }
                let marked = ethtool_status_reading(
                    metric,
                    status.labels.copy(),
                    "partial_cardinality_limit",
                );
                let ghost shown = marked.deep_view();
                readings.set(i, marked);
                assert(readings.deep_view() =~= before.update(i as int, shown));
            }
        }
    }
}

/// What is kept of one statistic: its name, and its labels if the name is valid.
#[derive(Clone, Debug, PartialEq, Eq)]
pub struct NicStatisticTemplate {
    pub name: String,
    pub labels: Option<MetricLabels>,
}

/// What is kept of one interface.
#[derive(Clone, Debug, PartialEq, Eq)]
pub struct NicInterfaceReadings {
    pub interface: String,
    pub ifindex: u32,
    pub hardware_backed: bool,
    pub labels: MetricLabels,
    pub statistics: Vec<NicStatisticTemplate>,
    pub standard_statistics: usize,
    /// The index that the labels of the statistics have.
    pub statistics_ifindex: u32,
}

impl DeepView for NicInterfaceReadings {
    type V = KeptModel;

    open spec fn deep_view(&self) -> KeptModel {
        KeptModel {
            interface: self.interface@,
            ifindex: self.ifindex,
            hardware_backed: self.hardware_backed,
            standard: self.standard_statistics as nat,
            statistics: Seq::new(self.statistics@.len(), |i: int| self.statistics@[i].name@),
            statistics_ifindex: self.statistics_ifindex,
        }
    }
}

/// Whether a kept label set is the one of its name.
pub open spec fn template_wf(
    interface: Seq<char>,
    ifindex: u32,
    template: NicStatisticTemplate,
) -> bool {
    match (template.labels, statistic_labels(interface, ifindex, template.name@)) {
        (Some(labels), Ok(expected)) => labels.deep_view() == expected,
        (None, Err(_)) => true,
        _ => false,
    }
}

impl NicInterfaceReadings {
    /// What is kept are the labels that the interface and its statistics have.
    pub open spec fn wf(&self) -> bool {
        &&& translate::interface_labels_of(self.interface@, self.ifindex) == Ok::<
            LabelsModel,
            MonitorValidationError,
        >(self.labels.deep_view())
        &&& forall|i: int|
            0 <= i < self.statistics@.len() ==> template_wf(
                self.interface@,
                self.statistics_ifindex,
                #[trigger] self.statistics@[i],
            )
    }

    fn belongs_to(&self, interface: &NicInterface) -> (same: bool)
        ensures
            same == (self.interface@ == interface.interface@ && self.ifindex == interface.ifindex
                && self.hardware_backed == interface.hardware_backed),
    {
        self.ifindex == interface.ifindex && self.hardware_backed == interface.hardware_backed
            && same_text(self.interface.as_str(), interface.interface.as_str())
    }

    fn new(interface: &NicInterface) -> (result: Result<
        NicInterfaceReadings,
        MonitorValidationError,
    >)
        ensures
            match result {
                Ok(kept) => is_named(*interface) && kept.wf() && kept.deep_view() == fresh(
                    *interface,
                ),
                Err(error) => !is_named(*interface) && error
                    == MonitorValidationError::InvalidLabelValue,
            },
    {
        match interface_labels(interface.interface.as_str(), interface.ifindex) {
            Err(error) => Err(error),
            Ok(labels) => {
                let kept = NicInterfaceReadings {
                    interface: interface.interface.clone(),
                    ifindex: interface.ifindex,
                    hardware_backed: interface.hardware_backed,
                    labels,
                    statistics: Vec::new(),
                    standard_statistics: 0,
                    statistics_ifindex: interface.ifindex,
                };
                assert(kept.deep_view() =~= fresh(*interface));
                Ok(kept)
            },
        }
    }

    /// Whether the kept templates have the names of the statistics, in order.
    fn remembers(&self, statistics: &NicStatistics) -> (same: bool)
        ensures
            same == knows(self.deep_view(), *statistics),
    {
        let ghost entry = self.deep_view();
        let standard: usize = statistics.standard.len();
        if self.standard_statistics != standard || self.statistics.len() < standard
            || self.statistics.len() - standard != statistics.private.len() {
            return false;
        }
        let mut i: usize = 0;
        while i < self.statistics.len()
            invariant
                i <= self.statistics.len(),
                entry == self.deep_view(),
                standard == statistics.standard.len(),
                self.statistics.len() == standard + statistics.private.len(),
                forall|j: int|
                    0 <= j < i ==> #[trigger] entry.statistics[j] == statistic_name(*statistics, j),
            decreases self.statistics.len() - i,
        {
            assert(entry.statistics[i as int] == self.statistics@[i as int].name@);
            let same: bool = if i < standard {
                same_text(
                    self.statistics[i].name.as_str(),
                    statistics.standard[i].statistic.as_str(),
                )
            } else {
                same_text(
                    self.statistics[i].name.as_str(),
                    statistics.private[i - standard].name.as_str(),
                )
            };
            if !same {
                return false;
            }
            i += 1;
        }
        true
    }

    /// Keeps the labels of the statistics of an interface of this name.
    fn learn(&mut self, ifindex: u32, statistics: &NicStatistics)
        requires
            old(self).wf(),
        ensures
            final(self).wf(),
            final(self).deep_view() == (KeptModel {
                standard: statistics.standard@.len(),
                statistics: Seq::new(
                    statistic_count(*statistics) as nat,
                    |i: int| statistic_name(*statistics, i),
                ),
                statistics_ifindex: ifindex,
                ..old(self).deep_view()
            }),
    {
        let standard: usize = statistics.standard.len();
        let private: usize = statistics.private.len();
        let mut templates: Vec<NicStatisticTemplate> = Vec::new();
        for i in 0..standard
            invariant
                standard == statistics.standard.len(),
                templates.len() == i,
                forall|j: int|
                    0 <= j < i ==> template_wf(
                        self.interface@,
                        ifindex,
                        #[trigger] templates@[j],
                    ) && templates@[j].name@ == statistic_name(*statistics, j),
        {
            let template = self.template(
                ifindex,
                owned(statistics.standard[i].statistic.as_str()),
            );
            templates.push(template);
        }
        for k in 0..private
            invariant
                standard == statistics.standard.len(),
                private == statistics.private.len(),
                templates.len() == standard + k,
                forall|j: int|
                    0 <= j < standard + k ==> template_wf(
                        self.interface@,
                        ifindex,
                        #[trigger] templates@[j],
                    ) && templates@[j].name@ == statistic_name(*statistics, j),
        {
            let template = self.template(ifindex, statistics.private[k].name.clone());
            templates.push(template);
        }
        self.statistics = templates;
        self.standard_statistics = standard;
        self.statistics_ifindex = ifindex;
        assert(self.deep_view().statistics =~= Seq::new(
            statistic_count(*statistics) as nat,
            |i: int| statistic_name(*statistics, i),
        ));
    }

    /// The template of a statistic.
    fn template(&self, ifindex: u32, name: String) -> (template: NicStatisticTemplate)
        ensures
            template.name == name,
            template_wf(self.interface@, ifindex, template),
    {
        let labels = match nic_statistic_labels(self.interface.as_str(), ifindex, name.as_str()) {
            Ok(labels) => Some(labels),
            Err(_) => None,
        };
        NicStatisticTemplate { name, labels }
    }

    /// Appends the readings of the statistics.
    fn append_statistics(
        &mut self,
        interface: &NicInterface,
        statistics: &NicStatistics,
        readings: &mut Vec<SampleReading>,
    )
        requires
            old(self).wf(),
            old(self).interface@ == interface.interface@,
        ensures
            final(self).wf(),
            final(self).deep_view() == taught(old(self).deep_view(), *interface, *statistics),
            final(readings).deep_view() == old(readings).deep_view() + statistic_readings(
                labelled(*interface, final(self).deep_view().statistics_ifindex),
                *statistics,
                statistic_count(*statistics),
            ),
    {
        if !self.remembers(statistics) {
            self.learn(interface.ifindex, statistics);
        }
        let ghost given = readings.deep_view();
        let ghost entry = self.deep_view();
        let ghost shown_as = labelled(*interface, entry.statistics_ifindex);
        assert(knows(entry, *statistics));
        let standard: usize = statistics.standard.len();
        let total: usize = self.statistics.len();
        assert(given + Seq::<ReadingModel>::empty() =~= given);
        for i in 0..total
            invariant
                total == self.statistics.len(),
                total == statistic_count(*statistics),
                standard == statistics.standard.len(),
                self.wf(),
                entry == self.deep_view(),
                self.interface@ == interface.interface@,
                knows(entry, *statistics),
                shown_as == labelled(*interface, entry.statistics_ifindex),
                readings.deep_view() == given + statistic_readings(
                    shown_as,
                    *statistics,
                    i as int,
                ),
        {
            let template = &self.statistics[i];
            assert(template_wf(
                self.interface@,
                self.statistics_ifindex,
                self.statistics@[i as int],
            ));
            assert(entry.statistics[i as int] == template.name@);
            let value: u64 = if i < standard {
                statistics.standard[i].value
            } else {
                statistics.private[i - standard].value
            };
            if let Some(labels) = &template.labels {
                let ghost before = *readings;
                let ghost shown = statistic_readings(shown_as, *statistics, i as int);
                readings.push(
                    SampleReading::observed(
                        owned(RAW_PRIVATE_NIC_METRIC_ID),
                        labels.copy(),
                        MetricReading::Gauge(value),
                    ),
                );
                proof {
                    seqs::lemma_deep_push(before, *readings);
                    assert((given + shown).push(readings@.last().deep_view()) =~= given
                        + shown.push(readings@.last().deep_view()));
                }
            }
        }
    }
}

/// Whether `ethtool` gave no statistics.
pub open spec fn failed() -> spec_fn(NicInterface) -> bool {
    |interface: NicInterface| interface.ethtool is Failed
}

/// Whether `ethtool` gave statistics in part.
pub open spec fn partial() -> spec_fn(NicInterface) -> bool {
    |interface: NicInterface| interface.ethtool is Partial
}

pub open spec fn hardware() -> spec_fn(NicInterface) -> bool {
    |interface: NicInterface| is_hardware(interface)
}

/// The number of interfaces that satisfy `p`.
pub open spec fn count(interfaces: Seq<NicInterface>, p: spec_fn(NicInterface) -> bool) -> nat {
    seqs::count_where(interfaces, p, interfaces.len() as int)
}

/// The first interface that satisfies `p`.
pub open spec fn first(interfaces: Seq<NicInterface>, p: spec_fn(NicInterface) -> bool) -> Option<
    NicInterface,
> {
    match seqs::first_where(interfaces, p, interfaces.len() as int) {
        Some(i) => Some(interfaces[i]),
        None => None,
    }
}

pub open spec fn failure_of(interface: NicInterface) -> EthtoolFailure {
    match interface.ethtool {
        EthtoolOutcome::Failed(failure) => failure,
        _ => EthtoolFailure::InvalidOutput,
    }
}

pub open spec fn rejected_of(interface: NicInterface) -> usize {
    match interface.ethtool {
        EthtoolOutcome::Partial { rejected_lines, .. } => rejected_lines,
        _ => 0,
    }
}

pub open spec fn omitted_of(interface: NicInterface) -> usize {
    match interface.ethtool {
        EthtoolOutcome::Partial { omitted_private, .. } => omitted_private,
        _ => 0,
    }
}

/// What is said when statistics did not fit.
pub open spec fn statistics_limit_words(
    interfaces: Seq<NicInterface>,
    statuses: nat,
    statistics: nat,
) -> Seq<char> {
    let limit = "ethtool statistics cardinality limit "@ + text::decimal(
        MAX_READINGS_PER_PROVIDER as nat,
    ) + "; omitted "@;
    let omitted = if statuses > 0 {
        limit + text::decimal(statuses) + " interface statuses, "@
    } else {
        limit
    };
    let issues = omitted + text::decimal(statistics) + " statistics; failures "@ + text::decimal(
        count(interfaces, failed()),
    ) + "; schema partials "@ + text::decimal(count(interfaces, partial()));
    let failures = match first(interfaces, failed()) {
        Some(interface) => issues + "; first failure "@ + interface.interface@ + ": "@
            + failure_status(failure_of(interface)),
        None => issues,
    };
    match first(interfaces, partial()) {
        Some(interface) => failures + "; first schema partial "@ + interface.interface@
            + ": rejected="@ + text::decimal(rejected_of(interface) as nat)
            + ", private_omitted="@ + text::decimal(omitted_of(interface) as nat),
        None => failures,
    }
}

/// How many of the hardware interfaces have an incomplete result, in words.
pub open spec fn issue_words(interfaces: Seq<NicInterface>) -> Seq<char> {
    text::decimal(count(interfaces, failed()) + count(interfaces, partial())) + "/"@
        + text::decimal(count(interfaces, hardware()))
}

/// The health of the statistics provider.
pub open spec fn statistics_health(
    interfaces: Seq<NicInterface>,
    statuses: nat,
    statistics: nat,
) -> ProviderHealth<Seq<char>> {
    if statuses > 0 || statistics > 0 {
        ProviderHealth::Partial {
            warning: diagnostics::error_with(
                MonitorErrorCode::CardinalityLimit,
                statistics_limit_words(interfaces, statuses, statistics),
            ),
        }
    } else {
        match (first(interfaces, failed()), first(interfaces, partial())) {
            (Some(interface), _) => ProviderHealth::Partial {
                warning: diagnostics::error_with(
                    failure_class(failure_of(interface)).0,
                    issue_words(interfaces)
                        + " hardware interface ethtool results incomplete; first "@
                        + interface.interface@ + ": "@ + failure_words(failure_of(interface)),
                ),
            },
            (None, Some(interface)) => ProviderHealth::Partial {
                warning: diagnostics::error_with(
                    MonitorErrorCode::SchemaMismatch,
                    issue_words(interfaces)
                        + " hardware interface ethtool results partial; first "@
                        + interface.interface@ + ": "@ + text::decimal(
                        rejected_of(interface) as nat,
                    ) + " rejected lines, "@ + text::decimal(omitted_of(interface) as nat)
                        + " omitted statistics"@,
                ),
            },
            (None, None) => ProviderHealth::Fresh,
        }
    }
}

/// The sample of the statistics provider.
pub open spec fn statistics_sample(
    catalog: CatalogModel,
    kept: Seq<KeptModel>,
    interfaces: Seq<NicInterface>,
    timing: CollectionTiming,
) -> SampleModel {
    let groups = statistics_groups(kept, interfaces, interfaces.len() as int);
    let limit = MAX_READINGS_PER_PROVIDER as int;
    let n = groups.len() as int;
    let readings = marked_readings(groups, NIC_ETHTOOL_STATISTICS_STATUS_METRIC_ID@);
    if readings.len() > 0 {
        diagnostics::sample_or_failure(
            catalog,
            ETHTOOL_TEXT@,
            timing.finished_at,
            timing.collection_duration,
            statistics_health(
                interfaces,
                interleave::primaries_upto(groups, limit, n),
                interleave::capped(interleave::payload_upto(groups, limit, n)) as nat,
            ),
            readings,
        )
    } else {
        match (first(interfaces, failed()), first(interfaces, partial())) {
            (Some(interface), _) => failure_sample(ETHTOOL_TEXT@, timing, failure_of(interface)),
            (None, Some(interface)) => diagnostics::failed_sample(
                ETHTOOL_TEXT@,
                timing.finished_at,
                timing.collection_duration,
                MonitorErrorCode::SchemaMismatch,
                "ethtool returned no usable statistics for "@ + interface.interface@ + ": "@
                    + text::decimal(rejected_of(interface) as nat) + " rejected lines, "@
                    + text::decimal(omitted_of(interface) as nat) + " omitted statistics"@,
            ),
            (None, None) => diagnostics::failed_sample(
                ETHTOOL_TEXT@,
                timing.finished_at,
                timing.collection_duration,
                MonitorErrorCode::Unsupported,
                if count(interfaces, hardware()) == 0 {
                    "no hardware-backed network interface is visible"@
                } else {
                    "ethtool returned no bounded statistics"@
                },
            ),
        }
    }
}

/// What is said when state readings did not fit.
pub open spec fn state_limit_words(
    errors: Seq<NicCollectionError>,
    kinds: nat,
    fields: nat,
) -> Seq<char> {
    let omitted = "NIC sysfs results exceeded the "@ + text::decimal(
        MAX_READINGS_PER_PROVIDER as nat,
    ) + "-reading provider limit; omitted "@ + text::decimal(kinds)
        + " interface kind readings and "@ + text::decimal(fields)
        + " link-state or setting readings"@;
    if errors.len() > 0 {
        omitted + "; first collection error: "@ + errors[0].detail@
    } else {
        omitted
    }
}

/// The health of the state provider.
pub open spec fn state_health(
    errors: Seq<NicCollectionError>,
    kinds: nat,
    fields: nat,
) -> ProviderHealth<Seq<char>> {
    if kinds > 0 || fields > 0 {
        ProviderHealth::Partial {
            warning: diagnostics::error_with(
                MonitorErrorCode::CardinalityLimit,
                state_limit_words(errors, kinds, fields),
            ),
        }
    } else if errors.len() > 0 {
        ProviderHealth::Partial {
            warning: diagnostics::error_with(
                MonitorErrorCode::Io,
                "NIC sysfs collection was incomplete; first error: "@ + errors[0].detail@,
            ),
        }
    } else {
        ProviderHealth::Fresh
    }
}

/// The sample of the state provider.
pub open spec fn state_sample(
    catalog: CatalogModel,
    kept: Seq<KeptModel>,
    collection: NicCollection,
    timing: CollectionTiming,
) -> SampleModel {
    let interfaces = collection.interfaces@;
    let groups = state_groups(kept, interfaces, interfaces.len() as int);
    let limit = MAX_READINGS_PER_PROVIDER as int;
    let n = groups.len() as int;
    let readings = interleave::packed_upto(groups, limit, n);
    if readings.len() == 0 && collection.errors@.len() > 0 {
        diagnostics::failed_sample(
            SYSFS_NIC@,
            timing.finished_at,
            timing.collection_duration,
            MonitorErrorCode::Io,
            collection.errors@[0].detail@,
        )
    } else {
        diagnostics::sample_or_failure(
            catalog,
            SYSFS_NIC@,
            timing.finished_at,
            timing.collection_duration,
            state_health(
                collection.errors@,
                interleave::primaries_upto(groups, limit, n),
                interleave::capped(interleave::payload_upto(groups, limit, n)) as nat,
            ),
            readings,
        )
    }
}

/// Whether every interface has a name that can be a label.
pub open spec fn all_named(interfaces: Seq<NicInterface>) -> bool {
    forall|i: int| 0 <= i < interfaces.len() ==> is_named(#[trigger] interfaces[i])
}

/// The sample that reports a name that cannot be a label.
pub open spec fn unnamed_sample(provider: Seq<char>, timing: CollectionTiming) -> SampleModel {
    diagnostics::failed_sample(
        provider,
        timing.finished_at,
        timing.collection_duration,
        MonitorErrorCode::Internal,
        diagnostics::explanation(MonitorValidationError::InvalidLabelValue),
    )
}

/// The samples of a collection: state, settings and statistics. `kept` is what is kept of
/// earlier collections.
pub open spec fn nic_samples(
    catalog: CatalogModel,
    kept: Seq<KeptModel>,
    collection: NicCollection,
    timing: CollectionTiming,
    settings: SampleModel,
) -> Seq<SampleModel> {
    let start = kept_of(kept, collection.interfaces@);
    if all_named(collection.interfaces@) {
        seq![
            state_sample(catalog, start, collection, timing),
            settings,
            statistics_sample(catalog, start, collection.interfaces@, timing),
        ]
    } else {
        seq![unnamed_sample(SYSFS_NIC@, timing)]
    }
}

/// What the statistics of a collection amount to.
struct Summary {
    hardware: usize,
    failures: usize,
    first_failure: Option<usize>,
    partials: usize,
    first_partial: Option<usize>,
}

spec fn index_of(found: Option<usize>) -> Option<int> {
    match found {
        Some(i) => Some(i as int),
        None => None,
    }
}

spec fn summarizes(summary: Summary, interfaces: Seq<NicInterface>) -> bool {
    let n = interfaces.len() as int;
    &&& summary.hardware == count(interfaces, hardware())
    &&& summary.failures == count(interfaces, failed())
    &&& summary.partials == count(interfaces, partial())
    &&& summary.failures + summary.partials <= n
    &&& index_of(summary.first_failure) == seqs::first_where(interfaces, failed(), n)
    &&& index_of(summary.first_partial) == seqs::first_where(interfaces, partial(), n)
    &&& summary.first_failure matches Some(i) ==> i < n && interfaces[i as int].ethtool is Failed
    &&& summary.first_partial matches Some(i) ==> i < n && interfaces[i as int].ethtool is Partial
}

fn summarize(interfaces: &Vec<NicInterface>) -> (summary: Summary)
    ensures
        summarizes(summary, interfaces@),
{
    let ghost all = interfaces@;
    let mut summary = Summary {
        hardware: 0,
        failures: 0,
        first_failure: None,
        partials: 0,
        first_partial: None,
    };
    for i in 0..interfaces.len()
        invariant
            all == interfaces@,
            summary.hardware <= i,
            summary.hardware == seqs::count_where(all, hardware(), i as int),
            summary.failures == seqs::count_where(all, failed(), i as int),
            summary.partials == seqs::count_where(all, partial(), i as int),
            summary.failures + summary.partials <= i,
            index_of(summary.first_failure) == seqs::first_where(all, failed(), i as int),
            index_of(summary.first_partial) == seqs::first_where(all, partial(), i as int),
            summary.first_failure matches Some(k) ==> k < i && all[k as int].ethtool is Failed,
            summary.first_partial matches Some(k) ==> k < i && all[k as int].ethtool is Partial,
    {
        match &interfaces[i].ethtool {
            EthtoolOutcome::NotHardwareInterface => {},
            EthtoolOutcome::Collected(_) => {
                summary.hardware += 1;
            },
            EthtoolOutcome::Partial { .. } => {
                summary.hardware += 1;
                summary.partials += 1;
                if summary.first_partial.is_none() {
                    summary.first_partial = Some(i);
                }
            },
            EthtoolOutcome::Failed(_) => {
                summary.hardware += 1;
                summary.failures += 1;
                if summary.first_failure.is_none() {
                    summary.first_failure = Some(i);
                }
            },
        }
    }
    summary
}

fn failure_at(interfaces: &Vec<NicInterface>, i: usize) -> (failure: &EthtoolFailure)
    requires
        i < interfaces.len(),
        interfaces@[i as int].ethtool is Failed,
    ensures
        *failure == failure_of(interfaces@[i as int]),
{
    match &interfaces[i].ethtool {
        EthtoolOutcome::Failed(failure) => failure,
        _ => &EthtoolFailure::InvalidOutput,
    }
}

fn rejected_at(interfaces: &Vec<NicInterface>, i: usize) -> (counts: (usize, usize))
    requires
        i < interfaces.len(),
    ensures
        counts.0 == rejected_of(interfaces@[i as int]),
        counts.1 == omitted_of(interfaces@[i as int]),
{
    match &interfaces[i].ethtool {
        EthtoolOutcome::Partial { rejected_lines, omitted_private, .. } => (
            *rejected_lines,
            *omitted_private,
        ),
        _ => (0, 0),
    }
}

fn describe_statistics_limit(
    interfaces: &Vec<NicInterface>,
    summary: &Summary,
    statuses: usize,
    statistics: usize,
) -> (words: String)
    requires
        summarizes(*summary, interfaces@),
    ensures
        words@ == statistics_limit_words(interfaces@, statuses as nat, statistics as nat),
{
    let mut words = owned("ethtool statistics cardinality limit ");
    push_decimal(&mut words, MAX_READINGS_PER_PROVIDER as u128);
    words.append("; omitted ");
    if statuses > 0 {
        push_decimal(&mut words, statuses as u128);
        words.append(" interface statuses, ");
    }
    push_decimal(&mut words, statistics as u128);
    words.append(" statistics; failures ");
    push_decimal(&mut words, summary.failures as u128);
    words.append("; schema partials ");
    push_decimal(&mut words, summary.partials as u128);
    if let Some(i) = summary.first_failure {
        words.append("; first failure ");
        words.append(interfaces[i].interface.as_str());
        words.append(": ");
        words.append(ethtool_failure_status(failure_at(interfaces, i)));
    }
    if let Some(i) = summary.first_partial {
        let (rejected, omitted) = rejected_at(interfaces, i);
        words.append("; first schema partial ");
        words.append(interfaces[i].interface.as_str());
        words.append(": rejected=");
        push_decimal(&mut words, rejected as u128);
        words.append(", private_omitted=");
        push_decimal(&mut words, omitted as u128);
    }
    words
}

fn describe_issues(summary: &Summary, interfaces: &Vec<NicInterface>) -> (words: String)
    requires
        summarizes(*summary, interfaces@),
    ensures
        words@ == issue_words(interfaces@),
{
    let mut words = decimal_text(summary.failures as u128 + summary.partials as u128);
    words.append("/");
    push_decimal(&mut words, summary.hardware as u128);
    words
}

fn assess_statistics(
    interfaces: &Vec<NicInterface>,
    summary: &Summary,
    statuses: usize,
    statistics: usize,
) -> (health: ProviderHealth<String>)
    requires
        summarizes(*summary, interfaces@),
    ensures
        health.deep_view() == statistics_health(
            interfaces@,
            statuses as nat,
            statistics as nat,
        ),
{
    if statuses > 0 || statistics > 0 {
        let words = describe_statistics_limit(interfaces, summary, statuses, statistics);
        return ProviderHealth::Partial {
            warning: monitor_error(MonitorErrorCode::CardinalityLimit, words.as_str()),
        };
    }
    if let Some(i) = summary.first_failure {
        let failure = failure_at(interfaces, i);
        let mut words = describe_issues(summary, interfaces);
        words.append(" hardware interface ethtool results incomplete; first ");
        words.append(interfaces[i].interface.as_str());
        words.append(": ");
        let reason = describe_failure(failure);
        words.append(reason.as_str());
        let (code, _) = ethtool_failure_class(failure);
        return ProviderHealth::Partial { warning: monitor_error(code, words.as_str()) };
    }
    if let Some(i) = summary.first_partial {
        let (rejected, omitted) = rejected_at(interfaces, i);
        let mut words = describe_issues(summary, interfaces);
        words.append(" hardware interface ethtool results partial; first ");
        words.append(interfaces[i].interface.as_str());
        words.append(": ");
        push_decimal(&mut words, rejected as u128);
        words.append(" rejected lines, ");
        push_decimal(&mut words, omitted as u128);
        words.append(" omitted statistics");
        return ProviderHealth::Partial {
            warning: monitor_error(MonitorErrorCode::SchemaMismatch, words.as_str()),
        };
    }
    ProviderHealth::Fresh
}

fn assess_state(errors: &Vec<NicCollectionError>, kinds: usize, fields: usize) -> (health:
    ProviderHealth<String>)
    ensures
        health.deep_view() == state_health(errors@, kinds as nat, fields as nat),
{
    if kinds > 0 || fields > 0 {
        let mut words = owned("NIC sysfs results exceeded the ");
        push_decimal(&mut words, MAX_READINGS_PER_PROVIDER as u128);
        words.append("-reading provider limit; omitted ");
        push_decimal(&mut words, kinds as u128);
        words.append(" interface kind readings and ");
        push_decimal(&mut words, fields as u128);
        words.append(" link-state or setting readings");
        if errors.len() > 0 {
            words.append("; first collection error: ");
            words.append(errors[0].detail.as_str());
        }
        return ProviderHealth::Partial {
            warning: monitor_error(MonitorErrorCode::CardinalityLimit, words.as_str()),
        };
    }
    if errors.len() > 0 {
        let words = joined(
            "NIC sysfs collection was incomplete; first error: ",
            errors[0].detail.as_str(),
        );
        return ProviderHealth::Partial {
            warning: monitor_error(MonitorErrorCode::Io, words.as_str()),
        };
    }
    ProviderHealth::Fresh
}

/// What is kept of the interfaces that were seen last.
#[derive(Clone, Debug, PartialEq, Eq)]
pub struct NicReadingsCache {
    pub interfaces: Vec<NicInterfaceReadings>,
    pub state_order: CanonicalReadingOrder,
    pub statistics_order: CanonicalReadingOrder,
}

/// The labels of a field with a fixed name.
fn fixed_labels(interface: &NicInterface, ifindex: u32, name: &str) -> (labels: MetricLabels)
    requires
        is_named(*interface),
        model::valid_value(name@),
    ensures
        labels.deep_view() == field_labels(labelled(*interface, ifindex), name@),
{
    match nic_statistic_labels(interface.interface.as_str(), ifindex, name) {
        Ok(labels) => labels,
        Err(_) => MetricLabels::none(),
    }
}

fn setting_or_missing(
    interface: &NicInterface,
    ifindex: u32,
    name: &str,
    value: Option<String>,
) -> (reading: SampleReading)
    requires
        is_named(*interface),
        model::valid_value(name@),
    ensures
        reading.deep_view() == state_or_missing(
            RAW_NIC_SETTING_METRIC_ID@,
            field_labels(labelled(*interface, ifindex), name@),
            value.deep_view(),
        ),
{
    let labels = fixed_labels(interface, ifindex, name);
    match value {
        Some(value) => state_of(RAW_NIC_SETTING_METRIC_ID, labels, value.as_str()),
        None => missing_of(RAW_NIC_SETTING_METRIC_ID, labels, UnavailableReason::Missing),
    }
}

fn number_text(number: Option<u32>) -> (value: Option<String>)
    ensures
        value.deep_view() == shown_number(number),
{
    match number {
        Some(n) => Some(decimal_text(n as u128)),
        None => None,
    }
}

/// The state readings of an interface, under the index that is kept of it.
fn build_state_group(interface: &NicInterface, ifindex: u32, labels: &MetricLabels) -> (group: Vec<
    SampleReading,
>)
    requires
        translate::interface_labels_of(interface.interface@, ifindex) == Ok::<
            LabelsModel,
            MonitorValidationError,
        >(labels.deep_view()),
    ensures
        group.deep_view() == state_group(labelled(*interface, ifindex)),
{
    proof {
        reveal_strlit("Driver");
        reveal_strlit("RX Queues");
        reveal_strlit("TX Queues");
        reveal_strlit("TX Queue Length");
    }
    let mut group: Vec<SampleReading> = Vec::new();
    let kind = if interface.hardware_backed {
        "physical"
    } else {
        "virtual"
    };
    group.push(state_of(NIC_KIND_METRIC_ID, labels.copy(), kind));
    let link_state = match nic_state_value(&interface.operstate) {
        Some(state) => state_of(NIC_LINK_STATE_METRIC_ID, labels.copy(), state),
        None => missing_of(
            NIC_LINK_STATE_METRIC_ID,
            labels.copy(),
            UnavailableReason::InvalidValue,
        ),
    };
    group.push(link_state);
    let driver: Option<String> = match &interface.sysfs.driver {
        Some(driver) => Some(driver.clone()),
        None => None,
    };
    group.push(setting_or_missing(interface, ifindex, "Driver", driver));
    group.push(
        setting_or_missing(
            interface,
            ifindex,
            "RX Queues",
            number_text(interface.sysfs.rx_queue_count),
        ),
    );
    group.push(
        setting_or_missing(
            interface,
            ifindex,
            "TX Queues",
            number_text(interface.sysfs.tx_queue_count),
        ),
    );
    group.push(
        setting_or_missing(
            interface,
            ifindex,
            "TX Queue Length",
            number_text(interface.sysfs.tx_queue_len),
        ),
    );
    let mtu = match interface.sysfs.mtu {
        Some(mtu) => SampleReading::observed(
            owned(NIC_MTU_METRIC_ID),
            labels.copy(),
            MetricReading::Gauge(mtu as u64),
        ),
        None => missing_of(NIC_MTU_METRIC_ID, labels.copy(), UnavailableReason::Missing),
    };
    group.push(mtu);
    assert(group.deep_view() =~= state_group(labelled(*interface, ifindex)));
    group
}

impl NicReadingsCache {
    pub open spec fn wf(&self) -> bool {
        &&& forall|i: int|
            0 <= i < self.interfaces@.len() ==> (#[trigger] self.interfaces@[i]).wf()
        &&& self.state_order.wf()
        &&& self.statistics_order.wf()
    }

    pub fn new() -> (cache: NicReadingsCache)
        ensures
            cache.wf(),
            cache.interfaces@.len() == 0,
    {
        NicReadingsCache {
            interfaces: Vec::new(),
            state_order: CanonicalReadingOrder::new(),
            statistics_order: CanonicalReadingOrder::new(),
        }
    }

    /// Forgets interfaces that are gone, renamed or replaced.
    fn retain(&mut self, collection: &NicCollection)
        requires
            old(self).wf(),
        ensures
            final(self).wf(),
            final(self).interfaces.deep_view() == kept_of(
                old(self).interfaces.deep_view(),
                collection.interfaces@,
            ),
    {
        let ghost given = self.interfaces.deep_view();
        let ghost all = collection.interfaces@;
        let mut i: usize = 0;
        let ghost mut seen: int = 0;
        assert(given.skip(0) =~= given);
        assert(retained(given, all, 0) + given.skip(0) =~= given);
        while i < self.interfaces.len()
            invariant
                all == collection.interfaces@,
                0 <= seen <= given.len(),
                i <= self.interfaces.len(),
                retained(given, all, seen).len() == i,
                self.interfaces.deep_view() == retained(given, all, seen) + given.skip(seen),
                self.wf(),
            decreases given.len() - seen,
        {
            let ghost before = retained(given, all, seen);
            let ghost held = self.interfaces@;
            assert forall|k: int| 0 <= k < held.len() implies (#[trigger] held[k]).deep_view() == (
            before + given.skip(seen))[k] by {
                assert(self.interfaces.deep_view()[k] == held[k].deep_view());
            }
            assert(held.len() == (before + given.skip(seen)).len());
            assert((before + given.skip(seen))[i as int] == given[seen]);
            let mut found: bool = false;
            let mut j: usize = 0;
            while j < collection.interfaces.len() && !found
                invariant
                    i < self.interfaces.len(),
                    held == self.interfaces@,
                    given[seen] == held[i as int].deep_view(),
                    all == collection.interfaces@,
                    j <= collection.interfaces.len(),
                    found ==> belongs(given[seen], all),
                    !found ==> forall|k: int|
                        0 <= k < j ==> !(given[seen].interface == (
                        #[trigger] all[k]).interface@ && given[seen].ifindex == all[k].ifindex
                            && given[seen].hardware_backed == all[k].hardware_backed),
                decreases collection.interfaces.len() - j, if found { 0int } else { 1int },
            {
                if self.interfaces[i].belongs_to(&collection.interfaces[j]) {
                    assert(given[seen].interface == all[j as int].interface@);
                    found = true;
                } else {
                    j += 1;
                }
            }
            proof {
                assert(given.skip(seen)[0] == given[seen]);
                assert(given.skip(seen).drop_first() =~= given.skip(seen + 1));
            }
            if found {
                i += 1;
                assert(self.interfaces.deep_view() =~= before.push(given[seen]) + given.skip(
                    seen + 1,
                ));
            } else {
                assert(!belongs(given[seen], all));
                self.interfaces.remove(i);
                assert forall|k: int| 0 <= k < self.interfaces@.len() implies (
                #[trigger] self.interfaces.deep_view()[k]) == (before + given.skip(
                    seen + 1,
                ))[k] by {
                    let old_place = if k < i {
                        k
                    } else {
                        k + 1
                    };
                    assert(self.interfaces.deep_view()[k] == self.interfaces@[k].deep_view());
                    assert(self.interfaces@[k] == held[old_place]);
                    if k >= i {
                        assert(given.skip(seen)[k + 1 - i] == given[seen + k + 1 - i]);
                        assert(given.skip(seen + 1)[k - i] == given[seen + k + 1 - i]);
                    }
                    assert((before + given.skip(seen))[old_place]
                        == held[old_place].deep_view());
                }
                assert(self.interfaces.deep_view() =~= before + given.skip(seen + 1));
                assert forall|k: int| 0 <= k < self.interfaces@.len() implies (
                #[trigger] self.interfaces@[k]).wf() by {
                    if k < i {
                        assert(self.interfaces@[k] == held[k]);
                    } else {
                        assert(self.interfaces@[k] == held[k + 1]);
                    }
                }
            }
            proof {
                seen = seen + 1;
            }
        }
        assert(given.skip(seen).len() == 0);
        assert(self.interfaces.deep_view() =~= retained(given, all, given.len() as int));
    }

    /// The place of what is kept under the name of an interface; it is made if it is not
    /// there.
    fn for_interface(&mut self, interface: &NicInterface) -> (result: Result<
        usize,
        MonitorValidationError,
    >)
        requires
            old(self).wf(),
        ensures
            final(self).wf(),
            final(self).state_order == old(self).state_order,
            final(self).statistics_order == old(self).statistics_order,
            match result {
                Ok(i) => {
                    &&& is_named(*interface)
                    &&& final(self).interfaces.deep_view() == with_interface(
                        old(self).interfaces.deep_view(),
                        *interface,
                    )
                    &&& kept_at(
                        final(self).interfaces.deep_view(),
                        interface.interface@,
                    ) == Some(i as int)
                    &&& i < final(self).interfaces@.len()
                    &&& final(self).interfaces@[i as int].interface@ == interface.interface@
                },
                Err(error) => !is_named(*interface) && error
                    == MonitorValidationError::InvalidLabelValue && *final(self) == *old(self),
            },
    {
        let ghost given = self.interfaces.deep_view();
        let ghost wanted = is_kept(interface.interface@);
        let mut i: usize = 0;
        while i < self.interfaces.len()
            invariant
                self.wf(),
                *self == *old(self),
                i <= self.interfaces.len(),
                given == self.interfaces.deep_view(),
                wanted == is_kept(interface.interface@),
                seqs::first_where(given, wanted, i as int) is None,
            decreases self.interfaces.len() - i,
        {
            assert(given[i as int] == self.interfaces@[i as int].deep_view());
            if same_text(self.interfaces[i].interface.as_str(), interface.interface.as_str()) {
                assert(self.interfaces@[i as int].wf());
                proof {
                    seqs::lemma_first_where_stays(given, wanted, i + 1, given.len() as int);
                }
                return Ok(i);
            }
            i += 1;
        }
        let kept = match NicInterfaceReadings::new(interface) {
            Err(error) => {
                return Err(error);
            },
            Ok(kept) => kept,
        };
        let at: usize = self.interfaces.len();
        let ghost before = self.interfaces;
        self.interfaces.push(kept);
        proof {
            seqs::lemma_deep_push(before, self.interfaces);
            lemma_kept_at(given, *interface);
            let after = self.interfaces.deep_view();
            assert(after[at as int] == kept.deep_view());
            seqs::lemma_first_where(given, wanted, given.len() as int);
            let found = kept_at(after, interface.interface@)->0;
            if found < at {
                assert(after[found] == given[found]);
                assert(!wanted(given[found]));
            }
            assert forall|k: int| 0 <= k < self.interfaces@.len() implies (
            #[trigger] self.interfaces@[k]).wf() by {
                if k < at {
                    assert(self.interfaces@[k] == before@[k]);
                }
            }
        }
        Ok(at)
    }
}

/// An interface is found by its name once it is kept, also after it was shown.
proof fn lemma_kept_at(kept: Seq<KeptModel>, interface: NicInterface)
    ensures
        ({
            let known = with_interface(kept, interface);
            let after = after_interface(kept, interface);
            let name = interface.interface@;
            &&& kept_at(known, name) is Some
            &&& 0 <= kept_at(known, name)->0 < known.len()
            &&& known[kept_at(known, name)->0].interface == name
            &&& after.len() == known.len()
            &&& kept_at(after, name) == kept_at(known, name)
            &&& entry_for(kept, interface).interface == name
            &&& entry_for(kept, interface).ifindex == known[kept_at(known, name)->0].ifindex
        }),
{
    let known = with_interface(kept, interface);
    let after = after_interface(kept, interface);
    let name = interface.interface@;
    let wanted = is_kept(name);
    seqs::lemma_first_where(kept, wanted, kept.len() as int);
    seqs::lemma_first_where(known, wanted, known.len() as int);
    if kept_at(kept, name) is None {
        assert(wanted(known[kept.len() as int]));
    }
    let i = kept_at(known, name)->0;
    assert(wanted(known[i]));
    seqs::lemma_first_where(after, wanted, after.len() as int);
    assert(wanted(after[i]));
    let j = kept_at(after, name)->0;
    if j < i {
        assert(after[j] == known[j]);
        assert(!wanted(known[j]));
    }
}

/// Every statistics group starts with a status, so none is empty.
proof fn lemma_groups_have_status(kept: Seq<KeptModel>, interfaces: Seq<NicInterface>, n: int)
    requires
        0 <= n <= interfaces.len(),
    ensures
        forall|g: int|
            0 <= g < statistics_groups(kept, interfaces, n).len() ==> (#[trigger] statistics_groups(
                kept,
                interfaces,
                n,
            )[g]).len() > 0,
    decreases n,
{
    if n > 0 {
        lemma_groups_have_status(kept, interfaces, n - 1);
        let before = statistics_groups(kept, interfaces, n - 1);
        let after = statistics_groups(kept, interfaces, n);
        assert forall|g: int| 0 <= g < after.len() implies (#[trigger] after[g]).len() > 0 by {
            if g < before.len() {
                assert(after[g] == before[g]);
            }
        }
    }
}

impl NicReadingsCache {
    /// The readings of the interfaces, by interface: state and statistics.
    fn build_groups(&mut self, collection: &NicCollection) -> (result: Result<
        (Vec<Vec<SampleReading>>, Vec<Vec<SampleReading>>),
        MonitorValidationError,
    >)
        requires
            old(self).wf(),
            forall|i: int|
                0 <= i < collection.interfaces@.len() ==> driver_shows(
                    #[trigger] collection.interfaces@[i],
                ),
        ensures
            final(self).wf(),
            final(self).interfaces.deep_view() == kept_after(
                old(self).interfaces.deep_view(),
                collection.interfaces@,
            ),
            ({
                let all = collection.interfaces@;
                let n = all.len() as int;
                let start = kept_of(old(self).interfaces.deep_view(), all);
                match result {
                    Ok((state, statistics)) => {
                        &&& all_named(all)
                        &&& state.deep_view() == state_groups(start, all, n)
                        &&& statistics.deep_view() == statistics_groups(start, all, n)
                    },
                    Err(error) => !all_named(all) && error
                        == MonitorValidationError::InvalidLabelValue,
                }
            }),
    {
        let ghost all = collection.interfaces@;
        self.retain(collection);
        let ghost start = self.interfaces.deep_view();
        let mut state: Vec<Vec<SampleReading>> = Vec::new();
        let mut statistics: Vec<Vec<SampleReading>> = Vec::new();
        assert(state.deep_view() =~= Seq::<Seq<ReadingModel>>::empty());
        assert(statistics.deep_view() =~= Seq::<Seq<ReadingModel>>::empty());
        for i in 0..collection.interfaces.len()
            invariant
                all == collection.interfaces@,
                start == kept_of(old(self).interfaces.deep_view(), all),
                self.wf(),
                seqs::first_where(all, unnamed(), i as int) is None,
                forall|k: int| 0 <= k < i ==> is_named(#[trigger] all[k]),
                self.interfaces.deep_view() == kept_upto(start, all, i as int),
                state.deep_view() == state_groups(start, all, i as int),
                statistics.deep_view() == statistics_groups(start, all, i as int),
        {
            let interface = &collection.interfaces[i];
            let ghost before = self.interfaces.deep_view();
            let at: usize = match self.for_interface(interface) {
                Ok(at) => at,
                Err(error) => {
                    proof {
                        assert(!is_named(all[i as int]));
                        assert(unnamed()(all[i as int]));
                        seqs::lemma_first_where_stays(all, unnamed(), i + 1, all.len() as int);
                    }
                    return Err(error);
                },
            };
            let ghost entry = entry_for(before, *interface);
            let ghost held = self.interfaces@;
            proof {
                lemma_kept_at(before, *interface);
                assert(self.interfaces.deep_view()[at as int] == held[at as int].deep_view());
                assert(held[at as int].wf());
                assert(entry.ifindex == held[at as int].ifindex);
            }
            let group = build_state_group(
                interface,
                self.interfaces[at].ifindex,
                &self.interfaces[at].labels,
            );
            let ghost shown = state;
            state.push(group);
            proof {
                seqs::lemma_deep_push(shown, state);
            }
            match &interface.ethtool {
                EthtoolOutcome::NotHardwareInterface => {},
                EthtoolOutcome::Collected(collected) => {
                    let status = ethtool_status_reading(
                        NIC_ETHTOOL_STATISTICS_STATUS_METRIC_ID,
                        self.interfaces[at].labels.copy(),
                        "complete",
                    );
                    let readings = self.show_statistics(at, interface, collected, status);
                    let ghost shown = statistics;
                    statistics.push(readings);
                    proof {
                        seqs::lemma_deep_push(shown, statistics);
                        assert(statistics@.last().deep_view() =~= statistics_group(
                            *interface,
                            entry,
                        ));
                    }
                },
                EthtoolOutcome::Partial { statistics: collected, rejected_lines, .. } => {
                    let status_text = if *rejected_lines > 0 {
                        "partial_schema_mismatch"
                    } else {
                        "partial_cardinality_limit"
                    };
                    let status = ethtool_status_reading(
                        NIC_ETHTOOL_STATISTICS_STATUS_METRIC_ID,
                        self.interfaces[at].labels.copy(),
                        status_text,
                    );
                    let readings = self.show_statistics(at, interface, collected, status);
                    let ghost shown = statistics;
                    statistics.push(readings);
                    proof {
                        seqs::lemma_deep_push(shown, statistics);
                        assert(statistics@.last().deep_view() =~= statistics_group(
                            *interface,
                            entry,
                        ));
                    }
                },
                EthtoolOutcome::Failed(failure) => {
                    let mut readings: Vec<SampleReading> = Vec::new();
                    readings.push(
                        ethtool_status_reading(
                            NIC_ETHTOOL_STATISTICS_STATUS_METRIC_ID,
                            self.interfaces[at].labels.copy(),
                            ethtool_failure_status(failure),
                        ),
                    );
                    let ghost shown = statistics;
                    statistics.push(readings);
                    proof {
                        seqs::lemma_deep_push(shown, statistics);
                        assert(statistics@.last().deep_view() =~= statistics_group(
                            *interface,
                            entry,
                        ));
                    }
                },
            }
        }
        Ok((state, statistics))
    }

    /// The statistics of the interface that is kept at a place, behind their status.
    fn show_statistics(
        &mut self,
        at: usize,
        interface: &NicInterface,
        collected: &NicStatistics,
        status: SampleReading,
    ) -> (readings: Vec<SampleReading>)
        requires
            old(self).wf(),
            at < old(self).interfaces@.len(),
            old(self).interfaces@[at as int].interface@ == interface.interface@,
        ensures
            final(self).wf(),
            ({
                let entry = taught(
                    old(self).interfaces.deep_view()[at as int],
                    *interface,
                    *collected,
                );
                &&& final(self).interfaces.deep_view() == old(
                    self,
                ).interfaces.deep_view().update(at as int, entry)
                &&& readings.deep_view() == seq![status.deep_view()] + statistic_readings(
                    labelled(*interface, entry.statistics_ifindex),
                    *collected,
                    statistic_count(*collected),
                )
            }),
    {
        let ghost held = self.interfaces@;
        let ghost given = self.interfaces.deep_view();
        let mut readings: Vec<SampleReading> = Vec::new();
        readings.push(status);
        assert(readings.deep_view() =~= seq![status.deep_view()]);
        assert(given[at as int] == held[at as int].deep_view());
        assert(held[at as int].wf());
        self.interfaces[at].append_statistics(interface, collected, &mut readings);
        proof {
            assert(self.interfaces.deep_view() =~= given.update(
                at as int,
                self.interfaces@[at as int].deep_view(),
            )) by {
                assert forall|k: int| 0 <= k < given.len() && k != at implies (
                #[trigger] self.interfaces.deep_view()[k]) == given[k] by {
                    assert(self.interfaces@[k] == held[k]);
                }
            }
            assert forall|k: int| 0 <= k < self.interfaces@.len() implies (
            #[trigger] self.interfaces@[k]).wf() by {
                if k != at {
                    assert(self.interfaces@[k] == held[k]);
                    assert(held[k].wf());
                }
            }
        }
        readings
    }
}

/// The samples of a collection: state, settings and statistics. Labels are kept from one
/// collection to the next, by the name of the interface.
pub fn translate_nic_collection(
    catalog: &MetricCatalog,
    collection: &NicCollection,
    timing: CollectionTiming,
    settings: ProviderSample,
    cache: &mut NicReadingsCache,
) -> (samples: Vec<ProviderSample>)
    requires
        old(cache).wf(),
        forall|i: int|
            0 <= i < collection.interfaces@.len() ==> driver_shows(
                #[trigger] collection.interfaces@[i],
            ),
    ensures
        final(cache).wf(),
        samples.deep_view() == nic_samples(
            catalog.deep_view(),
            old(cache).interfaces.deep_view(),
            *collection,
            timing,
            settings.deep_view(),
        ),
        final(cache).interfaces.deep_view() == kept_after(
            old(cache).interfaces.deep_view(),
            collection.interfaces@,
        ),
{
    let ghost cat = catalog.deep_view();
    let ghost given = cache.interfaces.deep_view();
    let ghost start = kept_of(given, collection.interfaces@);
    let finished_at: Nanos = timing.finished_at;
    let duration: Nanos = timing.collection_duration;
    let mut samples: Vec<ProviderSample> = Vec::new();
    let (state_groups, statistics_groups) = match cache.build_groups(collection) {
        Ok(groups) => groups,
        Err(error) => {
            samples.push(
                error_sample(
                    SYSFS_NIC,
                    finished_at,
                    duration,
                    MonitorErrorCode::Internal,
                    explain(error),
                ),
            );
            assert(samples.deep_view() =~= nic_samples(
                cat,
                given,
                *collection,
                timing,
                settings.deep_view(),
            ));
            return samples;
        },
    };
    let state = sample_state(
        catalog,
        collection,
        timing,
        &state_groups,
        Ghost(start),
        &mut cache.state_order,
    );
    let statistics = sample_statistics(
        catalog,
        collection,
        timing,
        &statistics_groups,
        Ghost(start),
        &mut cache.statistics_order,
    );
    samples.push(state);
    samples.push(settings);
    samples.push(statistics);
    assert(samples.deep_view() =~= nic_samples(
        cat,
        given,
        *collection,
        timing,
        settings.deep_view(),
    ));
    samples
}

/// Whether interfaces of one name have one index.
pub open spec fn names_agree(interfaces: Seq<NicInterface>) -> bool {
    forall|i: int, j: int|
        0 <= i < interfaces.len() && 0 <= j < interfaces.len() && (
        #[trigger] interfaces[i]).interface@ == (#[trigger] interfaces[j]).interface@
            ==> interfaces[i].ifindex == interfaces[j].ifindex
}

/// Whether statistics are kept under the index of their interface.
pub open spec fn own_labels(kept: Seq<KeptModel>) -> bool {
    forall|k: int|
        0 <= k < kept.len() ==> (#[trigger] kept[k]).statistics_ifindex == kept[k].ifindex
}

/// Whether everything that is kept is of one of the interfaces.
pub open spec fn all_belong(kept: Seq<KeptModel>, interfaces: Seq<NicInterface>) -> bool {
    forall|k: int| 0 <= k < kept.len() ==> belongs(#[trigger] kept[k], interfaces)
}

proof fn lemma_retained(kept: Seq<KeptModel>, interfaces: Seq<NicInterface>, n: int)
    requires
        0 <= n <= kept.len(),
    ensures
        all_belong(retained(kept, interfaces, n), interfaces),
        own_labels(kept) ==> own_labels(retained(kept, interfaces, n)),
    decreases n,
{
    if n > 0 {
        lemma_retained(kept, interfaces, n - 1);
    }
}

proof fn lemma_interface_shown(kept: Seq<KeptModel>, interfaces: Seq<NicInterface>, i: int)
    requires
        0 <= i < interfaces.len(),
        all_belong(kept, interfaces),
    ensures
        all_belong(after_interface(kept, interfaces[i]), interfaces),
        names_agree(interfaces) && own_labels(kept) ==> {
            &&& own_labels(after_interface(kept, interfaces[i]))
            &&& entry_for(kept, interfaces[i]).ifindex == interfaces[i].ifindex
            &&& entry_for(kept, interfaces[i]).statistics_ifindex == interfaces[i].ifindex
        },
{
    let interface = interfaces[i];
    lemma_kept_at(kept, interface);
    let known = with_interface(kept, interface);
    let after = after_interface(kept, interface);
    let at = kept_at(known, interface.interface@)->0;
    assert forall|k: int| 0 <= k < known.len() implies belongs(
        #[trigger] known[k],
        interfaces,
    ) && (own_labels(kept) ==> known[k].statistics_ifindex == known[k].ifindex) by {
        if k < kept.len() {
            assert(known[k] == kept[k]);
        } else {
            assert(known[k] == fresh(interface));
            assert(known[k].interface == interfaces[i].interface@);
        }
    }
    assert(belongs(known[at], interfaces));
    let j = choose|j: int|
        0 <= j < interfaces.len() && known[at].interface == (
        #[trigger] interfaces[j]).interface@ && known[at].ifindex == interfaces[j].ifindex
            && known[at].hardware_backed == interfaces[j].hardware_backed;
    assert(interfaces[j].interface@ == interfaces[i].interface@);
    assert forall|k: int| 0 <= k < after.len() implies belongs(#[trigger] after[k], interfaces) by {
        if k == at {
            assert(after[k].interface == interfaces[j].interface@);
        } else {
            assert(after[k] == known[k]);
        }
    }
    if names_agree(interfaces) && own_labels(kept) {
        assert(known[at].ifindex == interface.ifindex);
        assert forall|k: int| 0 <= k < after.len() implies (#[trigger] after[k]).statistics_ifindex
            == after[k].ifindex by {
            if k != at {
                assert(after[k] == known[k]);
            }
        }
    }
}

proof fn lemma_kept_upto(kept: Seq<KeptModel>, interfaces: Seq<NicInterface>, n: int)
    requires
        0 <= n <= interfaces.len(),
        all_belong(kept, interfaces),
    ensures
        all_belong(kept_upto(kept, interfaces, n), interfaces),
        names_agree(interfaces) && own_labels(kept) ==> own_labels(
            kept_upto(kept, interfaces, n),
        ),
    decreases n,
{
    if n > 0 {
        lemma_kept_upto(kept, interfaces, n - 1);
        lemma_interface_shown(kept_upto(kept, interfaces, n - 1), interfaces, n - 1);
    }
}

proof fn lemma_same_groups(
    a: Seq<KeptModel>,
    b: Seq<KeptModel>,
    interfaces: Seq<NicInterface>,
    n: int,
)
    requires
        0 <= n <= interfaces.len(),
        names_agree(interfaces),
        all_belong(a, interfaces),
        all_belong(b, interfaces),
        own_labels(a),
        own_labels(b),
    ensures
        state_groups(a, interfaces, n) == state_groups(b, interfaces, n),
        statistics_groups(a, interfaces, n) == statistics_groups(b, interfaces, n),
    decreases n,
{
    if n > 0 {
        lemma_same_groups(a, b, interfaces, n - 1);
        lemma_kept_upto(a, interfaces, n - 1);
        lemma_kept_upto(b, interfaces, n - 1);
        lemma_interface_shown(kept_upto(a, interfaces, n - 1), interfaces, n - 1);
        lemma_interface_shown(kept_upto(b, interfaces, n - 1), interfaces, n - 1);
    }
}

/// Where interfaces of one name have one index, what is kept of earlier collections never
/// shows: the samples are those of a cache that holds nothing, and this stays so.
pub proof fn kept_labels_never_show(
    catalog: CatalogModel,
    kept: Seq<KeptModel>,
    collection: NicCollection,
    timing: CollectionTiming,
    settings: SampleModel,
)
    requires
        names_agree(collection.interfaces@),
        own_labels(kept),
    ensures
        nic_samples(catalog, kept, collection, timing, settings) == nic_samples(
            catalog,
            Seq::empty(),
            collection,
            timing,
            settings,
        ),
        own_labels(kept_after(kept, collection.interfaces@)),
{
    let all = collection.interfaces@;
    let none = Seq::<KeptModel>::empty();
    lemma_retained(kept, all, kept.len() as int);
    assert(kept_of(none, all) =~= none);
    lemma_same_groups(kept_of(kept, all), kept_of(none, all), all, all.len() as int);
    seqs::lemma_first_where(all, unnamed(), all.len() as int);
    let stop = match seqs::first_where(all, unnamed(), all.len() as int) {
        Some(i) => i,
        None => all.len() as int,
    };
    lemma_kept_upto(kept_of(kept, all), all, stop);
}

/// After a collection, nothing is kept but its interfaces.
pub proof fn gone_interfaces_are_forgotten(kept: Seq<KeptModel>, interfaces: Seq<NicInterface>)
    ensures
        all_belong(kept_after(kept, interfaces), interfaces),
{
    lemma_retained(kept, interfaces, kept.len() as int);
    seqs::lemma_first_where(interfaces, unnamed(), interfaces.len() as int);
    let stop = match seqs::first_where(interfaces, unnamed(), interfaces.len() as int) {
        Some(i) => i,
        None => interfaces.len() as int,
    };
    lemma_kept_upto(kept_of(kept, interfaces), interfaces, stop);
}

fn sample_state(
    catalog: &MetricCatalog,
    collection: &NicCollection,
    timing: CollectionTiming,
    groups: &Vec<Vec<SampleReading>>,
    Ghost(start): Ghost<Seq<KeptModel>>,
    order: &mut CanonicalReadingOrder,
) -> (sample: ProviderSample)
    requires
        old(order).wf(),
        groups.deep_view() == state_groups(
            start,
            collection.interfaces@,
            collection.interfaces@.len() as int,
        ),
    ensures
        final(order).wf(),
        sample.deep_view() == state_sample(catalog.deep_view(), start, *collection, timing),
{
    let bounded = interleave_readings(groups, MAX_READINGS_PER_PROVIDER);
    let BoundedInterfaceReadings { readings, omitted_primary, omitted_payload, .. } = bounded;
    let mut readings = readings;
    let ghost shown = readings.deep_view();
    order.reorder(&mut readings);
    proof {
        lemma_same_length(shown, readings.deep_view());
    }
    if readings.len() == 0 && collection.errors.len() > 0 {
        return error_sample(
            SYSFS_NIC,
            timing.finished_at,
            timing.collection_duration,
            MonitorErrorCode::Io,
            collection.errors[0].detail.as_str(),
        );
    }
    let health = assess_state(&collection.errors, omitted_primary, omitted_payload);
    proof {
        catalog::samples_ignore_the_order_of_readings(
            catalog.deep_view(),
            SYSFS_NIC@,
            timing.finished_at,
            timing.collection_duration,
            health.deep_view(),
            readings.deep_view(),
            shown,
        );
    }
    provider_sample(
        catalog,
        SYSFS_NIC,
        timing.finished_at,
        timing.collection_duration,
        health,
        readings,
    )
}

proof fn lemma_same_length(a: Seq<ReadingModel>, b: Seq<ReadingModel>)
    requires
        a.to_multiset() == b.to_multiset(),
    ensures
        a.len() == b.len(),
{
    broadcast use vstd::seq_lib::group_to_multiset_ensures;

    assert(a.len() == a.to_multiset().len() && b.len() == b.to_multiset().len());
}

fn sample_statistics(
    catalog: &MetricCatalog,
    collection: &NicCollection,
    timing: CollectionTiming,
    groups: &Vec<Vec<SampleReading>>,
    Ghost(start): Ghost<Seq<KeptModel>>,
    order: &mut CanonicalReadingOrder,
) -> (sample: ProviderSample)
    requires
        old(order).wf(),
        groups.deep_view() == statistics_groups(
            start,
            collection.interfaces@,
            collection.interfaces@.len() as int,
        ),
    ensures
        final(order).wf(),
        sample.deep_view() == statistics_sample(
            catalog.deep_view(),
            start,
            collection.interfaces@,
            timing,
        ),
{
    let ghost all = collection.interfaces@;
    proof {
        lemma_groups_have_status(start, all, all.len() as int);
    }
    let bounded = interleave_readings(groups, MAX_READINGS_PER_PROVIDER);
    let BoundedInterfaceReadings {
        readings,
        omitted_primary,
        omitted_payload,
        omitted_payload_by_group,
    } = bounded;
    let mut readings = readings;
    mark_cardinality_limited_statuses(
        &mut readings,
        NIC_ETHTOOL_STATISTICS_STATUS_METRIC_ID,
        groups,
        &omitted_payload_by_group,
    );
    let ghost shown = readings.deep_view();
    order.reorder(&mut readings);
    proof {
        lemma_same_length(shown, readings.deep_view());
    }
    let summary = summarize(&collection.interfaces);
    if readings.len() > 0 {
        let health = assess_statistics(
            &collection.interfaces,
            &summary,
            omitted_primary,
            omitted_payload,
        );
        proof {
            catalog::samples_ignore_the_order_of_readings(
                catalog.deep_view(),
                ETHTOOL_TEXT@,
                timing.finished_at,
                timing.collection_duration,
                health.deep_view(),
                readings.deep_view(),
                shown,
            );
        }
        return provider_sample(
            catalog,
            ETHTOOL_TEXT,
            timing.finished_at,
            timing.collection_duration,
            health,
            readings,
        );
    }
    if let Some(i) = summary.first_failure {
        return ethtool_error_sample(
            ETHTOOL_TEXT,
            timing,
            failure_at(&collection.interfaces, i),
        );
    }
    if let Some(i) = summary.first_partial {
        let (rejected, omitted) = rejected_at(&collection.interfaces, i);
        let mut words = owned("ethtool returned no usable statistics for ");
        words.append(collection.interfaces[i].interface.as_str());
        words.append(": ");
        push_decimal(&mut words, rejected as u128);
        words.append(" rejected lines, ");
        push_decimal(&mut words, omitted as u128);
        words.append(" omitted statistics");
        return error_sample(
            ETHTOOL_TEXT,
            timing.finished_at,
            timing.collection_duration,
            MonitorErrorCode::SchemaMismatch,
            words.as_str(),
        );
    }
    let words = if summary.hardware == 0 {
        "no hardware-backed network interface is visible"
    } else {
        "ethtool returned no bounded statistics"
    };
    error_sample(
        ETHTOOL_TEXT,
        timing.finished_at,
        timing.collection_duration,
        MonitorErrorCode::Unsupported,
        words,
    )
}

/// Whether an interface has nothing to do with settings.
pub open spec fn without_settings(interface: NicInterface) -> bool {
    interface.settings is NotHardwareInterface && interface.channels@.len() == 0
        && interface.fallback_settings@.len() == 0
}

/// How the settings of an interface went.
pub open spec fn settings_status(interface: NicInterface) -> Seq<char> {
    match interface.settings {
        EthtoolSettingsOutcome::NotHardwareInterface => "unsupported"@,
        EthtoolSettingsOutcome::RefreshPending => "refresh_pending"@,
        EthtoolSettingsOutcome::Collected(_) => "complete"@,
        EthtoolSettingsOutcome::Partial { .. } => "partial_schema_mismatch"@,
        EthtoolSettingsOutcome::Failed(failure) => failure_status(failure),
    }
}

/// The fields that `ethtool` gave.
pub open spec fn own_fields(interface: NicInterface) -> Seq<EthtoolSetting> {
    match interface.settings {
        EthtoolSettingsOutcome::Collected(settings) => settings.fields@,
        EthtoolSettingsOutcome::Partial { settings, .. } => settings.fields@,
        _ => Seq::empty(),
    }
}

/// The readings of the first `n` fields; one without a valid name or value is left
/// out.
pub open spec fn setting_readings(interface: NicInterface, fields: Seq<EthtoolSetting>, n: int) -> Seq<
    ReadingModel,
>
    decreases n,
{
    if n <= 0 {
        Seq::empty()
    } else {
        let before = setting_readings(interface, fields, n - 1);
        match statistic_labels(interface.interface@, interface.ifindex, fields[n - 1].name@) {
            Ok(labels) if model::valid_value(fields[n - 1].value@) => before.push(
                state_reading(RAW_NIC_SETTING_METRIC_ID@, labels, fields[n - 1].value@),
            ),
            _ => before,
        }
    }
}

/// The readings of all fields.
pub open spec fn all_settings(interface: NicInterface, fields: Seq<EthtoolSetting>) -> Seq<
    ReadingModel,
> {
    setting_readings(interface, fields, fields.len() as int)
}

/// The settings readings of an interface: first the status, then what `ethtool`
/// gave, then what is known without it.
pub open spec fn settings_group(interface: NicInterface) -> Seq<ReadingModel> {
    let labels = translate::interface_labels_of(interface.interface@, interface.ifindex)->Ok_0;
    seq![
        state_reading(
            NIC_ETHTOOL_SETTINGS_STATUS_METRIC_ID@,
            labels,
            settings_status(interface),
        ),
    ] + all_settings(interface, own_fields(interface)) + all_settings(
        interface,
        interface.channels@,
    ) + all_settings(interface, interface.fallback_settings@)
}

/// The settings groups of the first `n` interfaces.
pub open spec fn settings_groups(interfaces: Seq<NicInterface>, n: int) -> Seq<Seq<ReadingModel>>
    decreases n,
{
    if n <= 0 {
        Seq::empty()
    } else if without_settings(interfaces[n - 1]) {
        settings_groups(interfaces, n - 1)
    } else {
        settings_groups(interfaces, n - 1).push(settings_group(interfaces[n - 1]))
    }
}

pub open spec fn settings_failed() -> spec_fn(NicInterface) -> bool {
    |interface: NicInterface| interface.settings is Failed
}

pub open spec fn settings_partial() -> spec_fn(NicInterface) -> bool {
    |interface: NicInterface| interface.settings is Partial
}

pub open spec fn settings_pending() -> spec_fn(NicInterface) -> bool {
    |interface: NicInterface| interface.settings is RefreshPending
}

pub open spec fn with_settings() -> spec_fn(NicInterface) -> bool {
    |interface: NicInterface| !without_settings(interface)
}

pub open spec fn settings_failure_of(interface: NicInterface) -> EthtoolFailure {
    match interface.settings {
        EthtoolSettingsOutcome::Failed(failure) => failure,
        _ => EthtoolFailure::InvalidOutput,
    }
}

pub open spec fn settings_rejected_of(interface: NicInterface) -> usize {
    match interface.settings {
        EthtoolSettingsOutcome::Partial { rejected_lines, .. } => rejected_lines,
        _ => 0,
    }
}

/// What is said when settings did not fit.
pub open spec fn settings_limit_words(
    interfaces: Seq<NicInterface>,
    statuses: nat,
    fields: nat,
) -> Seq<char> {
    let limit = "ethtool settings cardinality limit "@ + text::decimal(
        MAX_READINGS_PER_PROVIDER as nat,
    ) + "; omitted "@;
    let omitted = if statuses > 0 {
        limit + text::decimal(statuses) + " interface statuses, "@
    } else {
        limit
    };
    let issues = omitted + text::decimal(fields) + " setting fields; failures "@ + text::decimal(
        count(interfaces, settings_failed()),
    ) + "; schema partials "@ + text::decimal(count(interfaces, settings_partial()))
        + "; pending "@ + text::decimal(count(interfaces, settings_pending()));
    let failures = match first(interfaces, settings_failed()) {
        Some(interface) => issues + "; first failure "@ + interface.interface@ + ": "@
            + failure_status(settings_failure_of(interface)),
        None => issues,
    };
    match first(interfaces, settings_partial()) {
        Some(interface) => failures + "; first schema partial "@ + interface.interface@
            + ": rejected="@ + text::decimal(settings_rejected_of(interface) as nat),
        None => failures,
    }
}

pub open spec fn settings_issue_words(interfaces: Seq<NicInterface>) -> Seq<char> {
    text::decimal(
        count(interfaces, settings_failed()) + count(interfaces, settings_partial()) + count(
            interfaces,
            settings_pending(),
        ),
    ) + "/"@ + text::decimal(count(interfaces, with_settings()))
}

/// The health of the settings provider.
pub open spec fn settings_health(
    interfaces: Seq<NicInterface>,
    statuses: nat,
    fields: nat,
) -> ProviderHealth<Seq<char>> {
    if statuses > 0 || fields > 0 {
        ProviderHealth::Partial {
            warning: diagnostics::error_with(
                MonitorErrorCode::CardinalityLimit,
                settings_limit_words(interfaces, statuses, fields),
            ),
        }
    } else {
        match (
            first(interfaces, settings_failed()),
            first(interfaces, settings_partial()),
            first(interfaces, settings_pending()),
        ) {
            (Some(interface), _, _) => ProviderHealth::Partial {
                warning: diagnostics::error_with(
                    failure_class(settings_failure_of(interface)).0,
                    settings_issue_words(interfaces)
                        + " hardware interface ethtool setting results incomplete; first "@
                        + interface.interface@ + ": "@ + failure_words(
                        settings_failure_of(interface),
                    ),
                ),
            },
            (None, Some(interface), _) => ProviderHealth::Partial {
                warning: diagnostics::error_with(
                    MonitorErrorCode::SchemaMismatch,
                    settings_issue_words(interfaces)
                        + " hardware interface ethtool setting results partial; first "@
                        + interface.interface@ + ": "@ + text::decimal(
                        settings_rejected_of(interface) as nat,
                    ) + " rejected lines"@,
                ),
            },
            (None, None, Some(interface)) => ProviderHealth::Partial {
                warning: diagnostics::error_with(
                    MonitorErrorCode::Internal,
                    settings_issue_words(interfaces)
                        + " hardware interface ethtool setting results pending after collection; first "@
                        + interface.interface@,
                ),
            },
            (None, None, None) => ProviderHealth::Fresh,
        }
    }
}

/// The timing of the settings: without interfaces to ask, asking cost nothing.
pub open spec fn settings_timing(
    interfaces: Seq<NicInterface>,
    timing: CollectionTiming,
) -> CollectionTiming {
    if count(interfaces, with_settings()) == 0 {
        CollectionTiming { finished_at: timing.finished_at, collection_duration: 0 }
    } else {
        timing
    }
}

/// Whether every interface that has settings has a name that can be a label.
pub open spec fn settings_named(interfaces: Seq<NicInterface>) -> bool {
    forall|i: int|
        0 <= i < interfaces.len() ==> without_settings(#[trigger] interfaces[i]) || is_named(
            interfaces[i],
        )
}

/// The sample of the settings provider.
pub open spec fn settings_sample(
    catalog: CatalogModel,
    interfaces: Seq<NicInterface>,
    timing: CollectionTiming,
) -> SampleModel {
    if !settings_named(interfaces) {
        unnamed_sample(ETHTOOL_LINK_TEXT@, timing)
    } else {
        let groups = settings_groups(interfaces, interfaces.len() as int);
        let limit = MAX_READINGS_PER_PROVIDER as int;
        let n = groups.len() as int;
        let readings = marked_readings(groups, NIC_ETHTOOL_SETTINGS_STATUS_METRIC_ID@);
        let at = settings_timing(interfaces, timing);
        if readings.len() > 0 {
            diagnostics::sample_or_failure(
                catalog,
                ETHTOOL_LINK_TEXT@,
                at.finished_at,
                at.collection_duration,
                settings_health(
                    interfaces,
                    interleave::primaries_upto(groups, limit, n),
                    interleave::capped(interleave::payload_upto(groups, limit, n)) as nat,
                ),
                readings,
            )
        } else {
            match first(interfaces, settings_failed()) {
                Some(interface) => failure_sample(
                    ETHTOOL_LINK_TEXT@,
                    at,
                    settings_failure_of(interface),
                ),
                None => diagnostics::failed_sample(
                    ETHTOOL_LINK_TEXT@,
                    at.finished_at,
                    at.collection_duration,
                    MonitorErrorCode::Unsupported,
                    if count(interfaces, with_settings()) == 0 {
                        "no hardware-backed network interface is visible"@
                    } else {
                        "ethtool returned no bounded link settings"@
                    },
                ),
            }
        }
    }
}

/// Appends the readings of fields.
fn append_ethtool_setting_readings(
    interface: &NicInterface,
    fields: &Vec<EthtoolSetting>,
    readings: &mut Vec<SampleReading>,
)
    ensures
        final(readings).deep_view() == old(readings).deep_view() + all_settings(
            *interface,
            fields@,
        ),
{
    let ghost given = readings.deep_view();
    assert(given + Seq::<ReadingModel>::empty() =~= given);
    for i in 0..fields.len()
        invariant
            readings.deep_view() == given + setting_readings(*interface, fields@, i as int),
    {
        let field = &fields[i];
        let ghost shown = setting_readings(*interface, fields@, i as int);
        if let Ok(labels) = nic_statistic_labels(
            interface.interface.as_str(),
            interface.ifindex,
            field.name.as_str(),
        ) {
            if model::is_bounded_printable(field.value.as_str(), model::MAX_LABEL_VALUE_BYTES) {
                let ghost before = *readings;
                readings.push(
                    state_of(RAW_NIC_SETTING_METRIC_ID, labels, field.value.as_str()),
                );
                proof {
                    seqs::lemma_deep_push(before, *readings);
                    assert((given + shown).push(readings@.last().deep_view()) =~= given
                        + shown.push(readings@.last().deep_view()));
                }
            }
        }
    }
}

/// The settings readings of an interface.
fn build_settings_group(interface: &NicInterface, labels: MetricLabels) -> (group: Vec<
    SampleReading,
>)
    requires
        translate::interface_labels_of(interface.interface@, interface.ifindex) == Ok::<
            LabelsModel,
            MonitorValidationError,
        >(labels.deep_view()),
    ensures
        group.deep_view() == settings_group(*interface),
{
    let status = match &interface.settings {
        EthtoolSettingsOutcome::NotHardwareInterface => "unsupported",
        EthtoolSettingsOutcome::RefreshPending => "refresh_pending",
        EthtoolSettingsOutcome::Collected(_) => "complete",
        EthtoolSettingsOutcome::Partial { .. } => "partial_schema_mismatch",
        EthtoolSettingsOutcome::Failed(failure) => ethtool_failure_status(failure),
    };
    let mut group: Vec<SampleReading> = Vec::new();
    group.push(ethtool_status_reading(NIC_ETHTOOL_SETTINGS_STATUS_METRIC_ID, labels, status));
    let ghost shown = group.deep_view();
    assert(shown =~= seq![
        state_reading(
            NIC_ETHTOOL_SETTINGS_STATUS_METRIC_ID@,
            labels.deep_view(),
            settings_status(*interface),
        ),
    ]);
    match &interface.settings {
        EthtoolSettingsOutcome::Collected(settings) => {
            append_ethtool_setting_readings(interface, &settings.fields, &mut group);
        },
        EthtoolSettingsOutcome::Partial { settings, .. } => {
            append_ethtool_setting_readings(interface, &settings.fields, &mut group);
        },
        _ => {
            assert(shown + all_settings(*interface, own_fields(*interface)) =~= shown);
        },
    }
    append_ethtool_setting_readings(interface, &interface.channels, &mut group);
    append_ethtool_setting_readings(interface, &interface.fallback_settings, &mut group);
    group
}

/// What the settings of a collection amount to.
struct SettingsSummary {
    interfaces: usize,
    failures: usize,
    first_failure: Option<usize>,
    partials: usize,
    first_partial: Option<usize>,
    pending: usize,
    first_pending: Option<usize>,
}

spec fn summarizes_settings(summary: SettingsSummary, interfaces: Seq<NicInterface>) -> bool {
    let n = interfaces.len() as int;
    &&& summary.interfaces == count(interfaces, with_settings())
    &&& summary.failures == count(interfaces, settings_failed())
    &&& summary.partials == count(interfaces, settings_partial())
    &&& summary.pending == count(interfaces, settings_pending())
    &&& summary.failures + summary.partials + summary.pending <= n
    &&& index_of(summary.first_failure) == seqs::first_where(interfaces, settings_failed(), n)
    &&& index_of(summary.first_partial) == seqs::first_where(interfaces, settings_partial(), n)
    &&& index_of(summary.first_pending) == seqs::first_where(interfaces, settings_pending(), n)
    &&& summary.first_failure matches Some(i) ==> i < n && interfaces[i as int].settings is Failed
    &&& summary.first_partial matches Some(i) ==> i < n && interfaces[i as int].settings is Partial
    &&& summary.first_pending matches Some(i) ==> i < n
}

fn summarize_settings(interfaces: &Vec<NicInterface>) -> (summary: SettingsSummary)
    ensures
        summarizes_settings(summary, interfaces@),
{
    let ghost all = interfaces@;
    let mut summary = SettingsSummary {
        interfaces: 0,
        failures: 0,
        first_failure: None,
        partials: 0,
        first_partial: None,
        pending: 0,
        first_pending: None,
    };
    for i in 0..interfaces.len()
        invariant
            all == interfaces@,
            summary.interfaces <= i,
            summary.interfaces == seqs::count_where(all, with_settings(), i as int),
            summary.failures == seqs::count_where(all, settings_failed(), i as int),
            summary.partials == seqs::count_where(all, settings_partial(), i as int),
            summary.pending == seqs::count_where(all, settings_pending(), i as int),
            summary.failures + summary.partials + summary.pending <= i,
            index_of(summary.first_failure) == seqs::first_where(all, settings_failed(), i as int),
            index_of(summary.first_partial) == seqs::first_where(all, settings_partial(), i as int),
            index_of(summary.first_pending) == seqs::first_where(all, settings_pending(), i as int),
            summary.first_failure matches Some(k) ==> k < i && all[k as int].settings is Failed,
            summary.first_partial matches Some(k) ==> k < i && all[k as int].settings is Partial,
            summary.first_pending matches Some(k) ==> k < i,
    {
        let interface = &interfaces[i];
        let empty: bool = interface.channels.len() == 0 && interface.fallback_settings.len() == 0;
        match &interface.settings {
            EthtoolSettingsOutcome::NotHardwareInterface => {
                if !empty {
                    summary.interfaces += 1;
                }
            },
            EthtoolSettingsOutcome::RefreshPending => {
                summary.interfaces += 1;
                summary.pending += 1;
                if summary.first_pending.is_none() {
                    summary.first_pending = Some(i);
                }
            },
            EthtoolSettingsOutcome::Collected(_) => {
                summary.interfaces += 1;
            },
            EthtoolSettingsOutcome::Partial { .. } => {
                summary.interfaces += 1;
                summary.partials += 1;
                if summary.first_partial.is_none() {
                    summary.first_partial = Some(i);
                }
            },
            EthtoolSettingsOutcome::Failed(_) => {
                summary.interfaces += 1;
                summary.failures += 1;
                if summary.first_failure.is_none() {
                    summary.first_failure = Some(i);
                }
            },
        }
    }
    summary
}

fn settings_failure_at(interfaces: &Vec<NicInterface>, i: usize) -> (failure: &EthtoolFailure)
    requires
        i < interfaces.len(),
        interfaces@[i as int].settings is Failed,
    ensures
        *failure == settings_failure_of(interfaces@[i as int]),
{
    match &interfaces[i].settings {
        EthtoolSettingsOutcome::Failed(failure) => failure,
        _ => &EthtoolFailure::InvalidOutput,
    }
}

fn settings_rejected_at(interfaces: &Vec<NicInterface>, i: usize) -> (rejected: usize)
    requires
        i < interfaces.len(),
    ensures
        rejected == settings_rejected_of(interfaces@[i as int]),
{
    match &interfaces[i].settings {
        EthtoolSettingsOutcome::Partial { rejected_lines, .. } => *rejected_lines,
        _ => 0,
    }
}

fn describe_settings_limit(
    interfaces: &Vec<NicInterface>,
    summary: &SettingsSummary,
    statuses: usize,
    fields: usize,
) -> (words: String)
    requires
        summarizes_settings(*summary, interfaces@),
    ensures
        words@ == settings_limit_words(interfaces@, statuses as nat, fields as nat),
{
    let mut words = owned("ethtool settings cardinality limit ");
    push_decimal(&mut words, MAX_READINGS_PER_PROVIDER as u128);
    words.append("; omitted ");
    if statuses > 0 {
        push_decimal(&mut words, statuses as u128);
        words.append(" interface statuses, ");
    }
    push_decimal(&mut words, fields as u128);
    words.append(" setting fields; failures ");
    push_decimal(&mut words, summary.failures as u128);
    words.append("; schema partials ");
    push_decimal(&mut words, summary.partials as u128);
    words.append("; pending ");
    push_decimal(&mut words, summary.pending as u128);
    if let Some(i) = summary.first_failure {
        words.append("; first failure ");
        words.append(interfaces[i].interface.as_str());
        words.append(": ");
        words.append(ethtool_failure_status(settings_failure_at(interfaces, i)));
    }
    if let Some(i) = summary.first_partial {
        let rejected: usize = settings_rejected_at(interfaces, i);
        words.append("; first schema partial ");
        words.append(interfaces[i].interface.as_str());
        words.append(": rejected=");
        push_decimal(&mut words, rejected as u128);
    }
    words
}

fn assess_settings(
    interfaces: &Vec<NicInterface>,
    summary: &SettingsSummary,
    statuses: usize,
    fields: usize,
) -> (health: ProviderHealth<String>)
    requires
        summarizes_settings(*summary, interfaces@),
    ensures
        health.deep_view() == settings_health(interfaces@, statuses as nat, fields as nat),
{
    if statuses > 0 || fields > 0 {
        let words = describe_settings_limit(interfaces, summary, statuses, fields);
        return ProviderHealth::Partial {
            warning: monitor_error(MonitorErrorCode::CardinalityLimit, words.as_str()),
        };
    }
    let mut words = decimal_text(
        summary.failures as u128 + summary.partials as u128 + summary.pending as u128,
    );
    words.append("/");
    push_decimal(&mut words, summary.interfaces as u128);
    if let Some(i) = summary.first_failure {
        let failure = settings_failure_at(interfaces, i);
        words.append(" hardware interface ethtool setting results incomplete; first ");
        words.append(interfaces[i].interface.as_str());
        words.append(": ");
        let reason = describe_failure(failure);
        words.append(reason.as_str());
        let (code, _) = ethtool_failure_class(failure);
        return ProviderHealth::Partial { warning: monitor_error(code, words.as_str()) };
    }
    if let Some(i) = summary.first_partial {
        let rejected: usize = settings_rejected_at(interfaces, i);
        words.append(" hardware interface ethtool setting results partial; first ");
        words.append(interfaces[i].interface.as_str());
        words.append(": ");
        push_decimal(&mut words, rejected as u128);
        words.append(" rejected lines");
        return ProviderHealth::Partial {
            warning: monitor_error(MonitorErrorCode::SchemaMismatch, words.as_str()),
        };
    }
    if let Some(i) = summary.first_pending {
        words.append(
            " hardware interface ethtool setting results pending after collection; first ",
        );
        words.append(interfaces[i].interface.as_str());
        return ProviderHealth::Partial {
            warning: monitor_error(MonitorErrorCode::Internal, words.as_str()),
        };
    }
    ProviderHealth::Fresh
}

/// Every settings group starts with a status, so none is empty.
proof fn lemma_settings_have_status(interfaces: Seq<NicInterface>, n: int)
    requires
        0 <= n <= interfaces.len(),
    ensures
        forall|g: int|
            0 <= g < settings_groups(interfaces, n).len() ==> (#[trigger] settings_groups(
                interfaces,
                n,
            )[g]).len() > 0,
    decreases n,
{
    if n > 0 {
        lemma_settings_have_status(interfaces, n - 1);
        let before = settings_groups(interfaces, n - 1);
        let after = settings_groups(interfaces, n);
        assert forall|g: int| 0 <= g < after.len() implies (#[trigger] after[g]).len() > 0 by {
            if g < before.len() {
                assert(after[g] == before[g]);
            }
        }
    }
}

/// The sample of the settings of a collection.
pub fn translate_nic_settings(
    catalog: &MetricCatalog,
    collection: &NicCollection,
    timing: CollectionTiming,
) -> (sample: ProviderSample)
    ensures
        sample.deep_view() == settings_sample(catalog.deep_view(), collection.interfaces@, timing),
{
    let ghost all = collection.interfaces@;
    let mut groups: Vec<Vec<SampleReading>> = Vec::new();
    assert(groups.deep_view() =~= Seq::<Seq<ReadingModel>>::empty());
    for i in 0..collection.interfaces.len()
        invariant
            all == collection.interfaces@,
            forall|k: int| 0 <= k < i ==> without_settings(#[trigger] all[k]) || is_named(all[k]),
            groups.deep_view() == settings_groups(all, i as int),
    {
        let interface = &collection.interfaces[i];
        let asked: bool = match &interface.settings {
            EthtoolSettingsOutcome::NotHardwareInterface => false,
            _ => true,
        };
        if asked || interface.channels.len() > 0 || interface.fallback_settings.len() > 0 {
            match interface_labels(interface.interface.as_str(), interface.ifindex) {
                Err(error) => {
                    assert(!is_named(all[i as int]) && !without_settings(all[i as int]));
                    return error_sample(
                        ETHTOOL_LINK_TEXT,
                        timing.finished_at,
                        timing.collection_duration,
                        MonitorErrorCode::Internal,
                        explain(error),
                    );
                },
                Ok(labels) => {
                    let group = build_settings_group(interface, labels);
                    let ghost before = groups;
                    groups.push(group);
                    proof {
                        seqs::lemma_deep_push(before, groups);
                    }
                },
            }
        }
    }
    proof {
        lemma_settings_have_status(all, all.len() as int);
    }
    let bounded = interleave_readings(&groups, MAX_READINGS_PER_PROVIDER);
    let BoundedInterfaceReadings {
        readings,
        omitted_primary,
        omitted_payload,
        omitted_payload_by_group,
    } = bounded;
    let mut readings = readings;
    mark_cardinality_limited_statuses(
        &mut readings,
        NIC_ETHTOOL_SETTINGS_STATUS_METRIC_ID,
        &groups,
        &omitted_payload_by_group,
    );
    let summary = summarize_settings(&collection.interfaces);
    let at = if summary.interfaces == 0 {
        CollectionTiming { finished_at: timing.finished_at, collection_duration: 0 }
    } else {
        timing
    };
    if readings.len() > 0 {
        let health = assess_settings(
            &collection.interfaces,
            &summary,
            omitted_primary,
            omitted_payload,
        );
        return provider_sample(
            catalog,
            ETHTOOL_LINK_TEXT,
            at.finished_at,
            at.collection_duration,
            health,
            readings,
        );
    }
    if let Some(i) = summary.first_failure {
        return ethtool_error_sample(
            ETHTOOL_LINK_TEXT,
            at,
            settings_failure_at(&collection.interfaces, i),
        );
    }
    let words = if summary.interfaces == 0 {
        "no hardware-backed network interface is visible"
    } else {
        "ethtool returned no bounded link settings"
    };
    error_sample(
        ETHTOOL_LINK_TEXT,
        at.finished_at,
        at.collection_duration,
        MonitorErrorCode::Unsupported,
        words,
    )
}

/// The inventory of the first `n` interfaces: by name, the index and whether it is
/// hardware.
pub open spec fn inventory(interfaces: Seq<NicInterface>, n: int) -> Map<Seq<char>, (u32, bool)>
    decreases n,
{
    if n <= 0 {
        Map::empty()
    } else {
        inventory(interfaces, n - 1).insert(
            interfaces[n - 1].interface@,
            (interfaces[n - 1].ifindex, interfaces[n - 1].hardware_backed),
        )
    }
}

/// Whether an interface is in the inventory as it is now.
pub open spec fn is_listed(known: Map<Seq<char>, (u32, bool)>, interface: NicInterface) -> bool {
    known.dom().contains(interface.interface@) && known[interface.interface@] == (
        interface.ifindex,
        interface.hardware_backed,
    )
}

/// The settings that were collected last, and the interfaces they are of.
#[derive(Clone, Debug, PartialEq, Eq)]
pub struct NicSettingsCache {
    pub timing: Option<CollectionTiming>,
    pub interfaces: TextMap<(u32, bool)>,
    pub sample: Option<ProviderSample>,
}

impl NicSettingsCache {
    pub open spec fn wf(&self) -> bool {
        &&& self.interfaces.wf()
        &&& self.sample matches Some(kept) ==> kept.provider@ == ETHTOOL_LINK_TEXT@
    }

    /// Whether the kept settings are of exactly these interfaces.
    pub open spec fn covers(&self, interfaces: Seq<NicInterface>) -> bool {
        &&& self.sample is Some
        &&& interfaces.len() == self.interfaces.view().dom().len()
        &&& forall|i: int|
            0 <= i < interfaces.len() ==> is_listed(
                self.interfaces.view(),
                #[trigger] interfaces[i],
            )
    }

    pub fn new() -> (cache: NicSettingsCache)
        ensures
            cache.wf(),
            cache.timing is None,
            cache.sample is None,
            cache.interfaces.view() == Map::<Seq<char>, (u32, bool)>::empty(),
    {
        NicSettingsCache { timing: None, interfaces: TextMap::new(), sample: None }
    }

    /// Whether settings are to be collected again: they never were, or it was long
    /// ago.
    pub open spec fn is_due(&self, now: Nanos) -> bool {
        match self.timing {
            None => true,
            Some(timing) => now >= timing.finished_at && now - timing.finished_at
                >= NIC_SETTINGS_REFRESH_INTERVAL,
        }
    }

    pub fn refresh_due(&self, now: Nanos) -> (due: bool)
        ensures
            due == self.is_due(now),
    {
        match self.timing {
            None => true,
            Some(timing) => now.saturating_sub(timing.finished_at)
                >= NIC_SETTINGS_REFRESH_INTERVAL,
        }
    }

    /// Keeps the settings of a collection, with the time at which they were read.
    pub fn record(
        &mut self,
        catalog: &MetricCatalog,
        collection: &NicCollection,
        timing: CollectionTiming,
    )
        ensures
            final(self).wf(),
            final(self).timing == Some(timing),
            final(self).interfaces.view() == inventory(
                collection.interfaces@,
                collection.interfaces@.len() as int,
            ),
            final(self).sample matches Some(sample) && sample.deep_view() == settings_sample(
                catalog.deep_view(),
                collection.interfaces@,
                timing,
            ),
    {
        let mut known: TextMap<(u32, bool)> = TextMap::new();
        for i in 0..collection.interfaces.len()
            invariant
                known.wf(),
                known.view() == inventory(collection.interfaces@, i as int),
        {
            let interface = &collection.interfaces[i];
            known.insert(
                interface.interface.as_str(),
                (interface.ifindex, interface.hardware_backed),
            );
        }
        self.interfaces = known;
        self.sample = Some(translate_nic_settings(catalog, collection, timing));
        self.timing = Some(timing);
    }

    /// Whether a collection has exactly the interfaces that the kept settings are of.
    pub fn matches_inventory(&self, collection: &NicCollection) -> (matches: bool)
        requires
            self.wf(),
        ensures
            matches == self.covers(collection.interfaces@),
    {
        let ghost known = self.interfaces.view();
        let mut i: usize = 0;
        while i < collection.interfaces.len()
            invariant
                self.wf(),
                known == self.interfaces.view(),
                i <= collection.interfaces.len(),
                forall|k: int|
                    0 <= k < i ==> is_listed(known, #[trigger] collection.interfaces@[k]),
            decreases collection.interfaces.len() - i,
        {
            let interface = &collection.interfaces[i];
            match self.interfaces.get(interface.interface.as_str()) {
                None => {
                    assert(!is_listed(known, collection.interfaces@[i as int]));
                    return false;
                },
                Some((ifindex, hardware_backed)) => {
                    if ifindex != interface.ifindex || hardware_backed
                        != interface.hardware_backed {
                        assert(!is_listed(known, collection.interfaces@[i as int]));
                        return false;
                    }
                },
            }
            i += 1;
        }
        self.sample.is_some() && collection.interfaces.len() == self.interfaces.len()
    }

    /// Takes one collection. Settings that were read are kept; without them, the
    /// collection can be used only if it has the interfaces of the kept settings.
    /// Where it cannot, the result is `false`: the settings are to be read with the
    /// next collection, so that every row has one real time.
    pub fn accept(
        &mut self,
        catalog: &MetricCatalog,
        with_settings_read: bool,
        collection: &NicCollection,
        timing: CollectionTiming,
    ) -> (usable: bool)
        requires
            old(self).wf(),
        ensures
            final(self).wf(),
            with_settings_read ==> {
                &&& usable
                &&& final(self).timing == Some(timing)
                &&& final(self).interfaces.view() == inventory(
                    collection.interfaces@,
                    collection.interfaces@.len() as int,
                )
                &&& final(self).sample matches Some(sample) && sample.deep_view()
                    == settings_sample(catalog.deep_view(), collection.interfaces@, timing)
            },
            !with_settings_read ==> {
                &&& *final(self) == *old(self)
                &&& usable == old(self).covers(collection.interfaces@)
            },
    {
        if with_settings_read {
            self.record(catalog, collection, timing);
            return true;
        }
        self.matches_inventory(collection)
    }

    /// The settings to show with a collection: the kept ones, with the time at which
    /// they were read. Without any interface there is nothing to keep.
    pub fn current_sample(
        &self,
        catalog: &MetricCatalog,
        collection: &NicCollection,
        timing: CollectionTiming,
    ) -> (sample: ProviderSample)
        requires
            self.wf(),
        ensures
            sample.deep_view() == match self.sample {
                Some(kept) if self.interfaces.view().dom().len() > 0 => kept.deep_view(),
                _ => settings_sample(catalog.deep_view(), collection.interfaces@, timing),
            },
    {
        if self.interfaces.len() > 0 {
            if let Some(kept) = &self.sample {
                return kept.copy();
            }
        }
        translate_nic_settings(catalog, collection, timing)
    }
}

} // verus!
