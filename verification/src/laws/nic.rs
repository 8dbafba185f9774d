//! What network interfaces show: their state, their settings and their own statistics.
use crate::catalog::{CatalogModel, SampleModel};
use crate::diagnostics;
use crate::interleave;
use crate::model;
use crate::model::{
    KeyModel, LabelsModel, MetricLabel, MetricReading, MonitorErrorCode, Nanos, ProviderHealth,
    ReadingModel, ReadingOutcome, UnavailableReason,
};
use crate::nic;
use crate::nic::{
    EthtoolFailure, EthtoolOutcome, EthtoolSetting, EthtoolSettingsOutcome, KeptModel,
    NicCollection, NicCollectionError, NicInterface, NicSettingsCache, NicStatistics, OperState,
    StandardStatistic,
};
use crate::seqs;
use crate::text;
use crate::translate::CollectionTiming;
use vstd::prelude::*;

verus! {

/// Whether a reading says a word, or that there is none.
pub open spec fn states(
    reading: ReadingModel,
    metric: Seq<char>,
    value: Option<Seq<char>>,
    otherwise: UnavailableReason,
) -> bool {
    reading.key.metric == metric && match value {
        Some(value) => reading.outcome == ReadingOutcome::Observed(MetricReading::State(value)),
        None => reading.outcome == ReadingOutcome::<Seq<char>>::Unavailable(otherwise),
    }
}

/// Whether labels name an interface, and whether they name one of its fields too.
pub open spec fn names(
    labels: LabelsModel,
    interface: Seq<char>,
    ifindex: u32,
    field: Option<Seq<char>>,
) -> bool {
    &&& labels.len() == if field is Some {
        3nat
    } else {
        2nat
    }
    &&& labels[0].label == MetricLabel::Interface && labels[0].value == interface
    &&& labels[1].label == MetricLabel::Ifindex && labels[1].value == text::decimal(ifindex as nat)
    &&& field matches Some(field) ==> labels[2].label == MetricLabel::Statistic && labels[2].value
        == field
}

pub open spec fn number_of(value: Option<u32>) -> Option<Seq<char>> {
    if value is Some {
        Some(text::decimal(value->0 as nat))
    } else {
        None
    }
}

pub open spec fn driver_of(interface: NicInterface) -> Option<Seq<char>> {
    if interface.sysfs.driver is Some {
        Some(interface.sysfs.driver->0@)
    } else {
        None
    }
}

/// An interface says whether it is physical and whether it is up, and what the system knows
/// of its driver, its queues and its packet size; what is not known is said to be missing.
pub proof fn interfaces_say_what_they_are(interface: NicInterface)
    requires
        nic::is_named(interface),
    ensures
        ({
            let shown = nic::state_group(interface);
            let missing = UnavailableReason::Missing;
            &&& shown.len() == 7
            &&& states(
                shown[0],
                "linux.nic.interface_kind"@,
                Some(
                    if interface.hardware_backed {
                        "physical"@
                    } else {
                        "virtual"@
                    },
                ),
                missing,
            )
            &&& states(
                shown[1],
                "linux.nic.link_state"@,
                nic::shown_state(interface.operstate),
                UnavailableReason::InvalidValue,
            )
            &&& states(shown[2], "linux.nic.setting"@, driver_of(interface), missing)
            &&& states(
                shown[3],
                "linux.nic.setting"@,
                number_of(interface.sysfs.rx_queue_count),
                missing,
            )
            &&& states(
                shown[4],
                "linux.nic.setting"@,
                number_of(interface.sysfs.tx_queue_count),
                missing,
            )
            &&& states(
                shown[5],
                "linux.nic.setting"@,
                number_of(interface.sysfs.tx_queue_len),
                missing,
            )
            &&& shown[6].key.metric == "linux.nic.mtu"@
            &&& interface.sysfs.mtu is Some <==> shown[6].outcome is Observed
            &&& interface.sysfs.mtu matches Some(mtu) ==> shown[6].outcome
                == ReadingOutcome::<Seq<char>>::Observed(MetricReading::Gauge(mtu as u64))
            &&& interface.sysfs.mtu is None ==> shown[6].outcome == ReadingOutcome::<
                Seq<char>,
            >::Unavailable(missing)
        }),
        interface.hardware_backed <==> nic::state_group(interface)[0].outcome
            == ReadingOutcome::Observed(MetricReading::State("physical"@)),
{
    reveal_strlit("physical");
    reveal_strlit("virtual");
    assert("physical"@[0] != "virtual"@[0]);
}

/// The readings of an interface are labelled with its name and its index, and a setting also
/// with what it is a setting of.
pub proof fn settings_are_named(interface: NicInterface)
    requires
        nic::is_named(interface),
    ensures
        ({
            let shown = nic::state_group(interface);
            let name = interface.interface@;
            let index = interface.ifindex;
            &&& names(shown[0].key.labels, name, index, None)
            &&& names(shown[1].key.labels, name, index, None)
            &&& names(shown[2].key.labels, name, index, Some("Driver"@))
            &&& names(shown[3].key.labels, name, index, Some("RX Queues"@))
            &&& names(shown[4].key.labels, name, index, Some("TX Queues"@))
            &&& names(shown[5].key.labels, name, index, Some("TX Queue Length"@))
            &&& names(shown[6].key.labels, name, index, None)
        }),
{
    reveal_strlit("Driver");
    reveal_strlit("RX Queues");
    reveal_strlit("TX Queues");
    reveal_strlit("TX Queue Length");
    assert(model::valid_value("Driver"@));
    assert(model::valid_value("RX Queues"@));
    assert(model::valid_value("TX Queues"@));
    assert(model::valid_value("TX Queue Length"@));
}

/// The state of a link is shown by its own word; a state that has none is not shown.
pub proof fn link_states_have_their_words(state: OperState)
    ensures
        state is Up <==> nic::shown_state(state) == Some("up"@),
        state is Down <==> nic::shown_state(state) == Some("down"@),
        state is Unknown <==> nic::shown_state(state) == Some("unknown"@),
        state is Dormant <==> nic::shown_state(state) == Some("dormant"@),
        state is LowerLayerDown <==> nic::shown_state(state) == Some("lower_layer_down"@),
        state is NotPresent <==> nic::shown_state(state) == Some("not_present"@),
        state is Testing <==> nic::shown_state(state) == Some("testing"@),
        (state is Other || state is Unavailable) <==> nic::shown_state(state) is None,
{
    reveal_strlit("up");
    reveal_strlit("down");
    reveal_strlit("unknown");
    reveal_strlit("dormant");
    reveal_strlit("lower_layer_down");
    reveal_strlit("not_present");
    reveal_strlit("testing");
    assert("up"@.len() == 2);
    assert("down"@.len() == 4);
    assert("unknown"@.len() == 7 && "unknown"@[0] == 'u');
    assert("dormant"@.len() == 7 && "dormant"@[0] == 'd');
    assert("lower_layer_down"@.len() == 16);
    assert("not_present"@.len() == 11);
    assert("testing"@.len() == 7 && "testing"@[0] == 't');
}

/// Every statistic of the kernel has its own name.
pub proof fn statistics_have_their_names(statistic: StandardStatistic)
    ensures
        statistic is RxPackets <==> nic::standard_name(statistic) == "rx_packets"@,
        statistic is TxPackets <==> nic::standard_name(statistic) == "tx_packets"@,
        statistic is RxBytes <==> nic::standard_name(statistic) == "rx_bytes"@,
        statistic is TxBytes <==> nic::standard_name(statistic) == "tx_bytes"@,
        statistic is RxErrors <==> nic::standard_name(statistic) == "rx_errors"@,
        statistic is TxErrors <==> nic::standard_name(statistic) == "tx_errors"@,
        statistic is RxDropped <==> nic::standard_name(statistic) == "rx_dropped"@,
        statistic is TxDropped <==> nic::standard_name(statistic) == "tx_dropped"@,
{
    reveal_strlit("rx_packets");
    reveal_strlit("tx_packets");
    reveal_strlit("rx_bytes");
    reveal_strlit("tx_bytes");
    reveal_strlit("rx_errors");
    reveal_strlit("tx_errors");
    reveal_strlit("rx_dropped");
    reveal_strlit("tx_dropped");
    assert("rx_packets"@[0] == 'r' && "rx_packets"@[3] == 'p');
    assert("tx_packets"@[0] == 't' && "tx_packets"@[3] == 'p');
    assert("rx_bytes"@[0] == 'r' && "rx_bytes"@[3] == 'b');
    assert("tx_bytes"@[0] == 't' && "tx_bytes"@[3] == 'b');
    assert("rx_errors"@[0] == 'r' && "rx_errors"@[3] == 'e');
    assert("tx_errors"@[0] == 't' && "tx_errors"@[3] == 'e');
    assert("rx_dropped"@[0] == 'r' && "rx_dropped"@[3] == 'd');
    assert("tx_dropped"@[0] == 't' && "tx_dropped"@[3] == 'd');
}

/// Whether a reading is the value of a statistic of an interface.
pub open spec fn is_statistic(
    reading: ReadingModel,
    interface: NicInterface,
    name: Seq<char>,
    value: u64,
) -> bool {
    &&& reading.key.metric == "linux.nic.driver_statistic"@
    &&& names(reading.key.labels, interface.interface@, interface.ifindex, Some(name))
    &&& reading.outcome == ReadingOutcome::<Seq<char>>::Observed(MetricReading::Gauge(value))
}

/// The statistics of an interface are those of the kernel, by their names, and those of its
/// driver after them.
pub proof fn statistics_are_of_the_kernel_and_the_driver(statistics: NicStatistics, i: int)
    ensures
        nic::statistic_count(statistics) == statistics.standard@.len()
            + statistics.private@.len(),
        0 <= i < statistics.standard@.len() ==> nic::statistic_name(statistics, i)
            == nic::standard_name(statistics.standard@[i].statistic) && nic::statistic_value(
            statistics,
            i,
        ) == statistics.standard@[i].value,
        0 <= i < statistics.private@.len() ==> {
            let at = statistics.standard@.len() + i;
            &&& nic::statistic_name(statistics, at) == statistics.private@[i].name@
            &&& nic::statistic_value(statistics, at) == statistics.private@[i].value
        },
{
}

/// Every statistic whose name can be shown is shown with its value.
pub proof fn statistics_are_shown(
    interface: NicInterface,
    statistics: NicStatistics,
    n: int,
    i: int,
)
    requires
        nic::is_named(interface),
        0 <= i < n,
        model::valid_value(nic::statistic_name(statistics, i)),
    ensures
        exists|r: int|
            0 <= r < nic::statistic_readings(interface, statistics, n).len() && is_statistic(
                #[trigger] nic::statistic_readings(interface, statistics, n)[r],
                interface,
                nic::statistic_name(statistics, i),
                nic::statistic_value(statistics, i),
            ),
    decreases n,
{
    let before = nic::statistic_readings(interface, statistics, n - 1);
    let all = nic::statistic_readings(interface, statistics, n);
    if i == n - 1 {
        assert(is_statistic(
            all[before.len() as int],
            interface,
            nic::statistic_name(statistics, i),
            nic::statistic_value(statistics, i),
        ));
    } else {
        statistics_are_shown(interface, statistics, n - 1, i);
        let r = choose|r: int|
            0 <= r < before.len() && is_statistic(
                #[trigger] before[r],
                interface,
                nic::statistic_name(statistics, i),
                nic::statistic_value(statistics, i),
            );
        assert(all[r] == before[r]);
    }
}

/// Nothing is shown that is not a statistic of the interface.
pub proof fn only_statistics_are_shown(
    interface: NicInterface,
    statistics: NicStatistics,
    n: int,
    r: int,
)
    requires
        nic::is_named(interface),
        0 <= r < nic::statistic_readings(interface, statistics, n).len(),
    ensures
        exists|i: int|
            0 <= i < n && model::valid_value(nic::statistic_name(statistics, i)) && is_statistic(
                nic::statistic_readings(interface, statistics, n)[r],
                interface,
                #[trigger] nic::statistic_name(statistics, i),
                nic::statistic_value(statistics, i),
            ),
    decreases n,
{
    let before = nic::statistic_readings(interface, statistics, n - 1);
    let all = nic::statistic_readings(interface, statistics, n);
    if r < before.len() {
        assert(all[r] == before[r]);
        only_statistics_are_shown(interface, statistics, n - 1, r);
        let i = choose|i: int|
            0 <= i < n - 1 && model::valid_value(nic::statistic_name(statistics, i))
                && is_statistic(
                before[r],
                interface,
                #[trigger] nic::statistic_name(statistics, i),
                nic::statistic_value(statistics, i),
            );
        assert(is_statistic(
            all[r],
            interface,
            nic::statistic_name(statistics, i),
            nic::statistic_value(statistics, i),
        ));
    } else {
        assert(is_statistic(
            all[r],
            interface,
            nic::statistic_name(statistics, n - 1),
            nic::statistic_value(statistics, n - 1),
        ));
    }
}

/// A failure has a word of its own for each reason.
pub proof fn failures_have_their_words(failure: EthtoolFailure)
    ensures
        failure is CommandNotFound <==> nic::failure_status(failure) == "command_not_found"@,
        failure is PermissionDenied <==> nic::failure_status(failure) == "permission_denied"@,
        failure is Unsupported <==> nic::failure_status(failure) == "unsupported"@,
        failure is InterfaceUnavailable <==> nic::failure_status(failure)
            == "interface_unavailable"@,
        failure is TimedOut <==> nic::failure_status(failure) == "timed_out"@,
        failure is OutputTooLarge <==> nic::failure_status(failure) == "output_limit"@,
        failure is InvalidOutput <==> nic::failure_status(failure) == "invalid_output"@,
        failure is ExitFailure <==> nic::failure_status(failure) == "command_failed"@,
        failure is Io <==> nic::failure_status(failure) == "io_error"@,
{
    reveal_strlit("command_not_found");
    reveal_strlit("permission_denied");
    reveal_strlit("unsupported");
    reveal_strlit("interface_unavailable");
    reveal_strlit("timed_out");
    reveal_strlit("output_limit");
    reveal_strlit("invalid_output");
    reveal_strlit("command_failed");
    reveal_strlit("io_error");
    assert("command_not_found"@.len() == 17 && "command_not_found"@[0] == 'c');
    assert("permission_denied"@.len() == 17 && "permission_denied"@[0] == 'p');
    assert("unsupported"@.len() == 11);
    assert("interface_unavailable"@.len() == 21);
    assert("timed_out"@.len() == 9);
    assert("output_limit"@.len() == 12);
    assert("invalid_output"@.len() == 14 && "invalid_output"@[0] == 'i');
    assert("command_failed"@.len() == 14 && "command_failed"@[0] == 'c');
    assert("io_error"@.len() == 8);
}

/// A failure is of the kind that its reason is of: what is missing was not found, what is
/// forbidden is denied, what took too long timed out, what was too long passed a limit, and
/// what is not understood does not fit the schema. Only what is not supported is no fault.
pub proof fn failures_are_of_their_kind(failure: EthtoolFailure)
    ensures
        ({
            let code = nic::failure_class(failure).0;
            &&& code is NotFound <==> failure is CommandNotFound || failure is InterfaceUnavailable
            &&& failure is PermissionDenied ==> code is PermissionDenied
            &&& code is Unsupported <==> failure is Unsupported
            &&& code is Timeout <==> failure is TimedOut
            &&& code is OutputLimit <==> failure is OutputTooLarge
            &&& code is SchemaMismatch <==> failure is InvalidOutput
            &&& failure is Io ==> code is Io
            &&& failure is ExitFailure ==> code is Io || code is PermissionDenied
            &&& nic::failure_class(failure).1 <==> failure is Unsupported
        }),
{
}

/// What is said of a failure ends with what its command said.
pub proof fn failures_say_what_their_command_said(failure: EthtoolFailure)
    ensures
        failure matches EthtoolFailure::PermissionDenied { detail }
            ==> detail@.is_suffix_of(nic::failure_words(failure)),
        failure matches EthtoolFailure::Unsupported { detail }
            ==> detail@.is_suffix_of(nic::failure_words(failure)),
        failure matches EthtoolFailure::InterfaceUnavailable { detail }
            ==> detail@.is_suffix_of(nic::failure_words(failure)),
        failure matches EthtoolFailure::ExitFailure { code: _, detail }
            ==> detail@.is_suffix_of(nic::failure_words(failure)),
        failure matches EthtoolFailure::Io { detail }
            ==> detail@.is_suffix_of(nic::failure_words(failure)),
{
}

/// Statistics are complete, or cut, or they failed for a reason: lines that were not
/// understood are told before statistics that were left out.
pub proof fn statistics_say_how_they_were_read(interface: NicInterface)
    requires
        nic::is_hardware(interface),
    ensures
        ({
            let status = nic::statistics_status(interface);
            match interface.ethtool {
                EthtoolOutcome::Collected(_) => status == "complete"@,
                EthtoolOutcome::Partial { rejected_lines, .. } => (rejected_lines == 0 <==> status
                    == "partial_cardinality_limit"@) && (rejected_lines > 0 <==> status
                    == "partial_schema_mismatch"@),
                EthtoolOutcome::Failed(failure) => status == nic::failure_status(failure),
                EthtoolOutcome::NotHardwareInterface => false,
            }
        }),
        nic::is_hardware(interface) <==> !(interface.ethtool is NotHardwareInterface),
{
    reveal_strlit("partial_cardinality_limit");
    reveal_strlit("partial_schema_mismatch");
    assert("partial_cardinality_limit"@[8] == 'c');
    assert("partial_schema_mismatch"@[8] == 's');
}

/// Settings say how they were read, and an interface without any says that.
pub proof fn settings_say_how_they_were_read(interface: NicInterface)
    ensures
        ({
            let status = nic::settings_status(interface);
            match interface.settings {
                EthtoolSettingsOutcome::NotHardwareInterface => status == "unsupported"@,
                EthtoolSettingsOutcome::RefreshPending => status == "refresh_pending"@,
                EthtoolSettingsOutcome::Collected(_) => status == "complete"@,
                EthtoolSettingsOutcome::Partial { .. } => status == "partial_schema_mismatch"@,
                EthtoolSettingsOutcome::Failed(failure) => status == nic::failure_status(failure),
            }
        }),
        nic::without_settings(interface) <==> interface.settings is NotHardwareInterface
            && interface.channels@.len() == 0 && interface.fallback_settings@.len() == 0,
{
}

/// Whether a reading is a setting of an interface.
pub open spec fn is_setting(
    reading: ReadingModel,
    interface: NicInterface,
    field: EthtoolSetting,
) -> bool {
    &&& reading.key.metric == "linux.nic.setting"@
    &&& names(reading.key.labels, interface.interface@, interface.ifindex, Some(field.name@))
    &&& reading.outcome == ReadingOutcome::Observed(MetricReading::State(field.value@))
}

/// Every setting whose name and value can be shown is shown.
pub proof fn fields_are_shown(
    interface: NicInterface,
    fields: Seq<EthtoolSetting>,
    n: int,
    i: int,
)
    requires
        nic::is_named(interface),
        0 <= i < n,
        model::valid_value(fields[i].name@),
        model::valid_value(fields[i].value@),
    ensures
        exists|r: int|
            0 <= r < nic::setting_readings(interface, fields, n).len() && is_setting(
                #[trigger] nic::setting_readings(interface, fields, n)[r],
                interface,
                fields[i],
            ),
    decreases n,
{
    let before = nic::setting_readings(interface, fields, n - 1);
    let all = nic::setting_readings(interface, fields, n);
    if i == n - 1 {
        assert(is_setting(all[before.len() as int], interface, fields[i]));
    } else {
        fields_are_shown(interface, fields, n - 1, i);
        let r = choose|r: int|
            0 <= r < before.len() && is_setting(#[trigger] before[r], interface, fields[i]);
        assert(all[r] == before[r]);
    }
}

/// Nothing is shown that is not a setting of the interface.
pub proof fn only_fields_are_shown(
    interface: NicInterface,
    fields: Seq<EthtoolSetting>,
    n: int,
    r: int,
)
    requires
        nic::is_named(interface),
        0 <= r < nic::setting_readings(interface, fields, n).len(),
    ensures
        exists|i: int|
            0 <= i < n && is_setting(
                nic::setting_readings(interface, fields, n)[r],
                interface,
                #[trigger] fields[i],
            ),
    decreases n,
{
    let before = nic::setting_readings(interface, fields, n - 1);
    let all = nic::setting_readings(interface, fields, n);
    if r < before.len() {
        assert(all[r] == before[r]);
        only_fields_are_shown(interface, fields, n - 1, r);
        let i = choose|i: int|
            0 <= i < n - 1 && is_setting(before[r], interface, #[trigger] fields[i]);
        assert(is_setting(all[r], interface, fields[i]));
    } else {
        assert(is_setting(all[r], interface, fields[n - 1]));
    }
}

/// The settings of an interface begin with how they were read, and go on with the settings
/// of the device, those of its channels, and those that stand in for what was not read.
pub proof fn settings_hold_every_field(interface: NicInterface, field: EthtoolSetting)
    requires
        nic::is_named(interface),
        model::valid_value(field.name@),
        model::valid_value(field.value@),
        (interface.settings matches EthtoolSettingsOutcome::Collected(
            read,
        ) && read.fields@.contains(
            field,
        )) || (interface.settings matches EthtoolSettingsOutcome::Partial { settings: read, .. }
            && read.fields@.contains(field)) || interface.channels@.contains(field)
            || interface.fallback_settings@.contains(field),
    ensures
        states(
            nic::settings_group(interface)[0],
            "linux.nic.ethtool_settings_status"@,
            Some(nic::settings_status(interface)),
            UnavailableReason::Missing,
        ),
        names(
            nic::settings_group(interface)[0].key.labels,
            interface.interface@,
            interface.ifindex,
            None,
        ),
        exists|r: int|
            1 <= r < nic::settings_group(interface).len() && is_setting(
                #[trigger] nic::settings_group(interface)[r],
                interface,
                field,
            ),
{
    let own = nic::own_fields(interface);
    let channels = interface.channels@;
    let stand_ins = interface.fallback_settings@;
    let a = nic::all_settings(interface, own);
    let b = nic::all_settings(interface, channels);
    let c = nic::all_settings(interface, stand_ins);
    let all = nic::settings_group(interface);
    if own.contains(field) {
        let i = choose|i: int| 0 <= i < own.len() && own[i] == field;
        fields_are_shown(interface, own, own.len() as int, i);
        let r = choose|r: int| 0 <= r < a.len() && is_setting(#[trigger] a[r], interface, field);
        assert(all[1 + r] == a[r]);
    } else if channels.contains(field) {
        let i = choose|i: int| 0 <= i < channels.len() && channels[i] == field;
        fields_are_shown(interface, channels, channels.len() as int, i);
        let r = choose|r: int| 0 <= r < b.len() && is_setting(#[trigger] b[r], interface, field);
        assert(all[1 + a.len() + r] == b[r]);
    } else {
        let i = choose|i: int| 0 <= i < stand_ins.len() && stand_ins[i] == field;
        fields_are_shown(interface, stand_ins, stand_ins.len() as int, i);
        let r = choose|r: int| 0 <= r < c.len() && is_setting(#[trigger] c[r], interface, field);
        assert(all[1 + a.len() + b.len() + r] == c[r]);
    }
}

/// Every interface with settings has its group, in the order of the interfaces.
pub proof fn interfaces_have_their_settings(interfaces: Seq<NicInterface>, n: int, i: int)
    requires
        0 <= i < n <= interfaces.len(),
        !nic::without_settings(interfaces[i]),
    ensures
        nic::settings_groups(interfaces, n).contains(nic::settings_group(interfaces[i])),
        nic::settings_groups(interfaces, n).len() <= n,
    decreases n,
{
    let before = nic::settings_groups(interfaces, n - 1);
    let all = nic::settings_groups(interfaces, n);
    lemma_no_more_groups(interfaces, n);
    if i == n - 1 {
        assert(all[before.len() as int] == nic::settings_group(interfaces[i]));
    } else {
        interfaces_have_their_settings(interfaces, n - 1, i);
        let k = choose|k: int|
            0 <= k < before.len() && before[k] == nic::settings_group(interfaces[i]);
        assert(all[k] == before[k]);
    }
}

proof fn lemma_no_more_groups(interfaces: Seq<NicInterface>, n: int)
    ensures
        0 <= n ==> nic::settings_groups(interfaces, n).len() <= n,
    decreases n,
{
    if n > 0 {
        lemma_no_more_groups(interfaces, n - 1);
    }
}

/// Every interface has its group of states, in the order of the interfaces, and it is that
/// of the interface whatever was kept of it.
pub proof fn interfaces_have_their_states(
    kept: Seq<KeptModel>,
    interfaces: Seq<NicInterface>,
    n: int,
    i: int,
)
    requires
        0 <= i < n <= interfaces.len(),
    ensures
        nic::state_groups(kept, interfaces, n).len() == n,
        exists|index: u32|
            nic::state_groups(kept, interfaces, n)[i] == nic::state_group(
                #[trigger] nic::labelled(interfaces[i], index),
            ),
        forall|index: u32| #[trigger]
            nic::labelled(interfaces[i], index) == (NicInterface {
                ifindex: index,
                ..interfaces[i]
            }),
    decreases n,
{
    lemma_state_groups(kept, interfaces, n);
    if i < n - 1 {
        interfaces_have_their_states(kept, interfaces, n - 1, i);
    } else {
        let entry = nic::entry_for(nic::kept_upto(kept, interfaces, n - 1), interfaces[n - 1]);
        assert(nic::state_groups(kept, interfaces, n)[i] == nic::state_group(
            nic::labelled(interfaces[i], entry.ifindex),
        ));
    }
}

proof fn lemma_state_groups(kept: Seq<KeptModel>, interfaces: Seq<NicInterface>, n: int)
    ensures
        0 <= n ==> nic::state_groups(kept, interfaces, n).len() == n,
        forall|i: int|
            0 <= i < n - 1 ==> #[trigger] nic::state_groups(kept, interfaces, n)[i]
                == nic::state_groups(kept, interfaces, n - 1)[i],
    decreases n,
{
    if n > 0 {
        lemma_state_groups(kept, interfaces, n - 1);
    }
}

/// The statistics of an interface begin with how they were read, whatever was kept of it;
/// those that were read follow.
pub proof fn statistics_begin_with_how_they_were_read(interface: NicInterface, entry: KeptModel)
    requires
        nic::is_named(interface),
    ensures
        ({
            let group = nic::statistics_group(interface, entry);
            let shown = NicInterface { ifindex: entry.statistics_ifindex, ..interface };
            &&& states(
                group[0],
                "linux.nic.ethtool_statistics_status"@,
                Some(nic::statistics_status(interface)),
                UnavailableReason::Missing,
            )
            &&& names(group[0].key.labels, interface.interface@, entry.ifindex, None)
            &&& (
                interface.ethtool is NotHardwareInterface || interface.ethtool is Failed
            ) ==> group.len()
                == 1
            &&& interface.ethtool matches EthtoolOutcome::Collected(read) ==> group.skip(1)
                == nic::statistic_readings(shown, read, nic::statistic_count(read))
            &&& interface.ethtool matches EthtoolOutcome::Partial { statistics: read, .. }
                ==> group.skip(1) == nic::statistic_readings(
                shown,
                read,
                nic::statistic_count(read),
            )
        }),
{
    let group = nic::statistics_group(interface, entry);
    let shown = nic::labelled(interface, entry.statistics_ifindex);
    if let Some(read) = nic::statistics_of(interface) {
        assert(group.skip(1) =~= nic::statistic_readings(
            shown,
            read,
            nic::statistic_count(read),
        ));
    }
}

/// Where readings of an interface had to be left out, its status says so; every other
/// reading stays what it was.
pub proof fn left_out_readings_show_in_the_status(
    readings: Seq<ReadingModel>,
    metric: Seq<char>,
    groups: Seq<Seq<ReadingModel>>,
    limit: int,
    n: int,
    i: int,
)
    requires
        0 <= n,
        0 <= i < readings.len(),
    ensures
        ({
            let marked = nic::marked_upto(readings, metric, groups, limit, n);
            &&& marked.len() == readings.len()
            &&& marked[i].key == readings[i].key
            &&& marked[i].outcome == readings[i].outcome || marked[i].outcome
                == ReadingOutcome::Observed(MetricReading::State("partial_cardinality_limit"@))
            &&& marked[i].outcome != readings[i].outcome ==> exists|g: int|
                0 <= g < n && interleave::omitted_rows(groups, limit, g) != 0 && readings[i].key
                    == (KeyModel { metric, labels: (#[trigger] groups[g])[0].key.labels })
        }),
    decreases n,
{
    if n > 0 {
        let before = nic::marked_upto(readings, metric, groups, limit, n - 1);
        let labels = groups[n - 1][0].key.labels;
        left_out_readings_show_in_the_status(readings, metric, groups, limit, n - 1, i);
        seqs::lemma_first_where(
            before,
            nic::is_reading_of(metric, labels),
            before.len() as int,
        );
        if nic::marked_upto(readings, metric, groups, limit, n)[i].outcome != readings[i].outcome {
            if before[i].outcome == readings[i].outcome {
                assert(
                    readings[i].key == (KeyModel { metric, labels: groups[n - 1][0].key.labels })
                );
            }
        }
    }
}

/// The first status of an interface of which readings were left out is changed.
pub proof fn left_out_readings_are_told(
    readings: Seq<ReadingModel>,
    metric: Seq<char>,
    groups: Seq<Seq<ReadingModel>>,
    limit: int,
    n: int,
    g: int,
    i: int,
)
    requires
        0 <= g < n,
        0 <= i < readings.len(),
        interleave::omitted_rows(groups, limit, g) != 0,
        readings[i].key == (KeyModel { metric, labels: groups[g][0].key.labels }),
        forall|j: int| 0 <= j < i ==> (#[trigger] readings[j]).key != readings[i].key,
    ensures
        nic::marked_upto(readings, metric, groups, limit, n).len() == readings.len(),
        nic::marked_upto(readings, metric, groups, limit, n)[i].outcome == ReadingOutcome::Observed(
            MetricReading::State("partial_cardinality_limit"@),
        ),
    decreases n,
{
    let before = nic::marked_upto(readings, metric, groups, limit, n - 1);
    let labels = groups[n - 1][0].key.labels;
    assert forall|j: int| 0 <= j < readings.len() implies before.len() == readings.len()
        && #[trigger] before[j].key == readings[j].key by {
        left_out_readings_show_in_the_status(readings, metric, groups, limit, n - 1, j);
    }
    left_out_readings_show_in_the_status(readings, metric, groups, limit, n - 1, i);
    seqs::lemma_first_where(before, nic::is_reading_of(metric, labels), before.len() as int);
    if g < n - 1 {
        left_out_readings_are_told(readings, metric, groups, limit, n - 1, g, i);
    } else {
        let at = seqs::first_where(
            before,
            nic::is_reading_of(metric, labels),
            before.len() as int,
        );
        assert(nic::is_reading_of(metric, labels)(before[i]));
        assert(at is Some);
        if at->0 < i {
            assert(before[at->0].key == readings[at->0].key);
        }
        assert(at == Some(i));
    }
}

/// Failures and what was read in part are counted, and the first of each is named.
pub proof fn troubled_interfaces_are_counted(interfaces: Seq<NicInterface>, i: int)
    requires
        0 <= i < interfaces.len(),
    ensures
        interfaces[i].ethtool is Failed ==> nic::count(interfaces, nic::failed()) > 0,
        interfaces[i].ethtool is Partial ==> nic::count(interfaces, nic::partial()) > 0,
        interfaces[i].settings is Failed ==> nic::count(interfaces, nic::settings_failed()) > 0,
        interfaces[i].settings is Partial ==> nic::count(interfaces, nic::settings_partial()) > 0,
        interfaces[i].settings is RefreshPending ==> nic::count(
            interfaces,
            nic::settings_pending(),
        ) > 0,
        nic::first(interfaces, nic::failed()) matches Some(first) ==> first.ethtool is Failed
            && interfaces.contains(first),
        nic::first(interfaces, nic::partial()) matches Some(first) ==> first.ethtool is Partial
            && interfaces.contains(first),
        nic::first(interfaces, nic::settings_failed()) matches Some(first) ==> first.settings
            is Failed && interfaces.contains(first),
        nic::first(interfaces, nic::settings_partial()) matches Some(first) ==> first.settings
            is Partial && interfaces.contains(first),
        nic::first(interfaces, nic::settings_pending()) matches Some(first) ==> first.settings
            is RefreshPending && interfaces.contains(first),
        nic::first(interfaces, nic::failed()) is None <==> nic::count(interfaces, nic::failed())
            == 0,
        nic::first(interfaces, nic::partial()) is None <==> nic::count(interfaces, nic::partial())
            == 0,
{
    lemma_first(interfaces, nic::failed(), i);
    lemma_first(interfaces, nic::partial(), i);
    lemma_first(interfaces, nic::settings_failed(), i);
    lemma_first(interfaces, nic::settings_partial(), i);
    lemma_first(interfaces, nic::settings_pending(), i);
}

proof fn lemma_first(interfaces: Seq<NicInterface>, p: spec_fn(NicInterface) -> bool, i: int)
    requires
        0 <= i < interfaces.len(),
    ensures
        p(interfaces[i]) ==> nic::count(interfaces, p) > 0,
        nic::first(interfaces, p) is None <==> nic::count(interfaces, p) == 0,
        nic::first(interfaces, p) matches Some(first) ==> p(first) && interfaces.contains(first),
{
    let n = interfaces.len() as int;
    seqs::lemma_first_where(interfaces, p, n);
    seqs::lemma_count_where(interfaces, p, n);
}

/// States are fresh if everything was read and shown. What there was no room for is told
/// first, and what could not be read otherwise.
pub proof fn states_say_what_is_missing(
    errors: Seq<NicCollectionError>,
    kinds: nat,
    fields: nat,
)
    ensures
        match nic::state_health(errors, kinds, fields) {
            ProviderHealth::Fresh => kinds == 0 && fields == 0 && errors.len() == 0,
            ProviderHealth::Partial { warning } => {
                &&& warning.code is CardinalityLimit <==> kinds > 0 || fields > 0
                &&& warning.code is Io <==> kinds == 0 && fields == 0 && errors.len() > 0
                &&& warning.code is Io ==> warning.diagnostic == diagnostics::bounded_diagnostic(
                    "NIC sysfs collection was incomplete; first error: "@ + errors[0].detail@,
                )
                &&& warning.code is CardinalityLimit && errors.len() == 0 ==> warning.diagnostic
                    == diagnostics::bounded_diagnostic(
                    "NIC sysfs results exceeded the "@ + text::decimal(4096)
                        + "-reading provider limit; omitted "@ + text::decimal(kinds)
                        + " interface kind readings and "@ + text::decimal(fields)
                        + " link-state or setting readings"@,
                )
            },
            _ => false,
        },
{
}

/// Statistics are fresh if every interface was read whole and shown whole. What there was no
/// room for is told first, what failed next, by the kind of the first failure, and what was
/// not understood last.
pub proof fn statistics_say_what_is_missing(
    interfaces: Seq<NicInterface>,
    statuses: nat,
    statistics: nat,
)
    ensures
        ({
            let failure = nic::first(interfaces, nic::failed());
            let partial = nic::first(interfaces, nic::partial());
            match nic::statistics_health(interfaces, statuses, statistics) {
                ProviderHealth::Fresh => statuses == 0 && statistics == 0 && failure is None
                    && partial is None,
                ProviderHealth::Partial { warning } => {
                    &&& statuses > 0 || statistics > 0 ==> warning.code is CardinalityLimit
                    &&& statuses == 0 && statistics == 0 ==> (failure matches Some(first) ==> (
                    first.ethtool matches EthtoolOutcome::Failed(why) ==> warning.code
                        == nic::failure_class(why).0))
                    &&& statuses == 0 && statistics == 0 && failure is None ==> warning.code
                        is SchemaMismatch && partial is Some
                },
                _ => false,
            }
        }),
{
}

/// Settings are fresh if every interface was read whole and shown whole, and none waits.
pub proof fn settings_say_what_is_missing(
    interfaces: Seq<NicInterface>,
    statuses: nat,
    fields: nat,
)
    ensures
        ({
            let failure = nic::first(interfaces, nic::settings_failed());
            let partial = nic::first(interfaces, nic::settings_partial());
            let pending = nic::first(interfaces, nic::settings_pending());
            match nic::settings_health(interfaces, statuses, fields) {
                ProviderHealth::Fresh => statuses == 0 && fields == 0 && failure is None && partial
                    is None && pending is None,
                ProviderHealth::Partial { warning } => {
                    &&& statuses > 0 || fields > 0 ==> warning.code is CardinalityLimit
                    &&& statuses == 0 && fields == 0 ==> (failure matches Some(first) ==> (
                    first.settings matches EthtoolSettingsOutcome::Failed(why) ==> warning.code
                        == nic::failure_class(why).0))
                    &&& statuses == 0 && fields == 0 && failure is None && partial is Some
                        ==> warning.code is SchemaMismatch
                    &&& statuses == 0 && fields == 0 && failure is None && partial is None
                        ==> warning.code is Internal && pending is Some
                },
                _ => false,
            }
        }),
{
}

/// How many interfaces were in trouble is told with how many there are.
pub proof fn troubles_are_told(interfaces: Seq<NicInterface>)
    ensures
        nic::issue_words(interfaces) == text::decimal(
            nic::count(interfaces, nic::failed()) + nic::count(interfaces, nic::partial()),
        ) + "/"@ + text::decimal(nic::count(interfaces, nic::hardware())),
        nic::settings_issue_words(interfaces) == text::decimal(
            nic::count(interfaces, nic::settings_failed()) + nic::count(
                interfaces,
                nic::settings_partial(),
            ) + nic::count(interfaces, nic::settings_pending()),
        ) + "/"@ + text::decimal(nic::count(interfaces, nic::with_settings())),
        forall|interface: NicInterface| #[trigger]
            nic::hardware()(interface) <==> !(interface.ethtool is NotHardwareInterface),
        forall|interface: NicInterface| #[trigger]
            nic::with_settings()(interface) <==> !nic::without_settings(interface),
{
}

/// A collection gives three samples: the states, the settings and the statistics, each by its
/// provider; an interface whose name cannot be shown spoils them all.
pub proof fn collections_give_three_samples(
    catalog: CatalogModel,
    kept: Seq<KeptModel>,
    collection: NicCollection,
    timing: CollectionTiming,
    settings: SampleModel,
)
    ensures
        ({
            let samples = nic::nic_samples(catalog, kept, collection, timing, settings);
            let named = forall|i: int|
                0 <= i < collection.interfaces@.len() ==> model::valid_value(
                    (#[trigger] collection.interfaces@[i]).interface@,
                );
            &&& named ==> {
                &&& samples.len() == 3
                &&& samples[0].provider == "linux.sysfs.net.nic"@
                &&& samples[1] == settings
                &&& samples[2].provider == "linux.ethtool.text"@
                &&& samples[0].finished_at == timing.finished_at
                &&& samples[2].finished_at == timing.finished_at
                &&& samples[0].collection_duration == timing.collection_duration
                &&& samples[2].collection_duration == timing.collection_duration
            }
            &&& !named ==> {
                &&& samples.len() == 1
                &&& samples[0].provider == "linux.sysfs.net.nic"@
                &&& samples[0].readings.len() == 0
                &&& samples[0].finished_at == timing.finished_at
                &&& samples[0].health matches ProviderHealth::Error { error } && error.code
                    is Internal
            }
        }),
{
    let interfaces = collection.interfaces@;
    if forall|i: int|
        0 <= i < interfaces.len() ==> model::valid_value((#[trigger] interfaces[i]).interface@) {
        assert forall|i: int| 0 <= i < interfaces.len() implies nic::is_named(
            #[trigger] interfaces[i],
        ) by {}
    } else {
        let i = choose|i: int|
            0 <= i < interfaces.len() && !model::valid_value((#[trigger] interfaces[i]).interface@);
        assert(!nic::is_named(interfaces[i]));
    }
}

/// The states of a collection are those of its interfaces, as far as there is room.
pub proof fn states_are_those_of_the_interfaces(
    catalog: CatalogModel,
    kept: Seq<KeptModel>,
    collection: NicCollection,
    timing: CollectionTiming,
)
    ensures
        ({
            let sample = nic::state_sample(catalog, kept, collection, timing);
            let n = collection.interfaces@.len() as int;
            let groups = nic::state_groups(kept, collection.interfaces@, n);
            let shown = interleave::packed_upto(groups, 4096, groups.len() as int);
            &&& sample.health is Fresh || sample.health is Partial ==> sample.readings.to_multiset()
                == shown.to_multiset()
            &&& sample.health is Fresh ==> collection.errors@.len() == 0
            &&& shown.len() == 0 && collection.errors@.len() > 0 ==> (sample.health matches
                ProviderHealth::Error { error } && error.code is Io && error.diagnostic
                == diagnostics::bounded_diagnostic(collection.errors@[0].detail@))
        }),
{
    let n = collection.interfaces@.len() as int;
    let groups = nic::state_groups(kept, collection.interfaces@, n);
    model::lemma_canonical_exists(interleave::packed_upto(groups, 4096, groups.len() as int));
}

/// Settings of no interface took no time.
pub proof fn settings_of_no_interface_took_no_time(
    catalog: CatalogModel,
    interfaces: Seq<NicInterface>,
    timing: CollectionTiming,
)
    ensures
        ({
            let sample = nic::settings_sample(catalog, interfaces, timing);
            &&& sample.provider == "linux.ethtool.link_text"@
            &&& sample.finished_at == timing.finished_at
            &&& nic::count(interfaces, nic::with_settings()) > 0 ==> sample.collection_duration
                == timing.collection_duration
            &&& nic::settings_named(interfaces) && nic::count(interfaces, nic::with_settings()) == 0
                ==> sample.collection_duration == 0
        }),
{
}

/// Settings are due at first, and again when half a minute has passed since they were read.
pub proof fn settings_are_due_in_time(cache: NicSettingsCache, now: Nanos)
    ensures
        cache.timing is None ==> cache.is_due(now),
        cache.timing matches Some(timing) ==> (cache.is_due(now) <==> now >= timing.finished_at
            + 30_000_000_000),
{
}

/// Kept settings fit the interfaces that were there when they were read: one that is new, or
/// has another index, or is not the same kind of interface, needs them read again.
pub proof fn kept_settings_fit_their_interfaces(
    cache: NicSettingsCache,
    interfaces: Seq<NicInterface>,
    i: int,
)
    requires
        0 <= i < interfaces.len(),
        cache.covers(interfaces),
    ensures
        cache.sample is Some,
        ({
            let known = cache.interfaces.view();
            &&& known.dom().len() == interfaces.len()
            &&& known.contains_key(interfaces[i].interface@)
            &&& known[interfaces[i].interface@].0 == interfaces[i].ifindex
            &&& known[interfaces[i].interface@].1 == interfaces[i].hardware_backed
        }),
{
    assert(nic::is_listed(cache.interfaces.view(), interfaces[i]));
}

/// The inventory of settings holds every interface, as it was last.
pub proof fn inventories_hold_every_interface(interfaces: Seq<NicInterface>, n: int, i: int)
    requires
        0 <= i < n <= interfaces.len(),
        forall|j: int| i < j < n ==> (
            #[trigger] interfaces[j]
        ).interface@ != interfaces[i].interface@,
    ensures
        nic::inventory(interfaces, n).contains_key(interfaces[i].interface@),
        nic::inventory(interfaces, n)[interfaces[i].interface@] == (
            interfaces[i].ifindex,
            interfaces[i].hardware_backed,
        ),
    decreases n,
{
    if i < n - 1 {
        inventories_hold_every_interface(interfaces, n - 1, i);
    }
}

/// Where no statistics are shown, the reason is the first failure, or what was not understood
/// of the first interface, or that there is nothing to read.
pub proof fn missing_statistics_are_explained(
    catalog: CatalogModel,
    kept: Seq<KeptModel>,
    interfaces: Seq<NicInterface>,
    timing: CollectionTiming,
)
    requires
        nic::statistics_groups(kept, interfaces, interfaces.len() as int).len() == 0,
    ensures
        ({
            let sample = nic::statistics_sample(catalog, kept, interfaces, timing);
            let told = diagnostics::health_error(sample.health);
            let failure = nic::first(interfaces, nic::failed());
            let partial = nic::first(interfaces, nic::partial());
            &&& sample.readings.len() == 0
            &&& failure matches Some(first) ==> (first.ethtool matches EthtoolOutcome::Failed(why)
                ==> told == Some(diagnostics::error_with(
                nic::failure_class(why).0,
                nic::failure_words(why),
            )))
            &&& failure is None ==> (partial matches Some(first) ==> (told matches Some(error)
                && error.code is SchemaMismatch && error.diagnostic
                == diagnostics::bounded_diagnostic(
                "ethtool returned no usable statistics for "@ + first.interface@ + ": "@
                    + text::decimal(nic::rejected_of(first) as nat) + " rejected lines, "@
                    + text::decimal(nic::omitted_of(first) as nat) + " omitted statistics"@,
            )))
            &&& failure is None && partial is None ==> sample.health is Unsupported && told
                == Some(diagnostics::error_with(
                MonitorErrorCode::Unsupported,
                if nic::count(interfaces, nic::hardware()) == 0 {
                    "no hardware-backed network interface is visible"@
                } else {
                    "ethtool returned no bounded statistics"@
                },
            ))
        }),
{
    let groups = nic::statistics_groups(kept, interfaces, interfaces.len() as int);
    assert(interleave::packed_upto(groups, 4096, 0).len() == 0);
    assert(nic::marked_readings(groups, nic::NIC_ETHTOOL_STATISTICS_STATUS_METRIC_ID@).len() == 0);
    if let Some(first) = nic::first(interfaces, nic::failed()) {
        seqs::lemma_first_where(interfaces, nic::failed(), interfaces.len() as int);
    }
}

/// Where no settings are shown, the reason is the first failure, or that there is nothing to
/// read.
pub proof fn missing_settings_are_explained(
    catalog: CatalogModel,
    interfaces: Seq<NicInterface>,
    timing: CollectionTiming,
)
    requires
        nic::settings_named(interfaces),
        nic::settings_groups(interfaces, interfaces.len() as int).len() == 0,
    ensures
        ({
            let sample = nic::settings_sample(catalog, interfaces, timing);
            let told = diagnostics::health_error(sample.health);
            let failure = nic::first(interfaces, nic::settings_failed());
            &&& sample.readings.len() == 0
            &&& failure matches Some(first) ==> (first.settings matches
                EthtoolSettingsOutcome::Failed(why) ==> told == Some(diagnostics::error_with(
                nic::failure_class(why).0,
                nic::failure_words(why),
            )))
            &&& failure is None ==> sample.health is Unsupported && told == Some(
                diagnostics::error_with(
                    MonitorErrorCode::Unsupported,
                    if nic::count(interfaces, nic::with_settings()) == 0 {
                        "no hardware-backed network interface is visible"@
                    } else {
                        "ethtool returned no bounded link settings"@
                    },
                ),
            )
        }),
{
    let groups = nic::settings_groups(interfaces, interfaces.len() as int);
    assert(interleave::packed_upto(groups, 4096, 0).len() == 0);
    assert(nic::marked_readings(groups, nic::NIC_ETHTOOL_SETTINGS_STATUS_METRIC_ID@).len() == 0);
    if let Some(first) = nic::first(interfaces, nic::settings_failed()) {
        seqs::lemma_first_where(interfaces, nic::settings_failed(), interfaces.len() as int);
    }
}

/// What a partial reading left out is counted as it was told.
pub proof fn left_out_lines_are_counted(interface: NicInterface)
    ensures
        interface.ethtool matches EthtoolOutcome::Partial {
            statistics: _,
            rejected_lines,
            omitted_private,
        } ==> nic::rejected_of(interface) == rejected_lines && nic::omitted_of(interface)
            == omitted_private,
        interface.settings matches EthtoolSettingsOutcome::Partial { settings: _, rejected_lines }
            ==> nic::settings_rejected_of(interface) == rejected_lines,
{
}

/// What there was no room for is told with how many interfaces were in trouble, and with the
/// first of them.
pub proof fn crowded_statistics_are_told(
    interfaces: Seq<NicInterface>,
    statuses: nat,
    statistics: nat,
)
    ensures
        nic::first(interfaces, nic::failed()) is None && nic::first(interfaces, nic::partial())
            is None && statuses == 0 ==> nic::statistics_limit_words(
            interfaces,
            statuses,
            statistics,
        ) == "ethtool statistics cardinality limit "@ + text::decimal(4096) + "; omitted "@
            + text::decimal(statistics) + " statistics; failures "@ + text::decimal(
            nic::count(interfaces, nic::failed()),
        ) + "; schema partials "@ + text::decimal(nic::count(interfaces, nic::partial())),
        nic::first(interfaces, nic::settings_failed()) is None && nic::first(
            interfaces,
            nic::settings_partial(),
        ) is None && statuses == 0 ==> nic::settings_limit_words(interfaces, statuses, statistics)
            == "ethtool settings cardinality limit "@ + text::decimal(4096) + "; omitted "@
            + text::decimal(statistics) + " setting fields; failures "@ + text::decimal(
            nic::count(interfaces, nic::settings_failed()),
        ) + "; schema partials "@ + text::decimal(
            nic::count(interfaces, nic::settings_partial()),
        ) + "; pending "@ + text::decimal(nic::count(interfaces, nic::settings_pending())),
        statuses > 0 ==> ("ethtool statistics cardinality limit "@ + text::decimal(4096)
            + "; omitted "@ + text::decimal(statuses) + " interface statuses, "@
            + text::decimal(statistics) + " statistics; failures "@).is_prefix_of(
            nic::statistics_limit_words(interfaces, statuses, statistics),
        ),
        nic::first(interfaces, nic::partial()) is None ==> (nic::first(
            interfaces,
            nic::failed(),
        ) matches Some(first) ==> ("; first failure "@ + first.interface@ + ": "@
            + nic::failure_status(nic::failure_of(first))).is_suffix_of(
            nic::statistics_limit_words(interfaces, statuses, statistics),
        )),
        nic::first(interfaces, nic::partial()) matches Some(first) ==> ("; first schema partial "@
            + first.interface@ + ": rejected="@ + text::decimal(nic::rejected_of(first) as nat)
            + ", private_omitted="@ + text::decimal(nic::omitted_of(first) as nat)).is_suffix_of(
            nic::statistics_limit_words(interfaces, statuses, statistics),
        ),
{
    let all = nic::statistics_limit_words(interfaces, statuses, statistics);
    if let Some(first) = nic::first(interfaces, nic::partial()) {
        let end = "; first schema partial "@ + first.interface@ + ": rejected="@ + text::decimal(
            nic::rejected_of(first) as nat,
        ) + ", private_omitted="@ + text::decimal(nic::omitted_of(first) as nat);
        assert(all.skip(all.len() - end.len()) =~= end);
    } else if let Some(first) = nic::first(interfaces, nic::failed()) {
        let end = "; first failure "@ + first.interface@ + ": "@ + nic::failure_status(
            nic::failure_of(first),
        );
        assert(all.skip(all.len() - end.len()) =~= end);
    }
    if statuses > 0 {
        let front = "ethtool statistics cardinality limit "@ + text::decimal(4096) + "; omitted "@
            + text::decimal(statuses) + " interface statuses, "@ + text::decimal(statistics)
            + " statistics; failures "@;
        assert(all.take(front.len() as int) =~= front);
    }
}

} // verus!
