//! What the environment and the arguments come to.

use vstd::prelude::*;
use vstd::utf8::*;

use crate::config::checked;
use crate::config::identity_of;
use crate::config::invocation_of;
use crate::config::is_host;
use crate::config::sample_gap_of;
use crate::config::settings_of;
use crate::config::with_arguments;
use crate::config::EnvValue;
use crate::config::Environment;
use crate::config::Settings;
use crate::paths::final_name;
use crate::protocol::is_protocol_name;
use crate::text::is_control;
use crate::text::unsigned_value;

verus! {

/// A text from the environment, or its default.
pub open spec fn reads_text(value: EnvValue, default: Seq<char>, found: Seq<char>) -> bool {
    match value {
        EnvValue::Absent => found == default,
        EnvValue::Text { text } => found == text@,
        EnvValue::NotUnicode => false,
    }
}

/// A number of seconds greater than zero from the environment, or its default.
pub open spec fn reads_seconds(value: EnvValue, default: u64, found: u64) -> bool {
    match value {
        EnvValue::Absent => found == default,
        EnvValue::Text { text } => found > 0 && unsigned_value(text@) == Some(found),
        EnvValue::NotUnicode => false,
    }
}

/// A path from the environment, or its default.
pub open spec fn reads_path(value: Option<Vec<u8>>, default: Seq<char>, found: Seq<u8>) -> bool {
    match value {
        None => found == encode_utf8(default),
        Some(bytes) => found == bytes@,
    }
}

/// A text from the environment cannot be read, and the message says so.
pub open spec fn text_fails(value: EnvValue, name: Seq<char>, message: Seq<char>) -> bool {
    value is NotUnicode && message == name + " is not valid UTF-8"@
}

/// A number of seconds from the environment cannot be read, and the message says so.
pub open spec fn seconds_fail(value: EnvValue, name: Seq<char>, message: Seq<char>) -> bool {
    match value {
        EnvValue::Absent => false,
        EnvValue::Text { text } => !(unsigned_value(text@) matches Some(n) && n > 0) && message
            == name + " must be a positive whole number of seconds"@,
        EnvValue::NotUnicode => message == name + " is not valid UTF-8"@,
    }
}

/// A refusal, and why.
pub open spec fn refusal(message: Seq<char>) -> Result<Option<Settings>, Seq<char>> {
    Err(message)
}

/// Each setting comes from its variable, or is its default. The environment is refused exactly
/// where a variable cannot be read.
pub proof fn law_environment_gives_settings(env: Environment)
    ensures
        match settings_of(env) {
            Ok(settings) => {
                &&& reads_text(env.host, "127.0.0.1:3493"@, settings.host)
                &&& reads_text(env.ups_name, "ups"@, settings.ups_name)
                &&& reads_seconds(env.poll_interval_seconds, 2, settings.poll_interval_seconds)
                &&& reads_seconds(env.timeout_seconds, 5, settings.timeout_seconds)
                &&& reads_path(
                    env.sysfs_path,
                    "/sys/kernel/nut_battery/update"@,
                    settings.sysfs_path,
                )
                &&& reads_seconds(env.charge_full_seconds, 14400, settings.charge_full_seconds)
                &&& reads_path(
                    env.charge_state_path,
                    "/var/lib/nut-power-bridge/charge-rate"@,
                    settings.charge_state_path,
                )
                &&& settings.time_to_full_var is Some
                &&& reads_text(env.time_to_full_var, ""@, settings.time_to_full_var->Some_0)
            },
            Err(message) => {
                ||| text_fails(env.host, "NUT_HOST"@, message)
                ||| text_fails(env.ups_name, "NUT_UPS_NAME"@, message)
                ||| seconds_fail(env.poll_interval_seconds, "NUT_POLL_INTERVAL_SECONDS"@, message)
                ||| seconds_fail(env.timeout_seconds, "NUT_TIMEOUT_SECONDS"@, message)
                ||| seconds_fail(env.charge_full_seconds, "NUT_CHARGE_FULL_SECONDS"@, message)
                ||| text_fails(env.time_to_full_var, "NUT_TIME_TO_FULL_VAR"@, message)
            },
        },
{
}

/// The options are different texts.
proof fn lemma_options_differ()
    ensures
        "--host"@ != "--ups"@,
        "--host"@ != "--interval"@,
        "--host"@ != "--timeout"@,
        "--host"@ != "--sysfs-path"@,
        "--ups"@ != "--interval"@,
        "--ups"@ != "--timeout"@,
        "--ups"@ != "--sysfs-path"@,
        "--interval"@ != "--timeout"@,
        "--interval"@ != "--sysfs-path"@,
        "--timeout"@ != "--sysfs-path"@,
        "-h"@ != "--host"@ && "-h"@ != "--ups"@ && "-h"@ != "--interval"@ && "-h"@ != "--timeout"@
            && "-h"@ != "--sysfs-path"@,
        "--help"@ != "--host"@ && "--help"@ != "--ups"@ && "--help"@ != "--interval"@ && "--help"@
            != "--timeout"@ && "--help"@ != "--sysfs-path"@,
{
    reveal_strlit("-h");
    reveal_strlit("--help");
    reveal_strlit("--host");
    reveal_strlit("--ups");
    reveal_strlit("--interval");
    reveal_strlit("--timeout");
    reveal_strlit("--sysfs-path");
    assert("--host"@[3] == 'o' && "--help"@[3] == 'e');
    assert("--host"@.len() == 6 && "--help"@.len() == 6 && "-h"@.len() == 2 && "--ups"@.len() == 5
        && "--interval"@.len() == 10 && "--timeout"@.len() == 9 && "--sysfs-path"@.len() == 12);
}

/// An option with its value changes one setting, and the arguments behind it are read as before.
pub proof fn law_options_change_one_setting(
    settings: Settings,
    value: Seq<char>,
    rest: Seq<Seq<char>>,
)
    ensures
        with_arguments(settings, seq!["--host"@, value] + rest) == with_arguments(
            Settings { host: value, ..settings },
            rest,
        ),
        with_arguments(settings, seq!["--ups"@, value] + rest) == with_arguments(
            Settings { ups_name: value, ..settings },
            rest,
        ),
        with_arguments(settings, seq!["--sysfs-path"@, value] + rest) == with_arguments(
            Settings { sysfs_path: encode_utf8(value), ..settings },
            rest,
        ),
        match unsigned_value(value) {
            Some(n) => if n > 0 {
                &&& with_arguments(settings, seq!["--interval"@, value] + rest) == with_arguments(
                    Settings { poll_interval_seconds: n, ..settings },
                    rest,
                )
                &&& with_arguments(settings, seq!["--timeout"@, value] + rest) == with_arguments(
                    Settings { timeout_seconds: n, ..settings },
                    rest,
                )
            } else {
                &&& with_arguments(settings, seq!["--interval"@, value] + rest) == refusal(
                    "--interval"@ + " must be a positive whole number of seconds"@,
                )
                &&& with_arguments(settings, seq!["--timeout"@, value] + rest) == refusal(
                    "--timeout"@ + " must be a positive whole number of seconds"@,
                )
            },
            None => {
                &&& with_arguments(settings, seq!["--interval"@, value] + rest) == refusal(
                    "--interval"@ + " must be a positive whole number of seconds"@,
                )
                &&& with_arguments(settings, seq!["--timeout"@, value] + rest) == refusal(
                    "--timeout"@ + " must be a positive whole number of seconds"@,
                )
            },
        },
{
    lemma_options_differ();
    lemma_two("--host"@, value, rest);
    lemma_two("--ups"@, value, rest);
    lemma_two("--interval"@, value, rest);
    lemma_two("--timeout"@, value, rest);
    lemma_two("--sysfs-path"@, value, rest);
}

proof fn lemma_two(option: Seq<char>, value: Seq<char>, rest: Seq<Seq<char>>)
    ensures
        ({
            let args = seq![option, value] + rest;
            args.len() >= 2 && args[0] == option && args[1] == value && args.skip(2) == rest
        }),
{
    assert((seq![option, value] + rest).skip(2) =~= rest);
}

/// Without arguments the settings stay; help is given wherever it is asked for in the place of an
/// option; an option without a value and any other argument are refused.
pub proof fn law_arguments_end(settings: Settings, argument: Seq<char>, rest: Seq<Seq<char>>)
    ensures
        with_arguments(settings, Seq::empty()) == Ok::<Option<Settings>, Seq<char>>(
            Some(settings),
        ),
        with_arguments(settings, seq!["-h"@] + rest) == Ok::<Option<Settings>, Seq<char>>(None),
        with_arguments(settings, seq!["--help"@] + rest) == Ok::<Option<Settings>, Seq<char>>(
            None,
        ),
        with_arguments(settings, seq!["--host"@]) == refusal(
            "missing value for "@ + "--host"@,
        ),
        with_arguments(settings, seq!["--ups"@]) == refusal(
            "missing value for "@ + "--ups"@,
        ),
        with_arguments(settings, seq!["--interval"@]) == refusal(
            "missing value for "@ + "--interval"@,
        ),
        with_arguments(settings, seq!["--timeout"@]) == refusal(
            "missing value for "@ + "--timeout"@,
        ),
        with_arguments(settings, seq!["--sysfs-path"@]) == refusal(
            "missing value for "@ + "--sysfs-path"@,
        ),
        argument != "-h"@ && argument != "--help"@ && argument != "--host"@ && argument != "--ups"@
            && argument != "--interval"@ && argument != "--timeout"@ && argument != "--sysfs-path"@
            ==> with_arguments(settings, seq![argument] + rest) == refusal(
            "unknown argument: "@ + argument,
        ),
{
    lemma_options_differ();
    assert((seq!["-h"@] + rest)[0] == "-h"@);
    assert((seq!["--help"@] + rest)[0] == "--help"@);
    assert((seq![argument] + rest)[0] == argument);
}

/// Settings are accepted exactly where the host is one line of text, the UPS has a name of the
/// protocol, there is a path to the kernel module, charging takes between 1200 and 72000 seconds,
/// the state file has a name, and the variable for the charging time, if there is one, has a name
/// of the protocol and is none of the discharge runtimes. Nothing is changed, but that an empty
/// variable is none.
pub proof fn law_settings_are_checked(settings: Settings, variable: Seq<char>)
    requires
        settings.time_to_full_var == Some(variable),
    ensures
        ({
            let runtime = variable == "battery.runtime"@ || variable == "battery.runtime.low"@
                || variable == "battery.runtime.restart"@;
            let accepted = is_host(settings.host) && is_protocol_name(settings.ups_name)
                && settings.sysfs_path.len() > 0 && 1200 <= settings.charge_full_seconds <= 72000
                && final_name(settings.charge_state_path) is Some && (variable.len() == 0 || (
            is_protocol_name(variable) && !runtime));
            match checked(settings) {
                Ok(valid) => accepted && valid == (Settings {
                    time_to_full_var: if variable.len() == 0 {
                        None
                    } else {
                        Some(variable)
                    },
                    ..settings
                }),
                Err(message) => {
                    &&& !accepted
                    &&& message == if !is_host(settings.host) {
                        "NUT host must be a non-empty single-line value"@
                    } else if !is_protocol_name(settings.ups_name) {
                        "UPS name"@ + " may contain only ASCII letters, digits, '.', '_' and '-'"@
                    } else if settings.sysfs_path.len() == 0 {
                        "sysfs path must not be empty"@
                    } else if !(1200 <= settings.charge_full_seconds <= 72000) {
                        "NUT_CHARGE_FULL_SECONDS must be between 1200 and 72000 seconds"@
                    } else if final_name(settings.charge_state_path) is None {
                        "NUT_CHARGE_STATE_PATH must name a state file"@
                    } else if !is_protocol_name(variable) {
                        "NUT_TIME_TO_FULL_VAR"@
                            + " may contain only ASCII letters, digits, '.', '_' and '-'"@
                    } else {
                        "NUT_TIME_TO_FULL_VAR must describe charging time, not discharge runtime"@
                    }
                },
            }
        }),
{
}

/// A host is a text without control characters that is not empty.
pub proof fn law_hosts_are_one_line(host: Seq<char>)
    ensures
        is_host(host) <==> host.len() > 0 && forall|i: int|
            0 <= i < host.len() ==> !(#[trigger] host[i] < ' ' || '\x7f' <= host[i] <= '\u{9f}'),
{
    if is_host(host) {
        assert forall|i: int| 0 <= i < host.len() implies !(#[trigger] host[i] < ' ' || '\x7f'
            <= host[i] <= '\u{9f}') by {
            assert(!is_control(host[i]));
        }
    }
    if forall|i: int|
        0 <= i < host.len() ==> !(#[trigger] host[i] < ' ' || '\x7f' <= host[i] <= '\u{9f}') {
        assert forall|i: int| 0 <= i < host.len() implies !is_control(#[trigger] host[i]) by {
            assert(!(host[i] < ' ' || '\x7f' <= host[i] <= '\u{9f}'));
        }
    }
}

/// The environment comes first, the arguments change it, and what comes of it is checked. Help
/// needs no valid settings, but a readable environment.
pub proof fn law_invocations(env: Environment, args: Seq<Seq<char>>)
    ensures
        match settings_of(env) {
            Err(message) => invocation_of(env, args) == Err::<Option<Settings>, Seq<char>>(message),
            Ok(settings) => match with_arguments(settings, args) {
                Err(message) => invocation_of(env, args) == Err::<Option<Settings>, Seq<char>>(
                    message,
                ),
                Ok(None) => invocation_of(env, args) == Ok::<Option<Settings>, Seq<char>>(None),
                Ok(Some(changed)) => invocation_of(env, args) == match checked(changed) {
                    Ok(valid) => Ok::<Option<Settings>, Seq<char>>(Some(valid)),
                    Err(message) => Err::<Option<Settings>, Seq<char>>(message),
                },
            },
        },
{
}

/// The longest gap between samples is three polls, at least fifteen seconds, and no more than the
/// clocks can measure; the identity is the host and the UPS.
pub proof fn law_derived_settings(poll: u64, host: Seq<char>, ups_name: Seq<char>)
    ensures
        sample_gap_of(poll) >= 15_000_000_000,
        poll >= 5 && 3 * poll <= u64::MAX ==> sample_gap_of(poll) == 3_000_000_000 * poll,
        poll <= 5 ==> sample_gap_of(poll) == 15_000_000_000,
        3 * poll > u64::MAX ==> sample_gap_of(poll) == 18_446_744_073_709_551_615_999_999_999,
        identity_of(host, ups_name) == host + seq![' '] + ups_name,
{
    reveal_strlit(" ");
    assert(" "@ =~= seq![' ']);
}

} // verus!
