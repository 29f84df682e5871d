//! The configuration of the daemon, from environment variables and arguments.

use vstd::prelude::*;
use vstd::utf8::*;

use crate::charging::DEFAULT_CHARGE_FULL_SECONDS;
use crate::charging::MAX_TIME_TO_FULL_SECONDS;
use crate::charging::MIN_CHARGE_FULL_SECONDS;
use crate::paths::file_name;
use crate::paths::final_name;
use crate::protocol::is_protocol_name;
use crate::protocol::validate_protocol_token;
use crate::text::chars_of;
use crate::text::control;
use crate::text::is_control;
use crate::text::join2;
use crate::text::join3;
use crate::text::parse_unsigned;
use crate::text::same_text;
use crate::text::unsigned_value;
use crate::text::views;

verus! {

pub const DEFAULT_POLL_INTERVAL_SECONDS: u64 = 2;

pub const DEFAULT_TIMEOUT_SECONDS: u64 = 5;

/// The longest time, in nanoseconds, that the clocks measure.
pub const LONGEST_TIME: u128 = 18_446_744_073_709_551_615_999_999_999;

/// The shortest gap between samples that interrupts an observation, in nanoseconds.
pub const SHORTEST_SAMPLE_GAP: u128 = 15_000_000_000;

/// An environment variable that has to be text.
#[derive(Debug, PartialEq, Eq)]
pub enum EnvValue {
    Absent,
    NotUnicode,
    Text { text: String },
}

/// The environment variables of the daemon. Paths are bytes.
pub struct Environment {
    pub host: EnvValue,
    pub ups_name: EnvValue,
    pub poll_interval_seconds: EnvValue,
    pub timeout_seconds: EnvValue,
    pub sysfs_path: Option<Vec<u8>>,
    pub charge_full_seconds: EnvValue,
    pub charge_state_path: Option<Vec<u8>>,
    pub time_to_full_var: EnvValue,
}

/// The arguments that are left.
pub struct Arguments {
    pub items: Vec<String>,
    pub position: usize,
}

/// The configuration of the daemon.
#[derive(Debug, PartialEq, Eq)]
pub struct Config {
    pub host: String,
    pub ups_name: String,
    pub poll_interval_seconds: u64,
    pub timeout_seconds: u64,
    pub sysfs_path: Vec<u8>,
    pub charge_full_seconds: u64,
    pub charge_state_path: Vec<u8>,
    pub time_to_full_var: Option<String>,
}

/// What the daemon was started for.
#[derive(Debug, PartialEq, Eq)]
pub enum Invocation {
    Help,
    Run { config: Config },
}

/// A configuration as contracts speak of it.
#[verifier::ext_equal]
pub ghost struct Settings {
    pub host: Seq<char>,
    pub ups_name: Seq<char>,
    pub poll_interval_seconds: u64,
    pub timeout_seconds: u64,
    pub sysfs_path: Seq<u8>,
    pub charge_full_seconds: u64,
    pub charge_state_path: Seq<u8>,
    pub time_to_full_var: Option<Seq<char>>,
}

pub open spec fn text_view(text: Option<String>) -> Option<Seq<char>> {
    match text {
        Some(t) => Some(t@),
        None => None,
    }
}

impl View for Config {
    type V = Settings;

    open spec fn view(&self) -> Settings {
        Settings {
            host: self.host@,
            ups_name: self.ups_name@,
            poll_interval_seconds: self.poll_interval_seconds,
            timeout_seconds: self.timeout_seconds,
            sysfs_path: self.sysfs_path@,
            charge_full_seconds: self.charge_full_seconds,
            charge_state_path: self.charge_state_path@,
            time_to_full_var: text_view(self.time_to_full_var),
        }
    }
}

impl Arguments {
    pub open spec fn wf(self) -> bool {
        self.position <= self.items.len()
    }

    /// The arguments that are left.
    pub open spec fn rest(self) -> Seq<Seq<char>> {
        views(self.items@).skip(self.position as int)
    }

    pub fn new(items: Vec<String>) -> (arguments: Arguments)
        ensures
            arguments.wf(),
            arguments.rest() == views(items@),
    {
        let arguments: Arguments = Arguments { items, position: 0 };
        assert(arguments.rest() =~= views(items@));
        arguments
    }

    /// Takes the next argument.
    pub fn take(&mut self) -> (argument: Option<String>)
        requires
            old(self).wf(),
        ensures
            final(self).wf(),
            match argument {
                Some(text) => old(self).rest().len() > 0 && text@ == old(self).rest()[0]
                    && final(self).rest() == old(self).rest().skip(1),
                None => old(self).rest().len() == 0 && *final(self) == *old(self),
            },
    {
        if self.position < self.items.len() {
            let text: String = self.items[self.position].clone();
            self.position = self.position + 1;
            assert(self.rest() =~= old(self).rest().skip(1));
            Some(text)
        } else {
            None
        }
    }
}

/// Takes the value of an option.
pub fn next_argument(args: &mut Arguments, option: &str) -> (result: Result<String, String>)
    requires
        old(args).wf(),
    ensures
        final(args).wf(),
        match result {
            Ok(value) => old(args).rest().len() > 0 && value@ == old(args).rest()[0]
                && final(args).rest() == old(args).rest().skip(1),
            Err(message) => old(args).rest().len() == 0 && *final(args) == *old(args) && message@
                == "missing value for "@ + option@,
        },
{
    match args.take() {
        Some(value) => Ok(value),
        None => Err(join2("missing value for ", option)),
    }
}

/// A number of seconds greater than zero.
pub open spec fn positive_seconds(value: Seq<char>, name: Seq<char>) -> Result<u64, Seq<char>> {
    match unsigned_value(value) {
        Some(number) => if number > 0 {
            Ok(number)
        } else {
            Err(name + " must be a positive whole number of seconds"@)
        },
        None => Err(name + " must be a positive whole number of seconds"@),
    }
}

/// Reads a number of seconds greater than zero; `name` says in the message what the number is.
pub fn parse_positive_u64(value: &str, name: &str) -> (result: Result<u64, String>)
    ensures
        match result {
            Ok(number) => positive_seconds(value@, name@) == Ok::<u64, Seq<char>>(number),
            Err(message) => positive_seconds(value@, name@) == Err::<u64, Seq<char>>(message@),
        },
{
    match parse_unsigned(value) {
        Some(number) => {
            if number > 0 {
                return Ok(number);
            }
        },
        None => {},
    }
    Err(join2(name, " must be a positive whole number of seconds"))
}

/// A number of seconds from the environment.
pub open spec fn env_seconds(value: EnvValue, name: Seq<char>, default: u64) -> Result<
    u64,
    Seq<char>,
> {
    match value {
        EnvValue::Text { text } => positive_seconds(text@, name),
        EnvValue::Absent => Ok(default),
        EnvValue::NotUnicode => Err(name + " is not valid UTF-8"@),
    }
}

/// Reads a number of seconds from the environment.
pub fn env_u64(value: &EnvValue, name: &str, default: u64) -> (result: Result<u64, String>)
    ensures
        match result {
            Ok(number) => env_seconds(*value, name@, default) == Ok::<u64, Seq<char>>(number),
            Err(message) => env_seconds(*value, name@, default) == Err::<u64, Seq<char>>(message@),
        },
{
    match value {
        EnvValue::Text { text } => parse_positive_u64(text.as_str(), name),
        EnvValue::Absent => Ok(default),
        EnvValue::NotUnicode => Err(join2(name, " is not valid UTF-8")),
    }
}

/// A text from the environment.
pub open spec fn env_text(value: EnvValue, name: Seq<char>, default: Seq<char>) -> Result<
    Seq<char>,
    Seq<char>,
> {
    match value {
        EnvValue::Text { text } => Ok(text@),
        EnvValue::Absent => Ok(default),
        EnvValue::NotUnicode => Err(name + " is not valid UTF-8"@),
    }
}

/// Reads a text from the environment.
pub fn env_string(value: &EnvValue, name: &str, default: &str) -> (result: Result<String, String>)
    ensures
        match result {
            Ok(text) => env_text(*value, name@, default@) == Ok::<Seq<char>, Seq<char>>(text@),
            Err(message) => env_text(*value, name@, default@) == Err::<Seq<char>, Seq<char>>(
                message@,
            ),
        },
{
    match value {
        EnvValue::Text { text } => Ok(text.clone()),
        EnvValue::Absent => Ok(default.to_owned()),
        EnvValue::NotUnicode => Err(join2(name, " is not valid UTF-8")),
    }
}

/// A path from the environment.
pub open spec fn env_path(value: Option<Vec<u8>>, default: Seq<char>) -> Seq<u8> {
    match value {
        Some(bytes) => bytes@,
        None => encode_utf8(default),
    }
}

/// Reads a path from the environment.
fn path_or(value: &Option<Vec<u8>>, default: &str) -> (path: Vec<u8>)
    ensures
        path@ == env_path(*value, default@),
{
    match value {
        Some(bytes) => {
            let copy: Vec<u8> = bytes.clone();
            assert(copy@ =~= bytes@);
            copy
        },
        None => default.as_bytes_vec(),
    }
}

/// The settings that the environment gives, before the arguments and unchecked.
pub open spec fn settings_of(env: Environment) -> Result<Settings, Seq<char>> {
    match env_text(env.host, "NUT_HOST"@, "127.0.0.1:3493"@) {
        Err(message) => Err(message),
        Ok(host) => match env_text(env.ups_name, "NUT_UPS_NAME"@, "ups"@) {
            Err(message) => Err(message),
            Ok(ups_name) => match env_seconds(
                env.poll_interval_seconds,
                "NUT_POLL_INTERVAL_SECONDS"@,
                DEFAULT_POLL_INTERVAL_SECONDS,
            ) {
                Err(message) => Err(message),
                Ok(poll_interval_seconds) => match env_seconds(
                    env.timeout_seconds,
                    "NUT_TIMEOUT_SECONDS"@,
                    DEFAULT_TIMEOUT_SECONDS,
                ) {
                    Err(message) => Err(message),
                    Ok(timeout_seconds) => match env_seconds(
                        env.charge_full_seconds,
                        "NUT_CHARGE_FULL_SECONDS"@,
                        DEFAULT_CHARGE_FULL_SECONDS,
                    ) {
                        Err(message) => Err(message),
                        Ok(charge_full_seconds) => match env_text(
                            env.time_to_full_var,
                            "NUT_TIME_TO_FULL_VAR"@,
                            ""@,
                        ) {
                            Err(message) => Err(message),
                            Ok(time_to_full_var) => Ok(
                                Settings {
                                    host,
                                    ups_name,
                                    poll_interval_seconds,
                                    timeout_seconds,
                                    sysfs_path: env_path(
                                        env.sysfs_path,
                                        "/sys/kernel/nut_battery/update"@,
                                    ),
                                    charge_full_seconds,
                                    charge_state_path: env_path(
                                        env.charge_state_path,
                                        "/var/lib/nut-power-bridge/charge-rate"@,
                                    ),
                                    time_to_full_var: Some(time_to_full_var),
                                },
                            ),
                        },
                    },
                },
            },
        },
    }
}

/// Reads the settings that the environment gives.
fn read_environment(env: &Environment) -> (result: Result<Config, String>)
    ensures
        match result {
            Ok(config) => settings_of(*env) == Ok::<Settings, Seq<char>>(config@),
            Err(message) => settings_of(*env) == Err::<Settings, Seq<char>>(message@),
        },
{
    let host: String = match env_string(&env.host, "NUT_HOST", "127.0.0.1:3493") {
        Ok(text) => text,
        Err(message) => {
            return Err(message);
        },
    };
    let ups_name: String = match env_string(&env.ups_name, "NUT_UPS_NAME", "ups") {
        Ok(text) => text,
        Err(message) => {
            return Err(message);
        },
    };
    let poll_interval_seconds: u64 = match env_u64(
        &env.poll_interval_seconds,
        "NUT_POLL_INTERVAL_SECONDS",
        DEFAULT_POLL_INTERVAL_SECONDS,
    ) {
        Ok(number) => number,
        Err(message) => {
            return Err(message);
        },
    };
    let timeout_seconds: u64 = match env_u64(
        &env.timeout_seconds,
        "NUT_TIMEOUT_SECONDS",
        DEFAULT_TIMEOUT_SECONDS,
    ) {
        Ok(number) => number,
        Err(message) => {
            return Err(message);
        },
    };
    let sysfs_path: Vec<u8> = path_or(&env.sysfs_path, "/sys/kernel/nut_battery/update");
    let charge_full_seconds: u64 = match env_u64(
        &env.charge_full_seconds,
        "NUT_CHARGE_FULL_SECONDS",
        DEFAULT_CHARGE_FULL_SECONDS,
    ) {
        Ok(number) => number,
        Err(message) => {
            return Err(message);
        },
    };
    let charge_state_path: Vec<u8> = path_or(
        &env.charge_state_path,
        "/var/lib/nut-power-bridge/charge-rate",
    );
    let time_to_full_var: String = match env_string(
        &env.time_to_full_var,
        "NUT_TIME_TO_FULL_VAR",
        "",
    ) {
        Ok(text) => text,
        Err(message) => {
            return Err(message);
        },
    };
    Ok(
        Config {
            host,
            ups_name,
            poll_interval_seconds,
            timeout_seconds,
            sysfs_path,
            charge_full_seconds,
            charge_state_path,
            time_to_full_var: Some(time_to_full_var),
        },
    )
}

/// The settings after the arguments; `None` where they ask for help.
pub open spec fn with_arguments(settings: Settings, args: Seq<Seq<char>>) -> Result<
    Option<Settings>,
    Seq<char>,
>
    decreases args.len(),
{
    if args.len() == 0 {
        Ok(Some(settings))
    } else if args[0] == "-h"@ || args[0] == "--help"@ {
        Ok(None)
    } else if args[0] != "--host"@ && args[0] != "--ups"@ && args[0] != "--interval"@ && args[0]
        != "--timeout"@ && args[0] != "--sysfs-path"@ {
        Err("unknown argument: "@ + args[0])
    } else if args.len() == 1 {
        Err("missing value for "@ + args[0])
    } else {
        let value = args[1];
        let rest = args.skip(2);
        if args[0] == "--host"@ {
            with_arguments(Settings { host: value, ..settings }, rest)
        } else if args[0] == "--ups"@ {
            with_arguments(Settings { ups_name: value, ..settings }, rest)
        } else if args[0] == "--interval"@ {
            match positive_seconds(value, args[0]) {
                Ok(number) => with_arguments(
                    Settings { poll_interval_seconds: number, ..settings },
                    rest,
                ),
                Err(message) => Err(message),
            }
        } else if args[0] == "--timeout"@ {
            match positive_seconds(value, args[0]) {
                Ok(number) => with_arguments(
                    Settings { timeout_seconds: number, ..settings },
                    rest,
                ),
                Err(message) => Err(message),
            }
        } else {
            with_arguments(Settings { sysfs_path: encode_utf8(value), ..settings }, rest)
        }
    }
}

/// Applies the arguments to the settings of the environment.
fn apply_arguments(settings: Config, args: Vec<String>) -> (result: Result<Option<Config>, String>)
    ensures
        match result {
            Ok(Some(config)) => with_arguments(settings@, views(args@)) == Ok::<
                Option<Settings>,
                Seq<char>,
            >(Some(config@)),
            Ok(None) => with_arguments(settings@, views(args@)) == Ok::<
                Option<Settings>,
                Seq<char>,
            >(None),
            Err(message) => with_arguments(settings@, views(args@)) == Err::<
                Option<Settings>,
                Seq<char>,
            >(message@),
        },
{
    let ghost goal = with_arguments(settings@, views(args@));
    let mut config: Config = settings;
    let mut left: Arguments = Arguments::new(args);
    loop
        invariant
            left.wf(),
            goal == with_arguments(settings@, views(args@)),
            with_arguments(config@, left.rest()) == goal,
        decreases left.rest().len(),
    {
        let ghost before = left.rest();
        let ghost old_settings = config@;
        let argument: String = match left.take() {
            Some(argument) => argument,
            None => {
                return Ok(Some(config));
            },
        };
        if same_text(argument.as_str(), "-h") || same_text(argument.as_str(), "--help") {
            return Ok(None);
        }
        let is_host: bool = same_text(argument.as_str(), "--host");
        let is_ups: bool = same_text(argument.as_str(), "--ups");
        let is_interval: bool = same_text(argument.as_str(), "--interval");
        let is_timeout: bool = same_text(argument.as_str(), "--timeout");
        let is_sysfs: bool = same_text(argument.as_str(), "--sysfs-path");
        if !is_host && !is_ups && !is_interval && !is_timeout && !is_sysfs {
            return Err(join2("unknown argument: ", argument.as_str()));
        }
        let value: String = match next_argument(&mut left, argument.as_str()) {
            Ok(value) => value,
            Err(message) => {
                return Err(message);
            },
        };
        assert(before.skip(1).skip(1) =~= before.skip(2));
        assert(value@ == before[1]);
        if is_host {
            config.host = value;
            assert(config@ =~= Settings { host: value@, ..old_settings });
        } else if is_ups {
            config.ups_name = value;
            assert(config@ =~= Settings { ups_name: value@, ..old_settings });
        } else if is_interval {
            config.poll_interval_seconds =
            match parse_positive_u64(value.as_str(), argument.as_str()) {
                Ok(number) => number,
                Err(message) => {
                    return Err(message);
                },
            };
        } else if is_timeout {
            config.timeout_seconds =
            match parse_positive_u64(value.as_str(), argument.as_str()) {
                Ok(number) => number,
                Err(message) => {
                    return Err(message);
                },
            };
        } else {
            config.sysfs_path = value.as_str().as_bytes_vec();
            assert(config@ =~= Settings { sysfs_path: encode_utf8(value@), ..old_settings });
        }
    }
}

/// A host is a text of one line that is not empty.
pub open spec fn is_host(host: Seq<char>) -> bool {
    host.len() > 0 && forall|i: int| 0 <= i < host.len() ==> !is_control(#[trigger] host[i])
}

/// Whether a text can be a host.
fn valid_host(host: &str) -> (valid: bool)
    ensures
        valid == is_host(host@),
{
    let chars: Vec<char> = chars_of(host);
    let mut i: usize = 0;
    while i < chars.len()
        invariant
            i <= chars.len(),
            chars@ == host@,
            forall|j: int| 0 <= j < i ==> !is_control(#[trigger] chars@[j]),
        decreases chars.len() - i,
    {
        if control(chars[i]) {
            assert(is_control(host@[i as int]));
            return false;
        }
        i = i + 1;
    }
    chars.len() > 0
}

/// The variables that tell how long the battery lasts, not how long it charges.
pub open spec fn is_runtime_variable(name: Seq<char>) -> bool {
    name == "battery.runtime"@ || name == "battery.runtime.low"@ || name
        == "battery.runtime.restart"@
}

/// The variable for the charging time, where one is configured.
pub open spec fn charge_variable(name: Seq<char>) -> Result<Option<Seq<char>>, Seq<char>> {
    if name.len() == 0 {
        Ok(None)
    } else if !is_protocol_name(name) {
        Err(
            "NUT_TIME_TO_FULL_VAR"@
                + " may contain only ASCII letters, digits, '.', '_' and '-'"@,
        )
    } else if is_runtime_variable(name) {
        Err("NUT_TIME_TO_FULL_VAR must describe charging time, not discharge runtime"@)
    } else {
        Ok(Some(name))
    }
}

/// Checks the variable for the charging time.
fn check_charge_variable(name: String) -> (result: Result<Option<String>, String>)
    ensures
        match result {
            Ok(variable) => charge_variable(name@) == Ok::<Option<Seq<char>>, Seq<char>>(
                text_view(variable),
            ),
            Err(message) => charge_variable(name@) == Err::<Option<Seq<char>>, Seq<char>>(
                message@,
            ),
        },
{
    if name.as_str().is_empty() {
        return Ok(None);
    }
    match validate_protocol_token(name.as_str(), "NUT_TIME_TO_FULL_VAR") {
        Ok(()) => {},
        Err(message) => {
            return Err(message);
        },
    }
    if same_text(name.as_str(), "battery.runtime") || same_text(
        name.as_str(),
        "battery.runtime.low",
    ) || same_text(name.as_str(), "battery.runtime.restart") {
        return Err(
            "NUT_TIME_TO_FULL_VAR must describe charging time, not discharge runtime".to_owned(),
        );
    }
    Ok(Some(name))
}

/// Settings that the daemon can run with, or what is wrong with them.
pub open spec fn checked(settings: Settings) -> Result<Settings, Seq<char>> {
    if !is_host(settings.host) {
        Err("NUT host must be a non-empty single-line value"@)
    } else if !is_protocol_name(settings.ups_name) {
        Err("UPS name"@ + " may contain only ASCII letters, digits, '.', '_' and '-'"@)
    } else if settings.sysfs_path.len() == 0 {
        Err("sysfs path must not be empty"@)
    } else if !(MIN_CHARGE_FULL_SECONDS <= settings.charge_full_seconds
        <= MAX_TIME_TO_FULL_SECONDS) {
        Err("NUT_CHARGE_FULL_SECONDS must be between 1200 and 72000 seconds"@)
    } else if final_name(settings.charge_state_path) is None {
        Err("NUT_CHARGE_STATE_PATH must name a state file"@)
    } else {
        match charge_variable(settings.time_to_full_var->Some_0) {
            Ok(time_to_full_var) => Ok(Settings { time_to_full_var, ..settings }),
            Err(message) => Err(message),
        }
    }
}

/// Checks settings.
fn check(config: Config) -> (result: Result<Config, String>)
    requires
        config.time_to_full_var is Some,
    ensures
        match result {
            Ok(valid) => checked(config@) == Ok::<Settings, Seq<char>>(valid@),
            Err(message) => checked(config@) == Err::<Settings, Seq<char>>(message@),
        },
{
    if !valid_host(config.host.as_str()) {
        return Err("NUT host must be a non-empty single-line value".to_owned());
    }
    match validate_protocol_token(config.ups_name.as_str(), "UPS name") {
        Ok(()) => {},
        Err(message) => {
            return Err(message);
        },
    }
    if config.sysfs_path.len() == 0 {
        return Err("sysfs path must not be empty".to_owned());
    }
    if config.charge_full_seconds < MIN_CHARGE_FULL_SECONDS || config.charge_full_seconds
        > MAX_TIME_TO_FULL_SECONDS {
        return Err("NUT_CHARGE_FULL_SECONDS must be between 1200 and 72000 seconds".to_owned());
    }
    if file_name(&config.charge_state_path).is_none() {
        return Err("NUT_CHARGE_STATE_PATH must name a state file".to_owned());
    }
    let variable: Option<String> = match config.time_to_full_var {
        Some(name) => match check_charge_variable(name) {
            Ok(variable) => variable,
            Err(message) => {
                return Err(message);
            },
        },
        None => None,
    };
    Ok(
        Config {
            host: config.host,
            ups_name: config.ups_name,
            poll_interval_seconds: config.poll_interval_seconds,
            timeout_seconds: config.timeout_seconds,
            sysfs_path: config.sysfs_path,
            charge_full_seconds: config.charge_full_seconds,
            charge_state_path: config.charge_state_path,
            time_to_full_var: variable,
        },
    )
}

/// What the environment and the arguments ask for: settings, `None` for help, or what is wrong.
pub open spec fn invocation_of(env: Environment, args: Seq<Seq<char>>) -> Result<
    Option<Settings>,
    Seq<char>,
> {
    match settings_of(env) {
        Err(message) => Err(message),
        Ok(settings) => match with_arguments(settings, args) {
            Err(message) => Err(message),
            Ok(None) => Ok(None),
            Ok(Some(changed)) => match checked(changed) {
                Ok(valid) => Ok(Some(valid)),
                Err(message) => Err(message),
            },
        },
    }
}

/// The arguments do not take the variable for the charging time away, and no time becomes zero.
proof fn lemma_arguments_keep_variable(settings: Settings, args: Seq<Seq<char>>)
    ensures
        with_arguments(settings, args) matches Ok(Some(changed)) ==> changed.time_to_full_var
            == settings.time_to_full_var && changed.charge_full_seconds
            == settings.charge_full_seconds && changed.charge_state_path
            == settings.charge_state_path && (settings.poll_interval_seconds > 0
            ==> changed.poll_interval_seconds > 0) && (settings.timeout_seconds > 0
            ==> changed.timeout_seconds > 0),
    decreases args.len(),
{
    if args.len() > 1 {
        let value = args[1];
        let rest = args.skip(2);
        lemma_arguments_keep_variable(Settings { host: value, ..settings }, rest);
        lemma_arguments_keep_variable(Settings { ups_name: value, ..settings }, rest);
        match positive_seconds(value, args[0]) {
            Ok(number) => {
                lemma_arguments_keep_variable(
                    Settings { poll_interval_seconds: number, ..settings },
                    rest,
                );
                lemma_arguments_keep_variable(
                    Settings { timeout_seconds: number, ..settings },
                    rest,
                );
            },
            Err(_) => {},
        }
        lemma_arguments_keep_variable(
            Settings { sysfs_path: encode_utf8(value), ..settings },
            rest,
        );
    }
}

/// Settings that are accepted can be used: the names can stand in requests, no time is zero, the
/// charging duration is within its limits, the state file has a name, and no discharge runtime is
/// taken for a charging time.
pub proof fn law_accepted_settings_are_usable(env: Environment, args: Seq<Seq<char>>)
    ensures
        invocation_of(env, args) matches Ok(Some(valid)) ==> {
            &&& is_host(valid.host)
            &&& is_protocol_name(valid.ups_name)
            &&& valid.poll_interval_seconds > 0
            &&& valid.timeout_seconds > 0
            &&& valid.sysfs_path.len() > 0
            &&& MIN_CHARGE_FULL_SECONDS <= valid.charge_full_seconds <= MAX_TIME_TO_FULL_SECONDS
            &&& final_name(valid.charge_state_path) is Some
            &&& valid.time_to_full_var matches Some(name) ==> is_protocol_name(name)
                && !is_runtime_variable(name)
        },
{
    match settings_of(env) {
        Ok(settings) => {
            lemma_arguments_keep_variable(settings, args);
        },
        Err(_) => {},
    }
}

impl Config {
    /// Reads the configuration from the environment and the arguments behind the program name.
    /// Arguments come after the environment; the result is then checked.
    pub fn from_env_and_args(env: &Environment, args: Vec<String>) -> (result: Result<
        Invocation,
        String,
    >)
        ensures
            match result {
                Ok(Invocation::Run { config }) => invocation_of(*env, views(args@)) == Ok::<
                    Option<Settings>,
                    Seq<char>,
                >(Some(config@)),
                Ok(Invocation::Help) => invocation_of(*env, views(args@)) == Ok::<
                    Option<Settings>,
                    Seq<char>,
                >(None),
                Err(message) => invocation_of(*env, views(args@)) == Err::<
                    Option<Settings>,
                    Seq<char>,
                >(message@),
            },
    {
        let settings: Config = match read_environment(env) {
            Ok(settings) => settings,
            Err(message) => {
                return Err(message);
            },
        };
        proof {
            lemma_arguments_keep_variable(settings@, views(args@));
        }
        let changed: Config = match apply_arguments(settings, args) {
            Ok(Some(changed)) => changed,
            Ok(None) => {
                return Ok(Invocation::Help);
            },
            Err(message) => {
                return Err(message);
            },
        };
        match check(changed) {
            Ok(config) => Ok(Invocation::Run { config }),
            Err(message) => Err(message),
        }
    }

    /// The identity under which a learned rate is kept: the host and the name of the UPS.
    pub fn identity(&self) -> (identity: String)
        ensures
            identity@ == identity_of(self@.host, self@.ups_name),
    {
        join3(self.host.as_str(), " ", self.ups_name.as_str())
    }

    /// The longest gap between two samples of one observation, in nanoseconds: three polls, and at
    /// least fifteen seconds.
    pub fn max_sample_gap(&self) -> (gap: u128)
        ensures
            gap == sample_gap_of(self@.poll_interval_seconds),
    {
        let three_polls: u128 = 3 * (self.poll_interval_seconds as u128);
        let gap: u128 = if three_polls > u64::MAX as u128 {
            LONGEST_TIME
        } else {
            three_polls * 1_000_000_000
        };
        if gap < SHORTEST_SAMPLE_GAP {
            SHORTEST_SAMPLE_GAP
        } else {
            gap
        }
    }
}

/// The identity of a UPS.
pub open spec fn identity_of(host: Seq<char>, ups_name: Seq<char>) -> Seq<char> {
    host + " "@ + ups_name
}

/// Three polls, and at least fifteen seconds; no longer than the clocks measure.
pub open spec fn sample_gap_of(poll_interval_seconds: u64) -> int {
    if 3 * poll_interval_seconds > u64::MAX {
        LONGEST_TIME as int
    } else if 3 * poll_interval_seconds < 15 {
        15_000_000_000
    } else {
        3 * poll_interval_seconds * 1_000_000_000
    }
}

} // verus!
