use nut_power_bridge::config::env_string;
use nut_power_bridge::config::env_u64;
use nut_power_bridge::config::next_argument;
use nut_power_bridge::config::parse_positive_u64;
use nut_power_bridge::config::Arguments;
use nut_power_bridge::config::Config;
use nut_power_bridge::config::EnvValue;
use nut_power_bridge::config::Environment;
use nut_power_bridge::config::Invocation;

fn text(value: &str) -> EnvValue {
    EnvValue::Text { text: value.to_string() }
}

fn empty() -> Environment {
    Environment {
        host: EnvValue::Absent,
        ups_name: EnvValue::Absent,
        poll_interval_seconds: EnvValue::Absent,
        timeout_seconds: EnvValue::Absent,
        sysfs_path: None,
        charge_full_seconds: EnvValue::Absent,
        charge_state_path: None,
        time_to_full_var: EnvValue::Absent,
    }
}

fn read(env: &Environment, args: &[&str]) -> Result<Invocation, String> {
    Config::from_env_and_args(env, args.iter().map(|arg| arg.to_string()).collect())
}

fn config(env: &Environment, args: &[&str]) -> Config {
    match read(env, args) {
        Ok(Invocation::Run { config }) => config,
        other => panic!("{other:?}"),
    }
}

fn error(env: &Environment, args: &[&str]) -> String {
    match read(env, args) {
        Err(message) => message,
        other => panic!("{other:?}"),
    }
}

fn defaults() -> Config {
    Config {
        host: "127.0.0.1:3493".to_string(),
        ups_name: "ups".to_string(),
        poll_interval_seconds: 2,
        timeout_seconds: 5,
        sysfs_path: b"/sys/kernel/nut_battery/update".to_vec(),
        charge_full_seconds: 14400,
        charge_state_path: b"/var/lib/nut-power-bridge/charge-rate".to_vec(),
        time_to_full_var: None,
    }
}

#[test]
fn default_settings() {
    assert_eq!(config(&empty(), &[]), defaults());
}

#[test]
fn settings_from_the_environment() {
    let env = Environment {
        host: text("nas:3493"),
        ups_name: text("apc"),
        poll_interval_seconds: text("10"),
        timeout_seconds: text("7"),
        sysfs_path: Some(b"/tmp/x".to_vec()),
        charge_full_seconds: text("7200"),
        charge_state_path: Some(b"/tmp/state".to_vec()),
        time_to_full_var: text("battery.charge.time"),
    };
    let from_env = Config {
        host: "nas:3493".to_string(),
        ups_name: "apc".to_string(),
        poll_interval_seconds: 10,
        timeout_seconds: 7,
        sysfs_path: b"/tmp/x".to_vec(),
        charge_full_seconds: 7200,
        charge_state_path: b"/tmp/state".to_vec(),
        time_to_full_var: Some("battery.charge.time".to_string()),
    };
    assert_eq!(config(&env, &[]), from_env);
    // Arguments come after the environment, and the last one counts.
    let args = [
        "--host", "a:1", "--ups", "b", "--interval", "3", "--timeout", "+4", "--sysfs-path", "/y",
        "--host", "c:2",
    ];
    assert_eq!(
        config(&env, &args),
        Config {
            host: "c:2".to_string(),
            ups_name: "b".to_string(),
            poll_interval_seconds: 3,
            timeout_seconds: 4,
            sysfs_path: b"/y".to_vec(),
            ..from_env
        }
    );
}

#[test]
fn help_ends_the_arguments() {
    assert_eq!(read(&empty(), &["-h"]), Ok(Invocation::Help));
    assert_eq!(read(&empty(), &["--host", "", "--help", "--bogus"]), Ok(Invocation::Help));
    assert_eq!(error(&empty(), &["--bogus", "--help"]), "unknown argument: --bogus");
    // As the value of an option it is no request for help.
    assert_eq!(config(&empty(), &["--host", "--help"]).host, "--help");
    let env = Environment { timeout_seconds: text("x"), ..empty() };
    assert_eq!(
        error(&env, &["--help"]),
        "NUT_TIMEOUT_SECONDS must be a positive whole number of seconds"
    );
}

#[test]
fn wrong_arguments() {
    for option in ["--host", "--ups", "--interval", "--timeout", "--sysfs-path"] {
        assert_eq!(error(&empty(), &[option]), format!("missing value for {option}"));
    }
    for option in ["--interval", "--timeout"] {
        for value in ["0", "-1", "1.5", "", "18446744073709551616"] {
            assert_eq!(
                error(&empty(), &[option, value]),
                format!("{option} must be a positive whole number of seconds")
            );
        }
    }
    assert_eq!(error(&empty(), &["x"]), "unknown argument: x");
    assert_eq!(error(&empty(), &["--HOST", "x"]), "unknown argument: --HOST");
}

#[test]
fn wrong_environment() {
    let cases = [
        (Environment { host: EnvValue::NotUnicode, ..empty() }, "NUT_HOST is not valid UTF-8"),
        (
            Environment { ups_name: EnvValue::NotUnicode, ..empty() },
            "NUT_UPS_NAME is not valid UTF-8",
        ),
        (
            Environment { poll_interval_seconds: EnvValue::NotUnicode, ..empty() },
            "NUT_POLL_INTERVAL_SECONDS is not valid UTF-8",
        ),
        (
            Environment { poll_interval_seconds: text("0"), ..empty() },
            "NUT_POLL_INTERVAL_SECONDS must be a positive whole number of seconds",
        ),
        (
            Environment { timeout_seconds: text("soon"), ..empty() },
            "NUT_TIMEOUT_SECONDS must be a positive whole number of seconds",
        ),
        (
            Environment { charge_full_seconds: text("-3"), ..empty() },
            "NUT_CHARGE_FULL_SECONDS must be a positive whole number of seconds",
        ),
        (
            Environment { time_to_full_var: EnvValue::NotUnicode, ..empty() },
            "NUT_TIME_TO_FULL_VAR is not valid UTF-8",
        ),
    ];
    for (env, message) in cases {
        assert_eq!(error(&env, &[]), message);
    }
}

#[test]
fn unusable_settings() {
    let cases = [
        (
            Environment { host: text(""), ..empty() },
            "NUT host must be a non-empty single-line value",
        ),
        (
            Environment { host: text("a\nb"), ..empty() },
            "NUT host must be a non-empty single-line value",
        ),
        (
            Environment { host: text("a\u{85}"), ..empty() },
            "NUT host must be a non-empty single-line value",
        ),
        (
            Environment { ups_name: text("my ups"), ..empty() },
            "UPS name may contain only ASCII letters, digits, '.', '_' and '-'",
        ),
        (Environment { sysfs_path: Some(vec![]), ..empty() }, "sysfs path must not be empty"),
        (
            Environment { charge_full_seconds: text("1199"), ..empty() },
            "NUT_CHARGE_FULL_SECONDS must be between 1200 and 72000 seconds",
        ),
        (
            Environment { charge_full_seconds: text("72001"), ..empty() },
            "NUT_CHARGE_FULL_SECONDS must be between 1200 and 72000 seconds",
        ),
        (
            Environment { charge_state_path: Some(vec![]), ..empty() },
            "NUT_CHARGE_STATE_PATH must name a state file",
        ),
        (
            Environment { charge_state_path: Some(b"/var/..".to_vec()), ..empty() },
            "NUT_CHARGE_STATE_PATH must name a state file",
        ),
        (
            Environment { time_to_full_var: text("a b"), ..empty() },
            "NUT_TIME_TO_FULL_VAR may contain only ASCII letters, digits, '.', '_' and '-'",
        ),
    ];
    for (env, message) in cases {
        assert_eq!(error(&env, &[]), message);
    }
    for name in ["battery.runtime", "battery.runtime.low", "battery.runtime.restart"] {
        let env = Environment { time_to_full_var: text(name), ..empty() };
        assert_eq!(
            error(&env, &[]),
            "NUT_TIME_TO_FULL_VAR must describe charging time, not discharge runtime"
        );
    }
    assert_eq!(error(&empty(), &["--sysfs-path", ""]), "sysfs path must not be empty");
}

#[test]
fn limits_of_settings() {
    for seconds in ["1200", "72000"] {
        let env = Environment { charge_full_seconds: text(seconds), ..empty() };
        assert_eq!(config(&env, &[]).charge_full_seconds.to_string(), seconds);
    }
    let env = Environment { time_to_full_var: text(""), ..empty() };
    assert_eq!(config(&env, &[]).time_to_full_var, None);
    let env = Environment { host: text("host with spaces \u{e9}"), ..empty() };
    assert_eq!(config(&env, &[]).host, "host with spaces \u{e9}");
}

#[test]
fn single_values() {
    assert_eq!(parse_positive_u64("18446744073709551615", "n"), Ok(u64::MAX));
    assert_eq!(
        parse_positive_u64("0", "n"),
        Err("n must be a positive whole number of seconds".to_string())
    );
    assert_eq!(env_u64(&EnvValue::Absent, "n", 9), Ok(9));
    assert_eq!(env_u64(&text("8"), "n", 9), Ok(8));
    assert_eq!(env_string(&EnvValue::Absent, "n", "d"), Ok("d".to_string()));
    assert_eq!(env_string(&text(""), "n", "d"), Ok(String::new()));
    assert_eq!(
        env_string(&EnvValue::NotUnicode, "n", "d"),
        Err("n is not valid UTF-8".to_string())
    );
}

#[test]
fn values_of_options() {
    let mut args = Arguments::new(vec!["a".to_string(), "b".to_string()]);
    assert_eq!(args.take(), Some("a".to_string()));
    assert_eq!(next_argument(&mut args, "--x"), Ok("b".to_string()));
    assert_eq!(next_argument(&mut args, "--x"), Err("missing value for --x".to_string()));
    assert_eq!(args.take(), None);
}

#[test]
fn identities_and_sample_gaps() {
    assert_eq!(defaults().identity(), "127.0.0.1:3493 ups");
    let gap = |seconds| Config { poll_interval_seconds: seconds, ..defaults() }.max_sample_gap();
    assert_eq!(gap(2), 15_000_000_000);
    assert_eq!(gap(5), 15_000_000_000);
    assert_eq!(gap(6), 18_000_000_000);
    let third = u64::MAX / 3;
    assert_eq!(gap(third), u64::MAX as u128 * 1_000_000_000);
    assert_eq!(gap(third + 1), std::time::Duration::MAX.as_nanos());
    assert_eq!(gap(u64::MAX), std::time::Duration::MAX.as_nanos());
}
