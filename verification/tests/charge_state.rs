use nut_power_bridge::charge_state::accept_rate;
use nut_power_bridge::charge_state::after_create;
use nut_power_bridge::charge_state::identity_key;
use nut_power_bridge::charge_state::read_state;
use nut_power_bridge::charge_state::state_text;
use nut_power_bridge::charge_state::temporary_name;
use nut_power_bridge::charge_state::CreateOutcome;
use nut_power_bridge::charge_state::SaveStep;
use nut_power_bridge::charge_state::MAX_STATE_BYTES;
use nut_power_bridge::charging::LearnedRate;
use nut_power_bridge::failure::Failure;
use nut_power_bridge::failure::FailureKind;
use nut_power_bridge::number::Number;

const SECOND: i128 = 1_000_000_000;

fn number(value: f64) -> Number {
    Number::from_bits(value.to_bits())
}

#[test]
fn keys_are_hexadecimal() {
    assert_eq!(identity_key(""), "");
    assert_eq!(identity_key("127.0.0.1:3493 ups"), "3132372e302e302e313a3334393320757073");
    assert_eq!(identity_key("\u{e9}~\n"), "c3a97e0a");
    assert_ne!(identity_key("host ups"), identity_key("host ups2"));
}

#[test]
fn text_of_the_state_file() {
    assert_eq!(
        state_text("h u", "50.00000000000000000", 1_700_000_000 * SECOND + 999_999_999),
        Ok("nut-power-bridge-charge-rate-v1\nidentity=682075\ntimestamp=1700000000\n\
            seconds_per_percent=50.00000000000000000\n"
            .to_string())
    );
}

#[test]
fn no_state_before_the_epoch() {
    assert_eq!(
        state_text("h u", "50", -1),
        Err(Failure {
            kind: FailureKind::InvalidData,
            message: "second time provided was later than self".to_string()
        })
    );
    assert!(state_text("h u", "50", 0).is_ok());
}

#[test]
fn state_has_a_size_limit() {
    let rest = state_text("", "50", 0).unwrap().len();
    let fitting = "u".repeat((MAX_STATE_BYTES - rest) / 2);
    let text = state_text(&fitting, "50", 0).unwrap();
    assert_eq!(read_state(&text, &fitting), Some((0, "50".to_string())));
    assert_eq!(
        state_text(&format!("{fitting}u"), "50", 0),
        Err(Failure {
            kind: FailureKind::InvalidInput,
            message: "Charging state exceeds the size limit".to_string()
        })
    );
}

#[test]
fn state_reads_back() {
    // Seventeen digits behind the point give every rate back.
    for rate in [12.0, 50.1, 100.0 / 3.0, 71999.99999999999, 144.0000000000001] {
        let wall = 1_700_000_000 * SECOND + 123_456_789;
        let text = state_text("host ups", &format!("{rate:.17}"), wall).unwrap();
        let (timestamp, found) = read_state(&text, "host ups").unwrap();
        assert_eq!(timestamp, 1_700_000_000);
        let learned = accept_rate(timestamp, found.parse::<f64>().ok().map(number), wall).unwrap();
        assert_eq!(f64::from_bits(learned.rate.to_bits()), rate);
        assert_eq!(learned.learned_at, 1_700_000_000 * SECOND);
    }
}

#[test]
fn state_of_another_ups_is_ignored() {
    let text = state_text("host ups", "50", 0).unwrap();
    assert_eq!(read_state(&text, "host ups2"), None);
    assert_eq!(read_state(&text, "host"), None);
    assert!(read_state(&text, "host ups").is_some());
}

#[test]
fn malformed_state_is_ignored() {
    let good = "nut-power-bridge-charge-rate-v1\nidentity=61\ntimestamp=5\nseconds_per_percent=50\n";
    assert_eq!(read_state(good, "a"), Some((5, "50".to_string())));
    assert_eq!(read_state(good.trim_end(), "a"), Some((5, "50".to_string())));
    assert_eq!(read_state(&good.replace('\n', "\r\n"), "a"), Some((5, "50".to_string())));
    let cases = [
        String::new(),
        good.replace("-v1", "-v2"),
        good.replace("identity=", "identity:"),
        good.replace("=61", "=62"),
        good.replace("timestamp=5", "timestamp=x"),
        good.replace("timestamp=5", "timestamp=-5"),
        good.replace("timestamp=5", "timestamp=18446744073709551616"),
        good.replace("timestamp=5", "time=5"),
        good.replace("seconds_per_percent", "rate"),
        good.replace("seconds_per_percent=50\n", ""),
        format!("{good}more\n"),
        format!("{good}\n"),
        format!("\n{good}"),
        format!("{good}{}", "x".repeat(MAX_STATE_BYTES)),
    ];
    for text in cases {
        assert_eq!(read_state(&text, "a"), None, "{text:?}");
    }
}

#[test]
fn rates_are_accepted_for_thirty_days() {
    let rate = Some(number(50.0));
    let limit = 30 * 24 * 60 * 60;
    let accepted = Some(LearnedRate {
        rate: number(50.0).positive().unwrap(),
        learned_at: 1000 * SECOND,
    });
    assert_eq!(accept_rate(1000, rate, 1000 * SECOND), accepted);
    assert_eq!(accept_rate(1000, rate, (1000 + limit) * SECOND + SECOND - 1), accepted);
    assert_eq!(accept_rate(1000, rate, (1001 + limit) * SECOND), None);
    assert_eq!(accept_rate(1000, rate, 999 * SECOND), None);
    assert_eq!(accept_rate(0, rate, -1), None);
    assert_eq!(accept_rate(u64::MAX, rate, i128::MAX), None);
}

#[test]
fn invalid_rates_are_not_accepted() {
    for rate in [0.0, -0.0, -50.0, 11.9, 72000.1, f64::NAN, f64::INFINITY, f64::NEG_INFINITY] {
        assert_eq!(accept_rate(0, Some(number(rate)), 0), None, "{rate}");
    }
    assert_eq!(accept_rate(0, None, 0), None);
    assert!(accept_rate(0, Some(number(12.0)), 0).is_some());
    assert!(accept_rate(0, Some(number(72000.0)), 0).is_some());
}

#[test]
fn names_of_temporary_files() {
    assert_eq!(
        temporary_name(&b"/var/lib/charge-rate".to_vec(), 42, 1_700_000_000_123_456_789, 3),
        Ok(b"charge-rate.42.1700000000123456789.3.tmp".to_vec())
    );
    assert_eq!(
        temporary_name(&vec![0xff], 1, 0, 0),
        Ok([&[0xff][..], b".1.0.0.tmp"].concat())
    );
    assert_eq!(
        temporary_name(&b"/var/..".to_vec(), 1, 2, 0),
        Err(Failure {
            kind: FailureKind::InvalidInput,
            message: "Charging state needs a filename".to_string()
        })
    );
    assert_ne!(
        temporary_name(&b"a".to_vec(), 1, 2, 0),
        temporary_name(&b"a".to_vec(), 1, 2, 1)
    );
}

#[test]
fn attempts_to_create_a_temporary_file() {
    for attempt in 0..8 {
        assert_eq!(after_create(attempt, CreateOutcome::Created), SaveStep::Write);
        assert_eq!(after_create(attempt, CreateOutcome::Failed), SaveStep::Report);
    }
    for attempt in 0..7 {
        assert_eq!(
            after_create(attempt, CreateOutcome::NameTaken),
            SaveStep::Retry { attempt: attempt + 1 }
        );
    }
    assert_eq!(
        after_create(7, CreateOutcome::NameTaken),
        SaveStep::GiveUp {
            failure: Failure {
                kind: FailureKind::AlreadyExists,
                message: "Could not create a unique charging state temporary file".to_string()
            }
        }
    );
}

#[test]
fn the_rate_text_does_not_touch_the_key() {
    for rate_text in ["", "5\n0", "5\r", "50\nidentity=62"] {
        let text = state_text("a", rate_text, 0).unwrap();
        assert_eq!(read_state(&text, "b"), None, "{rate_text:?}");
    }
}

#[test]
fn seventeen_decimals_determine_a_rate() {
    let mut bits = 12.0f64.to_bits();
    while bits <= 72000.0f64.to_bits() {
        let rate = f64::from_bits(bits);
        let text = format!("{rate:.17}");
        assert_eq!(text.split('.').nth(1).unwrap().len(), 17);
        let state = state_text("a", &text, 0).unwrap();
        let (timestamp, found) = read_state(&state, "a").unwrap();
        let loaded = accept_rate(timestamp, found.parse::<f64>().ok().map(number), 0).unwrap();
        assert_eq!(loaded.rate.to_bits(), bits);
        assert_eq!(loaded.learned_at, 0);
        bits += 0x1234_5678_9abd;
    }
}
