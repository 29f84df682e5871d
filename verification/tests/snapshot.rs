use nut_power_bridge::charging::ChargeSource;
use nut_power_bridge::charging::ChargingEstimator;
use nut_power_bridge::failure::Failure;
use nut_power_bridge::failure::FailureKind;
use nut_power_bridge::magnitude::Magnitude;
use nut_power_bridge::number::Number;
use nut_power_bridge::snapshot::advance;
use nut_power_bridge::snapshot::complete_snapshot;
use nut_power_bridge::snapshot::parse_scaled_integer;
use nut_power_bridge::snapshot::snapshot_line;
use nut_power_bridge::snapshot::version_takes_charge_time;
use nut_power_bridge::snapshot::FetchStage;
use nut_power_bridge::snapshot::FetchStep;
use nut_power_bridge::snapshot::Readings;
use nut_power_bridge::snapshot::Reply;
use nut_power_bridge::snapshot::Snapshot;

fn bad(message: &str) -> Failure {
    Failure { kind: FailureKind::InvalidData, message: message.to_string() }
}

fn number(value: f64) -> Number {
    Number::from_bits(value.to_bits())
}

fn magnitude(value: f64) -> Magnitude {
    number(value).positive().unwrap()
}

fn reply(text: &str) -> Option<Reply> {
    Some(Reply { text: text.to_string(), number: text.parse::<f64>().ok().map(number) })
}

const LAST: Snapshot = Snapshot {
    capacity: 40,
    voltage_now_uv: 12_500_000,
    time_to_empty_seconds: 900,
    status: 1,
    ac_online: 1,
    time_to_full_seconds: 3600,
    charge_source: Some(ChargeSource::Learned),
};

const CHARGING: Readings = Readings {
    capacity: 40,
    voltage_now_uv: 13_000_000,
    time_to_empty_seconds: 600,
    status: 1,
    ac_online: 1,
};

/// Asks a UPS for what a snapshot needs: what was asked for, and how it ended.
fn fetch(
    variables: &[(&str, &str)],
    last: Option<Snapshot>,
    time_to_full_var: Option<&str>,
) -> (Vec<String>, Result<FetchStep, Failure>) {
    let mut asked = Vec::new();
    let mut stage = FetchStage::Charge;
    loop {
        let name = stage.variable(time_to_full_var.unwrap_or(""));
        let found = variables.iter().find(|(variable, _)| *variable == name);
        asked.push(name);
        let value = found.and_then(|(_, text)| reply(text));
        match advance(stage, value, last, time_to_full_var.is_some()) {
            Ok(FetchStep::Ask { stage: next }) => stage = next,
            end => return (asked, end),
        }
    }
}

#[test]
fn scaled_integers() {
    let parse = |text: &str, scale, minimum, maximum| {
        let number = text.parse::<f64>().ok().map(number);
        parse_scaled_integer(text, number, scale, minimum, maximum, "v")
    };
    assert_eq!(parse("99.5", 1, 0, 100), Ok(100));
    assert_eq!(parse("0.4", 1, 0, 100), Ok(0));
    assert_eq!(parse("-0", 1, 0, 100), Ok(0));
    assert_eq!(parse("12.6", 1_000_000, 0, i32::MAX), Ok(12_600_000));
    assert_eq!(parse("2147.483647", 1_000_000, 0, i32::MAX), Ok(i32::MAX));
    for text in ["100.1", "-0.1", "1e400", "-1e400", "nan", "inf"] {
        assert_eq!(
            parse(text, 1, 0, 100),
            Err(bad(&format!("v is outside the supported range: {text}")))
        );
    }
    assert_eq!(
        parse("1e308", 1_000_000, 0, i32::MAX),
        Err(bad("v is outside the supported range: 1e308"))
    );
    for text in ["", "abc", "1,5", " 1"] {
        assert_eq!(parse(text, 1, 0, 100), Err(bad(&format!("v is not numeric: {text}"))));
    }
}

#[test]
fn scaling_matches_the_processor() {
    for text in ["13.7", "0.0000005", "54.321987", "12.3456785", "1.0000005"] {
        let value = text.parse::<f64>().unwrap();
        assert_eq!(
            parse_scaled_integer(text, Some(number(value)), 1_000_000, 0, i32::MAX, "v"),
            Ok((value * 1_000_000.0).round() as i32)
        );
    }
}

#[test]
fn lines_for_the_kernel_module() {
    assert_eq!(snapshot_line(&LAST, false), "40 12500000 900 1 1\n");
    assert_eq!(snapshot_line(&LAST, true), "40 12500000 900 1 1 3600\n");
    let line = snapshot_line(&LAST, true);
    let numbers: Vec<i32> = line.split_whitespace().map(|word| word.parse().unwrap()).collect();
    assert_eq!(numbers, vec![40, 12_500_000, 900, 1, 1, 3600]);
    let odd = Snapshot { capacity: -1, voltage_now_uv: i32::MIN, ..LAST };
    assert_eq!(snapshot_line(&odd, false), "-1 -2147483648 900 1 1\n");
}

#[test]
fn versions_that_take_the_charging_time() {
    for version in ["2", "2\n", " \t2\r\n", "\u{a0}2\u{3000}"] {
        assert!(version_takes_charge_time(version));
    }
    for version in ["", "\n", "1\n", "22", "2 2", "2.0", "02", "-2"] {
        assert!(!version_takes_charge_time(version));
    }
}

#[test]
fn a_discharging_ups() {
    let (asked, end) = fetch(
        &[
            ("battery.charge", "87.4"),
            ("battery.runtime", "1200"),
            ("battery.voltage", "13.5"),
            ("ups.status", "OB DISCHRG"),
        ],
        None,
        Some("battery.charge.time"),
    );
    assert_eq!(asked, vec!["battery.charge", "battery.runtime", "battery.voltage", "ups.status"]);
    assert_eq!(
        end,
        Ok(FetchStep::Done {
            readings: Readings {
                capacity: 87,
                voltage_now_uv: 13_500_000,
                time_to_empty_seconds: 1200,
                status: 2,
                ac_online: 0,
            },
            ups_estimate: None,
        })
    );
}

#[test]
fn missing_values_keep_the_last_known() {
    let variables = [("battery.charge", "87"), ("ups.status", "OL")];
    for (last, runtime, voltage) in [(Some(LAST), 900, 12_500_000), (None, 0, 0)] {
        let (_, end) = fetch(&variables, last, None);
        match end {
            Ok(FetchStep::Done { readings, ups_estimate }) => {
                assert_eq!(readings.time_to_empty_seconds, runtime);
                assert_eq!(readings.voltage_now_uv, voltage);
                assert_eq!((readings.status, readings.ac_online), (3, 1));
                assert_eq!(ups_estimate, None);
            }
            other => panic!("{other:?}"),
        }
    }
}

#[test]
fn missing_required_values() {
    assert_eq!(
        fetch(&[("ups.status", "OL")], Some(LAST), None).1,
        Err(bad("required NUT variable is not available: battery.charge"))
    );
    assert_eq!(
        fetch(&[("battery.charge", "50")], Some(LAST), None).1,
        Err(bad("required NUT variable is not available: ups.status"))
    );
}

#[test]
fn invalid_values() {
    let charge = ("battery.charge", "50");
    for (variables, message) in [
        (vec![("battery.charge", "101")], "battery.charge is outside the supported range: 101"),
        (vec![("battery.charge", "x")], "battery.charge is not numeric: x"),
        (vec![charge, ("battery.runtime", "")], "battery.runtime is not numeric: "),
        (vec![charge, ("battery.runtime", "-1")], "battery.runtime is outside the supported range: -1"),
        (
            vec![charge, ("battery.voltage", "2147.483648")],
            "battery.voltage is outside the supported range: 2147.483648",
        ),
        (vec![charge, ("ups.status", "X")], "ups.status must contain exactly one of OL or OB: X"),
    ] {
        assert_eq!(fetch(&variables, Some(LAST), None).1, Err(bad(message)));
    }
}

fn charging_ups<'a>(more: &[(&'a str, &'a str)]) -> Vec<(&'a str, &'a str)> {
    let mut variables = vec![("battery.charge", "40"), ("ups.status", "OL CHRG")];
    variables.extend_from_slice(more);
    variables
}

fn estimate(end: Result<FetchStep, Failure>) -> Option<(f64, ChargeSource)> {
    match end {
        Ok(FetchStep::Done { ups_estimate, .. }) => {
            ups_estimate.map(|(seconds, source)| (f64::from_bits(seconds.to_bits()), source))
        }
        other => panic!("{other:?}"),
    }
}

#[test]
fn a_reported_charging_time_comes_first() {
    let variables = charging_ups(&[("x.time", "1800.5"), ("battery.capacity", "7"), ("battery.current", "1")]);
    let (asked, end) = fetch(&variables, None, Some("x.time"));
    assert_eq!(asked.last().unwrap(), "x.time");
    assert_eq!(asked.len(), 5);
    assert_eq!(estimate(end), Some((1800.5, ChargeSource::UpsTime)));
}

#[test]
fn a_charging_time_from_the_current() {
    for (amp_hours, current) in [("7.2", "0.9"), ("9", "-1.3"), ("17.05", "0.333")] {
        let variables = charging_ups(&[
            ("x.time", "0"),
            ("battery.capacity", amp_hours),
            ("battery.current", current),
        ]);
        let (asked, end) = fetch(&variables, None, Some("x.time"));
        assert_eq!(asked.len(), 7);
        let (a, c) = (amp_hours.parse::<f64>().unwrap(), current.parse::<f64>().unwrap());
        let expected = 3600.0 * a * 60.0 / (100.0 * c.abs());
        assert_eq!(estimate(end), Some((expected, ChargeSource::UpsCurrent)));
    }
    // 3600 * 7 * 60 / (100 * 1)
    let variables = charging_ups(&[("battery.capacity", "7"), ("battery.current", "1")]);
    let (asked, end) = fetch(&variables, None, None);
    assert_eq!(asked[4..], ["battery.capacity", "battery.current"]);
    assert_eq!(estimate(end), Some((15120.0, ChargeSource::UpsCurrent)));
}

#[test]
fn unusable_charging_data_does_not_stop_a_snapshot() {
    for more in [
        vec![],
        vec![("x.time", "abc")],
        vec![("x.time", "-5"), ("battery.capacity", "0"), ("battery.current", "1")],
        vec![("x.time", "inf"), ("battery.capacity", "nan"), ("battery.current", "1")],
        vec![("battery.capacity", "-7"), ("battery.current", "1")],
        vec![("battery.capacity", "7"), ("battery.current", "0")],
        vec![("battery.capacity", "7"), ("battery.current", "-0")],
        vec![("battery.capacity", "7"), ("battery.current", "inf")],
        vec![("battery.capacity", "7")],
        vec![("battery.capacity", "1e308"), ("battery.current", "1")],
        vec![("battery.capacity", "1e303"), ("battery.current", "1e-300")],
        vec![("battery.capacity", "1e-300"), ("battery.current", "1e300")],
        vec![("battery.capacity", "1"), ("battery.current", "1e308")],
    ] {
        assert_eq!(estimate(fetch(&charging_ups(&more), None, Some("x.time")).1), None, "{more:?}");
    }
}

#[test]
fn a_full_battery_needs_no_charging_time() {
    let variables = [("battery.charge", "100"), ("ups.status", "OL CHRG")];
    let (asked, end) = fetch(&variables, None, Some("x.time"));
    assert_eq!(asked.len(), 4);
    assert_eq!(estimate(end), None);
}

#[test]
fn snapshots_are_completed_with_an_estimate() {
    let mut charging =
        ChargingEstimator::new(b"s".to_vec(), "h u".to_string(), 14400, 15_000_000_000, None);
    let (snapshot, record) = complete_snapshot(&mut charging, CHARGING, None, 0, 0, 0);
    assert_eq!(
        snapshot,
        Snapshot {
            capacity: 40,
            voltage_now_uv: 13_000_000,
            time_to_empty_seconds: 600,
            status: 1,
            ac_online: 1,
            time_to_full_seconds: 8640,
            charge_source: Some(ChargeSource::Fallback),
        }
    );
    assert_eq!(record, None);
    assert!(charging.memory.session.is_some());
    let offered = Some((magnitude(1000.25), ChargeSource::UpsCurrent));
    let (snapshot, _) = complete_snapshot(&mut charging, CHARGING, offered, 1, 1, 1);
    assert_eq!(snapshot.time_to_full_seconds, 1001);
    assert_eq!(snapshot.charge_source, Some(ChargeSource::UpsCurrent));
    let readings = Readings { status: 3, ..CHARGING };
    let (snapshot, _) = complete_snapshot(&mut charging, readings, None, 2, 2, 2);
    assert_eq!((snapshot.time_to_full_seconds, snapshot.charge_source), (0, None));
    assert_eq!(charging.memory.session, None);
}
