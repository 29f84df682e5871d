use nut_power_bridge::charging::valid_rate;
use nut_power_bridge::charging::ChargeEstimate;
use nut_power_bridge::charging::ChargeSource;
use nut_power_bridge::charging::ChargingEstimator;
use nut_power_bridge::charging::LearnedRate;
use nut_power_bridge::magnitude::Magnitude;
use nut_power_bridge::number::Number;
use std::time::Duration;

const SECOND: u128 = 1_000_000_000;
const DAY: i128 = 86_400_000_000_000;
const GAP: u128 = 15 * SECOND;
const EPOCH: i128 = 1_700_000_000_000_000_000;

fn number(value: f64) -> Number {
    Number::from_bits(value.to_bits())
}

fn magnitude(value: f64) -> Magnitude {
    number(value).positive().unwrap()
}

fn value(rate: Magnitude) -> f64 {
    f64::from_bits(rate.to_bits())
}

fn estimator(full: u64, learned: Option<LearnedRate>) -> ChargingEstimator {
    ChargingEstimator::new(b"/state".to_vec(), "host ups".to_string(), full, GAP, learned)
}

fn known(rate: f64) -> Option<LearnedRate> {
    Some(LearnedRate { rate: magnitude(rate), learned_at: EPOCH })
}

/// A sample while charging, at a time on both clocks.
fn sample(
    charging: &mut ChargingEstimator,
    capacity: i32,
    nanos: u128,
) -> (ChargeEstimate, Option<LearnedRate>) {
    let wall = EPOCH + nanos as i128;
    charging.update(capacity, 1, 1, None, wall, nanos, wall)
}

/// Samples every ten seconds at one capacity.
fn hold(charging: &mut ChargingEstimator, capacity: i32, from: u128, to: u128) {
    let mut at = from;
    while at <= to {
        sample(charging, capacity, at * SECOND);
        at += 10;
    }
}

fn learned(charging: &ChargingEstimator) -> Option<f64> {
    charging.memory.learned.map(|learned| value(learned.rate))
}

#[test]
fn limits_of_the_configured_duration() {
    assert_eq!(estimator(0, None).fallback_full_seconds, 1200);
    assert_eq!(estimator(1199, None).fallback_full_seconds, 1200);
    assert_eq!(estimator(14400, None).fallback_full_seconds, 14400);
    assert_eq!(estimator(u64::MAX, None).fallback_full_seconds, 72000);
    let charging = estimator(14400, known(100.0));
    assert_eq!(charging.state_path, b"/state".to_vec());
    assert_eq!(charging.identity, "host ups");
    assert_eq!(charging.max_sample_gap, GAP);
    assert_eq!(charging.memory.learned, known(100.0));
    assert_eq!(charging.memory.session, None);
    assert_eq!(charging.memory.last_persist_attempt, None);
}

#[test]
fn rates_that_charging_can_have() {
    assert!(valid_rate(magnitude(12.0)));
    assert!(valid_rate(magnitude(72000.0)));
    assert!(!valid_rate(magnitude(11.999999999999998)));
    assert!(!valid_rate(magnitude(72000.00000000001)));
    assert!(!valid_rate(Magnitude::from_integer(0)));
}

#[test]
fn first_estimate_is_the_configured_duration() {
    for (full, capacity, seconds) in [
        (14400, 50, 7200),
        (14400, 0, 14400),
        (14400, 99, 144),
        (1234, 49, 630),
        (1201, 99, 13),
        (1200, 99, 12),
        (72000, 0, 72000),
    ] {
        let mut charging = estimator(full, None);
        let (estimate, record) = sample(&mut charging, capacity, 0);
        assert_eq!(estimate.seconds, seconds);
        assert_eq!(estimate.seconds as u64, ((100 - capacity as u64) * full + 99) / 100);
        assert_eq!(estimate.source, Some(ChargeSource::Fallback));
        assert_eq!(record, None);
    }
}

#[test]
fn no_estimate_unless_charging() {
    for (capacity, status, ac_online) in
        [(50, 0, 1), (50, 2, 0), (50, 3, 1), (50, 4, 1), (50, 1, 0), (100, 1, 1), (-1, 1, 1)]
    {
        let mut charging = estimator(14400, known(100.0));
        sample(&mut charging, 50, 0);
        assert!(charging.memory.session.is_some());
        let found = charging.update(
            capacity,
            status,
            ac_online,
            Some((number(60.0), ChargeSource::UpsTime)),
            EPOCH,
            SECOND,
            EPOCH,
        );
        assert_eq!(found, (ChargeEstimate { seconds: 0, source: None }, None));
        assert_eq!(charging.memory.session, None);
        assert_eq!(charging.memory.learned, known(100.0));
    }
}

#[test]
fn sources_in_order() {
    let update = |ups: Option<(f64, ChargeSource)>, rate: Option<LearnedRate>| {
        let offered = ups.map(|(seconds, source)| (number(seconds), source));
        estimator(14400, rate).update(50, 1, 1, offered, EPOCH, 0, EPOCH).0
    };
    let time = ChargeSource::UpsTime;
    let current = ChargeSource::UpsCurrent;
    let expect = |seconds, source| ChargeEstimate { seconds, source: Some(source) };
    assert_eq!(update(Some((1000.5, time)), known(100.0)), expect(1001, time));
    assert_eq!(update(Some((2000.0, current)), known(100.0)), expect(2000, current));
    assert_eq!(update(None, known(100.1)), expect(5005, ChargeSource::Learned));
    assert_eq!(update(None, None), expect(7200, ChargeSource::Fallback));
    // Data that cannot be used is passed over.
    for seconds in [0.0, -0.0, -5.0, f64::NAN, f64::INFINITY, f64::NEG_INFINITY] {
        assert_eq!(update(Some((seconds, time)), None), expect(7200, ChargeSource::Fallback));
    }
    for source in [ChargeSource::Learned, ChargeSource::Fallback] {
        assert_eq!(update(Some((1000.0, source)), None), expect(7200, ChargeSource::Fallback));
    }
}

#[test]
fn estimates_are_bounded() {
    for capacity in [0, 1, 50, 99] {
        for seconds in [5e-324, 1.0, 600.0, 71999.5, 72000.5, 1e300] {
            let offered = Some((number(seconds), ChargeSource::UpsTime));
            let found = estimator(14400, None).update(capacity, 1, 1, offered, EPOCH, 0, EPOCH).0;
            let least = f64::from(100 - capacity) * 12.0;
            let expected = seconds.clamp(least, 72000.0).ceil() as i32;
            assert_eq!(found.seconds, expected);
            // At most 300 W on a scale of 100 Wh.
            assert!((100 - capacity) * 3600 <= 300 * found.seconds);
        }
    }
}

#[test]
fn a_rate_is_learned_from_two_points() {
    let mut charging = estimator(14400, None);
    hold(&mut charging, 50, 0, 20);
    // The first increase begins the measurement.
    assert_eq!(sample(&mut charging, 51, 30 * SECOND).1, None);
    assert_eq!(learned(&charging), None);
    hold(&mut charging, 51, 40, 80);
    assert_eq!(sample(&mut charging, 52, 90 * SECOND).1, None);
    assert_eq!(learned(&charging), None);
    hold(&mut charging, 52, 100, 120);
    let (estimate, record) = sample(&mut charging, 53, 130 * SECOND);
    assert_eq!(learned(&charging), Some(50.0));
    assert_eq!(record, charging.memory.learned);
    assert_eq!(record.unwrap().learned_at, EPOCH + 130 * SECOND as i128);
    assert_eq!(
        estimate,
        ChargeEstimate { seconds: 47 * 50, source: Some(ChargeSource::Learned) }
    );
}

#[test]
fn a_minute_is_measured_at_least() {
    let mut charging = estimator(14400, None);
    sample(&mut charging, 50, 0);
    sample(&mut charging, 51, SECOND);
    for at in [10, 20, 30, 40, 50] {
        sample(&mut charging, 51, at * SECOND);
    }
    // A nanosecond short of a minute.
    sample(&mut charging, 53, 61 * SECOND - 1);
    assert_eq!(learned(&charging), None);
    sample(&mut charging, 53, 62 * SECOND);
    assert_eq!(learned(&charging), None);
    let (_, record) = sample(&mut charging, 54, 63 * SECOND);
    assert_eq!(learned(&charging), Some(62.0 / 3.0));
    assert!(record.is_some());
}

#[test]
fn measured_rates_match_the_processor() {
    for nanos in [60_000_000_001u128, 61_234_567_891, 74_999_999_999, 60_333_333_333] {
        let mut charging = estimator(14400, None);
        sample(&mut charging, 50, 0);
        sample(&mut charging, 51, SECOND);
        let end = SECOND + nanos;
        let mut at = 2 * SECOND;
        while at + 10 * SECOND < end {
            sample(&mut charging, 51, at);
            at += 10 * SECOND;
        }
        sample(&mut charging, 51, at);
        sample(&mut charging, 54, end);
        let elapsed = Duration::from_nanos(nanos as u64).as_secs_f64();
        assert_eq!(learned(&charging), Some(elapsed / 3.0));
    }
}

#[test]
fn rates_are_smoothed() {
    let mut charging = estimator(14400, known(100.1));
    sample(&mut charging, 50, 0);
    sample(&mut charging, 51, 5 * SECOND);
    hold(&mut charging, 51, 15, 65);
    let (_, record) = sample(&mut charging, 53, 70 * SECOND);
    let expected = 100.1 * 0.75 + (65.0 / 2.0) * 0.25;
    assert_eq!(learned(&charging), Some(expected));
    assert!(expected < 100.1 && expected > 32.5);
    assert_eq!(record.map(|learned| value(learned.rate)), Some(expected));
}

#[test]
fn the_end_of_a_measurement_begins_the_next() {
    let mut charging = estimator(14400, None);
    sample(&mut charging, 50, 0);
    sample(&mut charging, 51, 10 * SECOND);
    hold(&mut charging, 51, 20, 60);
    sample(&mut charging, 53, 70 * SECOND);
    assert_eq!(learned(&charging), Some(30.0));
    hold(&mut charging, 53, 80, 140);
    let (_, record) = sample(&mut charging, 55, 150 * SECOND);
    assert_eq!(learned(&charging), Some(30.0 * 0.75 + 40.0 * 0.25));
    // Eighty seconds after the last write.
    assert!(record.is_some());
}

#[test]
fn writes_are_a_minute_apart() {
    let mut charging = estimator(14400, None);
    // A write at 70 s.
    sample(&mut charging, 50, 0);
    sample(&mut charging, 51, 10 * SECOND);
    hold(&mut charging, 51, 20, 60);
    assert!(sample(&mut charging, 53, 70 * SECOND).1.is_some());
    assert_eq!(charging.memory.last_persist_attempt, Some(70 * SECOND));
    // The next measurement lasts a minute, so the next write is due just then.
    hold(&mut charging, 53, 80, 120);
    assert!(sample(&mut charging, 55, 130 * SECOND).1.is_some());
    assert_eq!(charging.memory.last_persist_attempt, Some(130 * SECOND));
    // An attempt less than a minute ago holds a write back.
    hold(&mut charging, 55, 140, 180);
    charging.memory.last_persist_attempt = Some(131 * SECOND);
    assert_eq!(sample(&mut charging, 57, 190 * SECOND).1, None);
    assert_eq!(charging.memory.last_persist_attempt, Some(131 * SECOND));
    assert_eq!(charging.memory.learned.unwrap().learned_at, EPOCH + 190 * SECOND as i128);
}

#[test]
fn rates_out_of_range_are_not_learned() {
    let mut charging = estimator(14400, None);
    charging.max_sample_gap = u64::MAX as u128 * SECOND;
    sample(&mut charging, 50, 0);
    sample(&mut charging, 51, SECOND);
    // Over 72000 seconds for a point.
    let (_, record) = sample(&mut charging, 53, 150_000 * SECOND);
    assert_eq!((learned(&charging), record), (None, None));
    // The measurement is over all the same.
    let (_, record) = sample(&mut charging, 55, 150_100 * SECOND);
    assert_eq!(learned(&charging), Some(50.0));
    assert!(record.is_some());
    // Fewer than twelve seconds for a point.
    hold(&mut charging, 55, 150_100, 150_110);
    for (capacity, at) in [(60, 150_120), (65, 150_140)] {
        sample(&mut charging, capacity, at * SECOND);
    }
    let before = learned(&charging);
    sample(&mut charging, 70, 150_160 * SECOND);
    assert_eq!(learned(&charging), before);
}

#[test]
fn interruptions_end_the_observation() {
    let start = |rate| {
        let mut charging = estimator(14400, known(rate));
        sample(&mut charging, 50, 0);
        sample(&mut charging, 51, 10 * SECOND);
        assert!(charging.memory.session.unwrap().anchor.is_some());
        charging
    };
    let at = |nanos: u128| EPOCH + nanos as i128;
    // A decrease, a jump, a gap, a wall clock that runs back, ahead or behind.
    let cases = [
        (50, 11 * SECOND, at(11 * SECOND)),
        (57, 11 * SECOND, at(11 * SECOND)),
        (51, 26 * SECOND, at(26 * SECOND)),
        (51, 20 * SECOND, at(9 * SECOND)),
        (51, 12 * SECOND, at(15 * SECOND)),
        (51, 15 * SECOND, at(12 * SECOND)),
    ];
    for (capacity, now, wall) in cases {
        let mut charging = start(100.0);
        let (_, record) = charging.update(capacity, 1, 1, None, wall, now, wall);
        let session = charging.memory.session.unwrap();
        assert_eq!(session.anchor, None);
        assert_eq!((session.capacity, session.last_sample, session.last_wall), (capacity, now, wall));
        assert_eq!(record, None);
        if wall >= EPOCH {
            assert_eq!(learned(&charging), Some(100.0));
        }
    }
    // Within the limits the observation goes on.
    let cases = [
        (56, 25 * SECOND, at(25 * SECOND)),
        (51, 12 * SECOND, at(14 * SECOND)),
        (51, 14 * SECOND, at(12 * SECOND)),
        (51, 10 * SECOND, at(10 * SECOND)),
    ];
    for (capacity, now, wall) in cases {
        let mut charging = start(100.0);
        charging.update(capacity, 1, 1, None, wall, now, wall);
        assert!(charging.memory.session.unwrap().anchor.is_some());
    }
}

#[test]
fn a_reset_keeps_the_rate() {
    let mut charging = estimator(14400, known(100.0));
    sample(&mut charging, 50, 0);
    charging.reset_session();
    assert_eq!(charging.memory.session, None);
    assert_eq!(charging.memory.learned, known(100.0));
    // Nothing is measured from before the reset.
    sample(&mut charging, 52, SECOND);
    assert_eq!(charging.memory.session.unwrap().anchor, None);
}

#[test]
fn a_rate_is_used_for_thirty_days() {
    let source = |checked_at: i128| {
        let mut charging = estimator(14400, known(100.0));
        let found = charging.update(50, 1, 1, None, checked_at, 0, checked_at).0.source.unwrap();
        assert_eq!(charging.memory.learned.is_some(), found == ChargeSource::Learned);
        found
    };
    assert_eq!(source(EPOCH), ChargeSource::Learned);
    assert_eq!(source(EPOCH + 30 * DAY), ChargeSource::Learned);
    assert_eq!(source(EPOCH + 30 * DAY + 1), ChargeSource::Fallback);
    assert_eq!(source(EPOCH - 1), ChargeSource::Fallback);
    assert_eq!(source(i128::MAX), ChargeSource::Fallback);
    assert_eq!(source(i128::MIN), ChargeSource::Fallback);
}

#[test]
fn observations_keep_the_rate() {
    let mut charging = estimator(14400, known(100.0));
    let cases = [(50, 0), (51, 10), (49, 20), (90, 30), (92, 500)];
    for (capacity, seconds) in cases {
        let (now, wall) = (seconds * SECOND, EPOCH + (seconds * SECOND) as i128);
        assert_eq!(charging.observe(capacity, now, wall), None);
        let session = charging.memory.session.unwrap();
        assert_eq!((session.capacity, session.last_sample, session.last_wall), (capacity, now, wall));
        assert_eq!(charging.memory.learned, known(100.0));
    }
}
