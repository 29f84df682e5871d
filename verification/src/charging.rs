//! Charging time, estimated from UPS data, from a learned rate or from a configured duration.
//!
//! Times are nanoseconds: on a monotonic clock since an arbitrary origin (`u128`), or on the wall
//! clock since the Unix epoch (`i128`).

use vstd::arithmetic::div_mod::*;
use vstd::arithmetic::power2::*;
use vstd::prelude::*;

use crate::magnitude::ceiling_of;
use crate::magnitude::lemma_at_least;
use crate::magnitude::lemma_at_most;
use crate::magnitude::lemma_finite;
use crate::magnitude::one;
use crate::magnitude::overflow;
use crate::magnitude::Magnitude;
use crate::magnitude::MANTISSA_LIMIT;
use crate::number::Number;
use crate::protocol::STATUS_CHARGING;
use crate::rounding::lemma_rounded_exact;
use crate::rounding::lemma_rounded_monotone;
use crate::rounding::rounded;

verus! {

pub const DEFAULT_CHARGE_FULL_SECONDS: u64 = 14400;

pub const MIN_CHARGE_FULL_SECONDS: u64 = 1200;

pub const MAX_TIME_TO_FULL_SECONDS: u64 = 72000;

/// The least number of seconds in which one percentage point is charged.
pub const MIN_SECONDS_PER_PERCENT: u64 = 12;

pub const NANOS_PER_SECOND: u64 = 1_000_000_000;

/// A learned rate is used for thirty days.
pub const CACHE_MAX_AGE: u128 = 2_592_000_000_000_000;

/// The least time between two attempts to write the learned rate.
pub const PERSIST_INTERVAL: u128 = 60_000_000_000;

/// How far the two clocks may disagree about the time between two samples.
pub const CLOCK_SLACK: u128 = 2_000_000_000;

/// The shortest time over which a rate is measured, in seconds.
pub const MIN_MEASURED_SECONDS: u64 = 60;

/// Where an estimate comes from.
#[derive(Clone, Copy, Debug, PartialEq, Eq, Structural)]
pub enum ChargeSource {
    UpsTime,
    UpsCurrent,
    Learned,
    Fallback,
}

/// The time until the battery is full; without a source there is no estimate.
#[derive(Clone, Copy, Debug, PartialEq, Eq, Structural)]
pub struct ChargeEstimate {
    pub seconds: i32,
    pub source: Option<ChargeSource>,
}

/// A charging rate in seconds per percentage point, and when it was learned.
#[derive(Clone, Copy, Debug, PartialEq, Eq, Structural)]
pub struct LearnedRate {
    pub rate: Magnitude,
    pub learned_at: i128,
}

/// Where a measurement began: a capacity, and when it was reached.
#[derive(Clone, Copy, Debug, PartialEq, Eq, Structural)]
pub struct Anchor {
    pub capacity: i32,
    pub reached: u128,
}

/// An observation of uninterrupted charging: the last sample, and the measurement in progress.
#[derive(Clone, Copy, Debug, PartialEq, Eq, Structural)]
pub struct ChargingSession {
    pub capacity: i32,
    pub last_sample: u128,
    pub last_wall: i128,
    pub anchor: Option<Anchor>,
}

/// What the estimator remembers from one update to the next.
#[derive(Clone, Copy, Debug, PartialEq, Eq, Structural)]
pub struct ChargingMemory {
    pub learned: Option<LearnedRate>,
    pub session: Option<ChargingSession>,
    pub last_persist_attempt: Option<u128>,
}

/// Estimates the time until the battery is full.
pub struct ChargingEstimator {
    pub state_path: Vec<u8>,
    pub identity: String,
    pub fallback_full_seconds: u64,
    pub max_sample_gap: u128,
    pub memory: ChargingMemory,
}

/// A rate that charging can have.
pub open spec fn is_valid_rate(rate: Magnitude) -> bool {
    rate.wf() && MIN_SECONDS_PER_PERCENT as nat * one() <= rate.units()
        <= MAX_TIME_TO_FULL_SECONDS as nat * one()
}

/// Whether charging can have a rate.
pub fn valid_rate(rate: Magnitude) -> (valid: bool)
    requires
        rate.wf(),
    ensures
        valid == is_valid_rate(rate),
{
    let least: Magnitude = Magnitude::from_integer(MIN_SECONDS_PER_PERCENT as u128);
    let most: Magnitude = Magnitude::from_integer(MAX_TIME_TO_FULL_SECONDS as u128);
    !rate.is_below(least) && !most.is_below(rate)
}

impl ChargingSession {
    pub open spec fn wf(self) -> bool {
        &&& 0 <= self.capacity < 100
        &&& self.anchor matches Some(anchor) ==> 0 <= anchor.capacity <= self.capacity
    }
}

impl ChargingMemory {
    pub open spec fn wf(self) -> bool {
        &&& self.learned matches Some(learned) ==> is_valid_rate(learned.rate)
        &&& self.session matches Some(session) ==> session.wf()
    }
}

impl ChargingEstimator {
    pub open spec fn wf(self) -> bool {
        &&& MIN_CHARGE_FULL_SECONDS <= self.fallback_full_seconds <= MAX_TIME_TO_FULL_SECONDS
        &&& self.memory.wf()
    }
}

/// The time from `then` to `now` on the monotonic clock; none where `now` is the earlier.
pub open spec fn time_since(now: u128, then: u128) -> nat {
    if now >= then {
        (now - then) as nat
    } else {
        0
    }
}

fn since(now: u128, then: u128) -> (time: u128)
    ensures
        time == time_since(now, then),
{
    if now >= then {
        now - then
    } else {
        0
    }
}

/// The time from `then` to `now` on the wall clock, where `now` is not the earlier.
pub open spec fn wall_time_since(now: i128, then: i128) -> Option<nat> {
    if now >= then {
        Some((now - then) as nat)
    } else {
        None
    }
}

fn wall_since(now: i128, then: i128) -> (time: Option<u128>)
    ensures
        match time {
            Some(t) => wall_time_since(now, then) == Some(t as nat),
            None => wall_time_since(now, then) is None,
        },
{
    if now < then {
        None
    } else if then >= 0 || now < 0 {
        Some((now - then) as u128)
    } else {
        Some(now as u128 + (-(then + 1)) as u128 + 1)
    }
}

/// Whether two samples follow each other without a gap, on either clock.
pub open spec fn is_continuous(
    session: ChargingSession,
    now: u128,
    wall: i128,
    max_gap: u128,
) -> bool {
    let gap = time_since(now, session.last_sample);
    match wall_time_since(wall, session.last_wall) {
        Some(wall_gap) => {
            &&& gap <= max_gap
            &&& wall_gap <= max_gap
            &&& wall_gap <= gap + CLOCK_SLACK
            &&& gap <= wall_gap + CLOCK_SLACK
        },
        None => false,
    }
}

fn continuous(session: ChargingSession, now: u128, wall: i128, max_gap: u128) -> (yes: bool)
    ensures
        yes == is_continuous(session, now, wall, max_gap),
{
    let gap: u128 = since(now, session.last_sample);
    match wall_since(wall, session.last_wall) {
        Some(wall_gap) => {
            let close: bool = if gap <= wall_gap {
                wall_gap - gap <= CLOCK_SLACK
            } else {
                gap - wall_gap <= CLOCK_SLACK
            };
            gap <= max_gap && wall_gap <= max_gap && close
        },
        None => false,
    }
}

/// Whether a sample continues a session: no gap, no decrease, and no jump by more than five
/// percentage points.
pub open spec fn continues(
    session: Option<ChargingSession>,
    capacity: i32,
    now: u128,
    wall: i128,
    max_gap: u128,
) -> bool {
    session matches Some(s) && is_continuous(s, now, wall, max_gap) && 0 <= capacity - s.capacity
        <= 5
}

/// A time in seconds: the nearest value to the sum of the whole seconds and of the fraction, each
/// rounded by itself.
pub open spec fn seconds_units(nanos: nat) -> nat {
    rounded(
        rounded(nanos / NANOS_PER_SECOND as nat * one(), 1) + rounded(
            (nanos % NANOS_PER_SECOND as nat * one()) * one(),
            NANOS_PER_SECOND as nat * one(),
        ),
        1,
    )
}

/// Whether a sample ends a measurement: two percentage points or more since the anchor, over at
/// least a minute.
pub open spec fn ends_measurement(session: ChargingSession, capacity: i32, now: u128) -> bool {
    &&& capacity > session.capacity
    &&& session.anchor matches Some(anchor) && capacity - anchor.capacity >= 2 && seconds_units(
        time_since(now, anchor.reached),
    ) >= MIN_MEASURED_SECONDS as nat * one()
}

/// The measured rate, in units of seconds per percentage point.
pub open spec fn measured_rate(session: ChargingSession, capacity: i32, now: u128) -> nat {
    let anchor = session.anchor->Some_0;
    rounded(
        seconds_units(time_since(now, anchor.reached)) * one(),
        (capacity - anchor.capacity) as nat * one(),
    )
}

/// The rate that a sample shows, where it ends a measurement with a rate that charging can have.
pub open spec fn sampled_rate(
    session: Option<ChargingSession>,
    capacity: i32,
    now: u128,
    wall: i128,
    max_gap: u128,
) -> Option<nat> {
    if continues(session, capacity, now, wall, max_gap) && ends_measurement(
        session->Some_0,
        capacity,
        now,
    ) {
        let rate = measured_rate(session->Some_0, capacity, now);
        if MIN_SECONDS_PER_PERCENT as nat * one() <= rate <= MAX_TIME_TO_FULL_SECONDS as nat
            * one() {
            Some(rate)
        } else {
            None
        }
    } else {
        None
    }
}

/// The session after a sample. The anchor is set by the first increase of a session, so the first
/// percentage point, which may have begun before the session, is not measured; the end of a
/// measurement begins the next.
pub open spec fn next_session(
    session: Option<ChargingSession>,
    capacity: i32,
    now: u128,
    wall: i128,
    max_gap: u128,
) -> ChargingSession {
    ChargingSession {
        capacity,
        last_sample: now,
        last_wall: wall,
        anchor: if !continues(session, capacity, now, wall, max_gap) {
            None
        } else {
            let s = session->Some_0;
            if capacity > s.capacity && (s.anchor is None || ends_measurement(s, capacity, now)) {
                Some(Anchor { capacity, reached: now })
            } else {
                s.anchor
            }
        },
    }
}

/// Three quarters of a value, rounded, and a quarter of another, rounded, added and rounded.
pub open spec fn smoothed(previous: nat, sample: nat) -> nat {
    rounded(
        rounded(previous * (3 * pow2(1072)), one()) + rounded(sample * pow2(1072), one()),
        1,
    )
}

/// The rate after a measurement.
pub open spec fn next_rate(previous: Option<LearnedRate>, sample: nat) -> nat {
    match previous {
        Some(learned) => smoothed(learned.rate.units(), sample),
        None => sample,
    }
}

/// Whether enough time has passed since the last attempt to write.
pub open spec fn persist_due(last: Option<u128>, now: u128) -> bool {
    last matches Some(then) ==> time_since(now, then) >= PERSIST_INTERVAL
}

/// What a sample taken while charging does to the memory, and what there is to write.
pub open spec fn observed(
    before: ChargingMemory,
    after: ChargingMemory,
    record: Option<LearnedRate>,
    capacity: i32,
    now: u128,
    wall: i128,
    max_gap: u128,
) -> bool {
    &&& after.session == Some(next_session(before.session, capacity, now, wall, max_gap))
    &&& match sampled_rate(before.session, capacity, now, wall, max_gap) {
        None => {
            &&& after.learned == before.learned
            &&& after.last_persist_attempt == before.last_persist_attempt
            &&& record is None
        },
        Some(sample) => {
            &&& after.learned matches Some(learned) && learned.rate.wf() && learned.learned_at
                == wall && learned.rate.units() == next_rate(before.learned, sample)
            &&& if persist_due(before.last_persist_attempt, now) {
                after.last_persist_attempt == Some(now) && record == after.learned
            } else {
                after.last_persist_attempt == before.last_persist_attempt && record is None
            }
        },
    }
}

/// A learned rate that is too old, or that was learned in the future.
pub open spec fn is_stale(learned_at: i128, checked_at: i128) -> bool {
    match wall_time_since(checked_at, learned_at) {
        Some(age) => age > CACHE_MAX_AGE,
        None => true,
    }
}

/// The memory without a stale rate.
pub open spec fn without_stale(memory: ChargingMemory, checked_at: i128) -> ChargingMemory {
    ChargingMemory {
        learned: match memory.learned {
            Some(learned) => if is_stale(learned.learned_at, checked_at) {
                None
            } else {
                Some(learned)
            },
            None => None,
        },
        ..memory
    }
}

/// Whether there is a charging time to estimate.
pub open spec fn is_charging(capacity: i32, status: i32, ac_online: i32) -> bool {
    status == STATUS_CHARGING && ac_online == 1 && 0 <= capacity < 100
}

/// UPS data that can be used: a finite positive time that the UPS reported.
pub open spec fn usable(ups_estimate: Option<(Number, ChargeSource)>) -> Option<
    (Magnitude, ChargeSource),
> {
    match ups_estimate {
        Some((number, source)) => match number.spec_positive() {
            Some(seconds) => if source == ChargeSource::UpsTime || source
                == ChargeSource::UpsCurrent {
                Some((seconds, source))
            } else {
                None
            },
            None => None,
        },
        None => None,
    }
}

/// The source of the estimate: UPS data first, then the learned rate, then the configured one.
pub open spec fn chosen_source(
    ups_estimate: Option<(Number, ChargeSource)>,
    learned: Option<LearnedRate>,
) -> ChargeSource {
    match usable(ups_estimate) {
        Some((_, source)) => source,
        None => if learned is Some {
            ChargeSource::Learned
        } else {
            ChargeSource::Fallback
        },
    }
}

/// The charging time that the source gives, in units of seconds.
pub open spec fn raw_seconds(
    ups_estimate: Option<(Number, ChargeSource)>,
    learned: Option<LearnedRate>,
    fallback_full_seconds: u64,
    capacity: i32,
) -> nat {
    let remaining = (100 - capacity) as nat;
    match usable(ups_estimate) {
        Some((seconds, _)) => seconds.units(),
        None => match learned {
            Some(l) => rounded((remaining * one()) * l.rate.units(), one()),
            None => rounded(
                (remaining * fallback_full_seconds as nat * one()) * one(),
                100 * one(),
            ),
        },
    }
}

/// A charging time within its bounds: twelve seconds for each remaining percentage point, and
/// twenty hours.
pub open spec fn bounded(seconds: nat, capacity: i32) -> nat {
    let least = ((100 - capacity) * MIN_SECONDS_PER_PERCENT) as nat * one();
    let most = MAX_TIME_TO_FULL_SECONDS as nat * one();
    if seconds < least {
        least
    } else if seconds > most {
        most
    } else {
        seconds
    }
}

/// The estimate for a battery that is charging.
pub open spec fn charging_estimate(
    ups_estimate: Option<(Number, ChargeSource)>,
    learned: Option<LearnedRate>,
    fallback_full_seconds: u64,
    capacity: i32,
) -> ChargeEstimate {
    ChargeEstimate {
        seconds: ceiling_of(
            bounded(raw_seconds(ups_estimate, learned, fallback_full_seconds, capacity), capacity),
        ) as i32,
        source: Some(chosen_source(ups_estimate, learned)),
    }
}

/// What an update does to the memory, and what it gives: an estimate, and a rate to write.
pub open spec fn updated(
    before: ChargingMemory,
    after: ChargingMemory,
    result: (ChargeEstimate, Option<LearnedRate>),
    capacity: i32,
    status: i32,
    ac_online: i32,
    ups_estimate: Option<(Number, ChargeSource)>,
    checked_at: i128,
    now: u128,
    wall: i128,
    max_gap: u128,
    fallback_full_seconds: u64,
) -> bool {
    if is_charging(capacity, status, ac_online) {
        &&& observed(
            without_stale(before, checked_at),
            after,
            result.1,
            capacity,
            now,
            wall,
            max_gap,
        )
        &&& result.0 == charging_estimate(
            ups_estimate,
            after.learned,
            fallback_full_seconds,
            capacity,
        )
    } else {
        &&& after == (ChargingMemory { session: None, ..before })
        &&& result.0 == (ChargeEstimate { seconds: 0, source: None })
        &&& result.1 is None
    }
}

/// A time in seconds.
fn seconds_of(nanos: u128) -> (seconds: Magnitude)
    ensures
        seconds.wf(),
        seconds.units() == seconds_units(nanos as nat),
{
    let whole: Magnitude = Magnitude::from_integer(nanos / NANOS_PER_SECOND as u128);
    let rest: Magnitude = Magnitude::from_integer(nanos % NANOS_PER_SECOND as u128);
    let scale: Magnitude = Magnitude::from_integer(NANOS_PER_SECOND as u128);
    proof {
        lemma_pow2_pos(1074);
        let o = one();
        let r = nanos as nat % NANOS_PER_SECOND as nat;
        assert(rest.units() * o <= 1 * o * scale.units()) by (nonlinear_arith)
            requires
                rest.units() == r * o,
                scale.units() == NANOS_PER_SECOND as nat * o,
                r <= NANOS_PER_SECOND,
        ;
        lemma_at_most(1, rest.units() * o, scale.units());
    }
    let part: Magnitude = rest.divide(scale).unwrap();
    proof {
        lemma_time_is_finite(nanos as nat);
    }
    whole.plus(part).unwrap()
}

/// No time is too long to be a finite number of seconds.
proof fn lemma_time_is_finite(nanos: nat)
    requires
        nanos <= u128::MAX,
    ensures
        seconds_units(nanos) < overflow(),
{
    let s = NANOS_PER_SECOND as nat;
    let o = one();
    let q = nanos / s;
    let r = nanos % s;
    let whole = rounded(q * o, 1);
    let part = rounded((r * o) * o, s * o);
    lemma_pow2_pos(1074);
    lemma2_to64();
    lemma2_to64_rest();
    lemma_pow2_adds(64, 64);
    lemma_pow2_adds(128, 1074);
    lemma_rounded_exact(1, 1202, 1);
    assert((1 * pow2(1202)) * 1 == pow2(1202));
    assert(q * o <= pow2(128) * o) by (nonlinear_arith)
        requires
            q <= pow2(128),
    ;
    lemma_rounded_monotone(q * o, 1, pow2(1202), 1);
    assert((r * o) * o <= 1 * o * (s * o) && s * o > 0) by (nonlinear_arith)
        requires
            0 <= r <= s,
            s > 0,
            o > 0,
    ;
    lemma_at_most(1, (r * o) * o, s * o);
    lemma_pow2_strictly_increases(1074, 1202);
    lemma_pow2_unfold(1203);
    lemma_rounded_exact(1, 1203, 1);
    assert((1 * pow2(1203)) * 1 == pow2(1203));
    lemma_rounded_monotone(whole + part, 1, pow2(1203), 1);
    lemma_pow2_strictly_increases(1203, 2098);
}

/// Smoothing keeps a rate valid.
pub proof fn lemma_smoothed_is_valid(previous: nat, sample: nat)
    requires
        MIN_SECONDS_PER_PERCENT as nat * one() <= previous <= MAX_TIME_TO_FULL_SECONDS as nat
            * one(),
        MIN_SECONDS_PER_PERCENT as nat * one() <= sample <= MAX_TIME_TO_FULL_SECONDS as nat
            * one(),
    ensures
        9 * one() <= rounded(previous * (3 * pow2(1072)), one()) <= 54000 * one(),
        3 * one() <= rounded(sample * pow2(1072), one()) <= 18000 * one(),
        MIN_SECONDS_PER_PERCENT as nat * one() <= smoothed(previous, sample)
            <= MAX_TIME_TO_FULL_SECONDS as nat * one(),
{
    let o = one();
    let p = pow2(1072);
    lemma_pow2_pos(1074);
    lemma2_to64();
    lemma_pow2_adds(2, 1072);
    let x = previous * (3 * p);
    let y = sample * p;
    assert(9 * o * o <= x <= 54000 * o * o && 3 * o * o <= y <= 18000 * o * o)
        by (nonlinear_arith)
        requires
            o == 4 * p,
            x == previous * (3 * p),
            y == sample * p,
            12 * o <= previous <= 72000 * o,
            12 * o <= sample <= 72000 * o,
            p >= 0,
    ;
    lemma_at_least(9, x, o);
    lemma_at_most(54000, x, o);
    lemma_at_least(3, y, o);
    lemma_at_most(18000, y, o);
    let a = rounded(x, o);
    let b = rounded(y, o);
    lemma_at_least(12, a + b, 1);
    lemma_at_most(72000, a + b, 1);
}

/// Smooths a rate with a new sample.
fn smooth(previous: Magnitude, sample: Magnitude) -> (rate: Magnitude)
    requires
        is_valid_rate(previous),
        is_valid_rate(sample),
    ensures
        is_valid_rate(rate),
        rate.units() == smoothed(previous.units(), sample.units()),
{
    let three_quarters: Magnitude = Magnitude { mantissa: 0x18_0000_0000_0000, exponent: 1021 };
    let quarter: Magnitude = Magnitude { mantissa: 0x10_0000_0000_0000, exponent: 1020 };
    proof {
        lemma2_to64();
        lemma2_to64_rest();
        lemma_pow2_adds(51, 1021);
        lemma_pow2_adds(52, 1020);
        assert(three_quarters.units() == 3 * pow2(1072)) by (nonlinear_arith)
            requires
                three_quarters.units() == 0x18_0000_0000_0000 * pow2(1021),
                pow2(51) == 0x8_0000_0000_0000,
                pow2(1072) == pow2(51) * pow2(1021),
        ;
        lemma_smoothed_is_valid(previous.units(), sample.units());
        lemma_finite(54000);
        lemma_finite(72000);
    }
    let old_share: Magnitude = previous.multiply(three_quarters).unwrap();
    let new_share: Magnitude = sample.multiply(quarter).unwrap();
    old_share.plus(new_share).unwrap()
}

/// How a measurement that may end with a sample turned out.
enum Measurement {
    Open,
    Ended { rate: Option<Magnitude> },
}

/// Ends the measurement of a session where the sample allows it.
fn measure(session: ChargingSession, capacity: i32, now: u128) -> (result: Measurement)
    requires
        session.wf(),
        0 <= capacity < 100,
    ensures
        match result {
            Measurement::Open => !ends_measurement(session, capacity, now),
            Measurement::Ended { rate } => ends_measurement(session, capacity, now) && match rate {
                Some(r) => is_valid_rate(r) && r.units() == measured_rate(session, capacity, now),
                None => !(MIN_SECONDS_PER_PERCENT as nat * one() <= measured_rate(
                    session,
                    capacity,
                    now,
                ) <= MAX_TIME_TO_FULL_SECONDS as nat * one()),
            },
        },
{
    let anchor: Anchor = match session.anchor {
        Some(anchor) => anchor,
        None => {
            return Measurement::Open;
        },
    };
    if capacity <= session.capacity {
        return Measurement::Open;
    }
    let points: i32 = capacity - anchor.capacity;
    if points < 2 {
        return Measurement::Open;
    }
    let elapsed: Magnitude = seconds_of(since(now, anchor.reached));
    let least: Magnitude = Magnitude::from_integer(MIN_MEASURED_SECONDS as u128);
    if elapsed.is_below(least) {
        return Measurement::Open;
    }
    let divisor: Magnitude = Magnitude::from_integer(points as u128);
    proof {
        lemma_pow2_pos(1074);
        lemma_finite(MAX_TIME_TO_FULL_SECONDS as nat);
        let o = one();
        assert(divisor.units() > 0) by (nonlinear_arith)
            requires
                divisor.units() == points as nat * o,
                points >= 2,
                o > 0,
        ;
    }
    match elapsed.divide(divisor) {
        Some(rate) => {
            if valid_rate(rate) {
                Measurement::Ended { rate: Some(rate) }
            } else {
                Measurement::Ended { rate: None }
            }
        },
        None => Measurement::Ended { rate: None },
    }
}

/// Estimates the charging time of a battery that is charging.
fn estimate(
    ups_estimate: Option<(Number, ChargeSource)>,
    learned: Option<LearnedRate>,
    fallback_full_seconds: u64,
    capacity: i32,
) -> (result: ChargeEstimate)
    requires
        ups_estimate matches Some((number, _)) ==> number.wf(),
        learned matches Some(l) ==> is_valid_rate(l.rate),
        MIN_CHARGE_FULL_SECONDS <= fallback_full_seconds <= MAX_TIME_TO_FULL_SECONDS,
        0 <= capacity < 100,
    ensures
        result == charging_estimate(ups_estimate, learned, fallback_full_seconds, capacity),
        (100 - capacity) * MIN_SECONDS_PER_PERCENT <= result.seconds <= MAX_TIME_TO_FULL_SECONDS,
{
    let ghost o = one();
    proof {
        lemma_pow2_pos(1074);
    }
    let remaining: u64 = (100 - capacity) as u64;
    let from_ups: Option<(Magnitude, ChargeSource)> = match ups_estimate {
        Some((number, source)) => match number.positive() {
            Some(seconds) => if source == ChargeSource::UpsTime || source
                == ChargeSource::UpsCurrent {
                Some((seconds, source))
            } else {
                None
            },
            None => None,
        },
        None => None,
    };
    assert(from_ups == usable(ups_estimate));
    let (seconds, source): (Magnitude, ChargeSource) = match from_ups {
        Some(found) => found,
        None => match learned {
            Some(l) => {
                let points: Magnitude = Magnitude::from_integer(remaining as u128);
                proof {
                    let (n, r) = (points.units() * l.rate.units(), l.rate.units());
                    assert(n <= 7200000 * o * o) by (nonlinear_arith)
                        requires
                            n == (remaining as nat * o) * r,
                            remaining <= 100,
                            r <= 72000 * o,
                            o >= 0,
                    ;
                    lemma_at_most(7200000, n, o);
                }
                (points.multiply(l.rate).unwrap(), ChargeSource::Learned)
            },
            None => {
                assert(remaining * fallback_full_seconds <= 100 * 72000) by (nonlinear_arith)
                    requires
                        remaining <= 100,
                        fallback_full_seconds <= 72000,
                ;
                let product: u64 = remaining * fallback_full_seconds;
                let dividend: Magnitude = Magnitude::from_integer(product as u128);
                let hundred: Magnitude = Magnitude::from_integer(100);
                proof {
                    let n = dividend.units() * o;
                    assert(hundred.units() > 0 && n <= 72000 * o * hundred.units())
                        by (nonlinear_arith)
                        requires
                            n == (product as nat * o) * o,
                            hundred.units() == 100 * o,
                            product <= 7200000,
                            o > 0,
                    ;
                    lemma_at_most(72000, n, hundred.units());
                }
                (dividend.divide(hundred).unwrap(), ChargeSource::Fallback)
            },
        },
    };
    assert(seconds.wf() && seconds.units() == raw_seconds(
        ups_estimate,
        learned,
        fallback_full_seconds,
        capacity,
    ));
    let least: Magnitude = Magnitude::from_integer((remaining * MIN_SECONDS_PER_PERCENT) as u128);
    let most: Magnitude = Magnitude::from_integer(MAX_TIME_TO_FULL_SECONDS as u128);
    let within: Magnitude = if seconds.is_below(least) {
        least
    } else if most.is_below(seconds) {
        most
    } else {
        seconds
    };
    proof {
        let u = within.units();
        let k = (remaining * MIN_SECONDS_PER_PERCENT) as nat;
        assert(k * o <= 72000 * o && 72000 * o < MANTISSA_LIMIT * o) by (nonlinear_arith)
            requires
                k <= 1200,
                o > 0,
        ;
        assert(k * o <= u <= 72000 * o);
        lemma_ceiling_bounds(u, k, 72000);
    }
    ChargeEstimate { seconds: within.ceiling() as i32, source: Some(source) }
}

/// Rounding up does not cross an integer.
pub proof fn lemma_ceiling_bounds(u: nat, least: nat, most: nat)
    requires
        least * one() <= u <= most * one(),
    ensures
        least <= ceiling_of(u) <= most,
{
    let o = one() as int;
    lemma_pow2_pos(1074);
    let x = u + o - 1;
    let c = x / o;
    lemma_fundamental_div_mod(x, o);
    let r = x % o;
    assert(least <= c <= most) by (nonlinear_arith)
        requires
            x == o * c + r,
            0 <= r < o,
            x == u + o - 1,
            least * o <= u <= most * o,
            o > 0,
    ;
}

impl ChargingEstimator {
    /// An estimator that begins with the rate that was read from the state file, if any.
    pub fn new(
        state_path: Vec<u8>,
        identity: String,
        fallback_full_seconds: u64,
        max_sample_gap: u128,
        learned: Option<LearnedRate>,
    ) -> (estimator: ChargingEstimator)
        requires
            learned matches Some(l) ==> is_valid_rate(l.rate),
        ensures
            estimator.wf(),
            estimator.state_path == state_path,
            estimator.identity == identity,
            estimator.fallback_full_seconds == if fallback_full_seconds < MIN_CHARGE_FULL_SECONDS {
                MIN_CHARGE_FULL_SECONDS
            } else if fallback_full_seconds > MAX_TIME_TO_FULL_SECONDS {
                MAX_TIME_TO_FULL_SECONDS
            } else {
                fallback_full_seconds
            },
            estimator.max_sample_gap == max_sample_gap,
            estimator.memory == (ChargingMemory {
                learned,
                session: None,
                last_persist_attempt: None,
            }),
    {
        let full: u64 = if fallback_full_seconds < MIN_CHARGE_FULL_SECONDS {
            MIN_CHARGE_FULL_SECONDS
        } else if fallback_full_seconds > MAX_TIME_TO_FULL_SECONDS {
            MAX_TIME_TO_FULL_SECONDS
        } else {
            fallback_full_seconds
        };
        ChargingEstimator {
            state_path,
            identity,
            fallback_full_seconds: full,
            max_sample_gap,
            memory: ChargingMemory { learned, session: None, last_persist_attempt: None },
        }
    }

    /// The configuration of two estimators is the same.
    pub open spec fn same_settings(self, other: ChargingEstimator) -> bool {
        &&& self.state_path == other.state_path
        &&& self.identity == other.identity
        &&& self.fallback_full_seconds == other.fallback_full_seconds
        &&& self.max_sample_gap == other.max_sample_gap
    }

    /// Ends the observation where data is missing; the learned rate is kept.
    pub fn reset_session(&mut self)
        requires
            old(self).wf(),
        ensures
            final(self).wf(),
            final(self).same_settings(*old(self)),
            final(self).memory == (ChargingMemory { session: None, ..old(self).memory }),
    {
        self.memory = ChargingMemory { session: None, ..self.memory };
    }

    /// Takes a sample while charging; the result is a rate to write to the state file.
    pub fn observe(&mut self, capacity: i32, now: u128, wall: i128) -> (record: Option<LearnedRate>)
        requires
            old(self).wf(),
            0 <= capacity < 100,
        ensures
            final(self).wf(),
            old(self).memory.learned is Some ==> final(self).memory.learned is Some,
            final(self).same_settings(*old(self)),
            observed(
                old(self).memory,
                final(self).memory,
                record,
                capacity,
                now,
                wall,
                old(self).max_sample_gap,
            ),
    {
        let before: ChargingMemory = self.memory;
        let fresh: ChargingSession = ChargingSession {
            capacity,
            last_sample: now,
            last_wall: wall,
            anchor: None,
        };
        let session: ChargingSession = match before.session {
            Some(session) => session,
            None => {
                self.memory = ChargingMemory { session: Some(fresh), ..before };
                return None;
            },
        };
        let increase: i32 = capacity - session.capacity;
        if !continuous(session, now, wall, self.max_sample_gap) || increase < 0 || increase > 5 {
            self.memory = ChargingMemory { session: Some(fresh), ..before };
            return None;
        }
        let mut anchor: Option<Anchor> = session.anchor;
        let mut sample: Option<Magnitude> = None;
        match measure(session, capacity, now) {
            Measurement::Open => {
                if increase > 0 && session.anchor.is_none() {
                    anchor = Some(Anchor { capacity, reached: now });
                }
            },
            Measurement::Ended { rate } => {
                anchor = Some(Anchor { capacity, reached: now });
                sample = rate;
            },
        }
        let next: ChargingSession = ChargingSession {
            capacity,
            last_sample: now,
            last_wall: wall,
            anchor,
        };
        let rate: Magnitude = match sample {
            Some(rate) => match before.learned {
                Some(learned) => smooth(learned.rate, rate),
                None => rate,
            },
            None => {
                self.memory = ChargingMemory { session: Some(next), ..before };
                return None;
            },
        };
        let learned: LearnedRate = LearnedRate { rate, learned_at: wall };
        let due: bool = match before.last_persist_attempt {
            Some(then) => since(now, then) >= PERSIST_INTERVAL,
            None => true,
        };
        if due {
            self.memory = ChargingMemory {
                learned: Some(learned),
                session: Some(next),
                last_persist_attempt: Some(now),
            };
            Some(learned)
        } else {
            self.memory = ChargingMemory {
                learned: Some(learned),
                session: Some(next),
                last_persist_attempt: before.last_persist_attempt,
            };
            None
        }
    }

    /// Takes a snapshot of the battery into account and estimates its charging time. `checked_at`
    /// is the wall time at which the age of the learned rate is checked; `now` and `wall` are the
    /// times of the sample. Besides the estimate, the result is a rate to write to the state file.
    pub fn update(
        &mut self,
        capacity: i32,
        status: i32,
        ac_online: i32,
        ups_estimate: Option<(Number, ChargeSource)>,
        checked_at: i128,
        now: u128,
        wall: i128,
    ) -> (result: (ChargeEstimate, Option<LearnedRate>))
        requires
            old(self).wf(),
            ups_estimate matches Some((number, _)) ==> number.wf(),
        ensures
            final(self).wf(),
            final(self).same_settings(*old(self)),
            updated(
                old(self).memory,
                final(self).memory,
                result,
                capacity,
                status,
                ac_online,
                ups_estimate,
                checked_at,
                now,
                wall,
                old(self).max_sample_gap,
                old(self).fallback_full_seconds,
            ),
            is_charging(capacity, status, ac_online) ==> {
                &&& observed(
                    without_stale(old(self).memory, checked_at),
                    final(self).memory,
                    result.1,
                    capacity,
                    now,
                    wall,
                    old(self).max_sample_gap,
                )
                &&& result.0 == charging_estimate(
                    ups_estimate,
                    final(self).memory.learned,
                    old(self).fallback_full_seconds,
                    capacity,
                )
                &&& (100 - capacity) * MIN_SECONDS_PER_PERCENT <= result.0.seconds
                    <= MAX_TIME_TO_FULL_SECONDS
            },
            !is_charging(capacity, status, ac_online) ==> {
                &&& final(self).memory == (ChargingMemory { session: None, ..old(self).memory })
                &&& result.0 == (ChargeEstimate { seconds: 0, source: None })
                &&& result.1 is None
            },
    {
        if status != STATUS_CHARGING || ac_online != 1 || capacity < 0 || capacity >= 100 {
            self.reset_session();
            return (ChargeEstimate { seconds: 0, source: None }, None);
        }
        let stale: bool = match self.memory.learned {
            Some(learned) => match wall_since(checked_at, learned.learned_at) {
                Some(age) => age > CACHE_MAX_AGE,
                None => true,
            },
            None => false,
        };
        if stale {
            self.memory = ChargingMemory { learned: None, ..self.memory };
        }
        assert(self.memory == without_stale(old(self).memory, checked_at));
        let record: Option<LearnedRate> = self.observe(capacity, now, wall);
        let result: ChargeEstimate = estimate(
            ups_estimate,
            self.memory.learned,
            self.fallback_full_seconds,
            capacity,
        );
        (result, record)
    }
}

} // verus!
