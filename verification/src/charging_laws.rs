//! What holds of charging estimates and of learning over several updates.

use vstd::arithmetic::div_mod::*;
use vstd::arithmetic::power2::*;
use vstd::prelude::*;

use crate::charging::bounded;
use crate::charging::charging_estimate;
use crate::charging::continues;
use crate::charging::is_valid_rate;
use crate::charging::lemma_ceiling_bounds;
use crate::charging::lemma_smoothed_is_valid;
use crate::charging::next_session;
use crate::charging::observed;
use crate::charging::raw_seconds;
use crate::charging::sampled_rate;
use crate::charging::seconds_units;
use crate::charging::smoothed;
use crate::charging::time_since;
use crate::charging::usable;
use crate::charging::without_stale;
use crate::charging::ChargeSource;
use crate::charging::ChargingMemory;
use crate::charging::ChargingSession;
use crate::charging::LearnedRate;
use crate::charging::MAX_TIME_TO_FULL_SECONDS;
use crate::charging::MIN_CHARGE_FULL_SECONDS;
use crate::charging::MIN_MEASURED_SECONDS;
use crate::charging::MIN_SECONDS_PER_PERCENT;
use crate::charging::NANOS_PER_SECOND;
use crate::charging::PERSIST_INTERVAL;
use crate::magnitude::lemma_at_least;
use crate::magnitude::lemma_at_most;
use crate::magnitude::lemma_ceiling;
use crate::magnitude::one;
use crate::magnitude::Magnitude;
use crate::number::Number;
use crate::rounding::half_even;
use crate::rounding::lemma_rounded_exact;
use crate::rounding::lemma_rounded_monotone;
use crate::rounding::lemma_rounded_scale;
use crate::rounding::lemma_rounded_shifted;
use crate::rounding::rounded;

verus! {

/// Every estimate has a source, is at least twelve seconds for each remaining percentage point
/// and is at most twenty hours, whatever the UPS reports.
pub proof fn law_estimate_is_bounded(
    ups_estimate: Option<(Number, ChargeSource)>,
    learned: Option<LearnedRate>,
    fallback_full_seconds: u64,
    capacity: i32,
)
    requires
        0 <= capacity < 100,
    ensures
        ({
            let estimate = charging_estimate(
                ups_estimate,
                learned,
                fallback_full_seconds,
                capacity,
            );
            &&& estimate.source is Some
            &&& (100 - capacity) * MIN_SECONDS_PER_PERCENT <= estimate.seconds
                <= MAX_TIME_TO_FULL_SECONDS
        }),
{
    let least = ((100 - capacity) * MIN_SECONDS_PER_PERCENT) as nat;
    let o = one();
    let u = bounded(raw_seconds(ups_estimate, learned, fallback_full_seconds, capacity), capacity);
    lemma_pow2_pos(1074);
    assert(least * o <= 72000 * o) by (nonlinear_arith)
        requires
            least <= 1200,
            o > 0,
    ;
    lemma_ceiling_bounds(u, least, 72000);
}

/// On a scale of 100 Wh for a full battery, no estimate stands for more than 300 W: the missing
/// watt hours, times 3600, over the seconds.
pub proof fn law_power_is_bounded(
    ups_estimate: Option<(Number, ChargeSource)>,
    learned: Option<LearnedRate>,
    fallback_full_seconds: u64,
    capacity: i32,
)
    requires
        0 <= capacity < 100,
    ensures
        (100 - capacity) * 3600 <= 300 * charging_estimate(
            ups_estimate,
            learned,
            fallback_full_seconds,
            capacity,
        ).seconds,
{
    law_estimate_is_bounded(ups_estimate, learned, fallback_full_seconds, capacity);
}

/// UPS data comes first, then the learned rate, then the configured duration.
pub proof fn law_sources_in_order(
    ups_estimate: Option<(Number, ChargeSource)>,
    learned: Option<LearnedRate>,
    fallback_full_seconds: u64,
    capacity: i32,
)
    ensures
        ({
            let source = charging_estimate(
                ups_estimate,
                learned,
                fallback_full_seconds,
                capacity,
            ).source;
            &&& usable(ups_estimate) is Some ==> source == Some(ups_estimate->Some_0.1)
            &&& usable(ups_estimate) is None && learned is Some ==> source == Some(
                ChargeSource::Learned,
            )
            &&& usable(ups_estimate) is None && learned is None ==> source == Some(
                ChargeSource::Fallback,
            )
        }),
{
}

/// Without UPS data and without history, the estimate is the configured duration times the
/// remaining percentage, rounded up to a second.
pub proof fn law_first_estimate(
    ups_estimate: Option<(Number, ChargeSource)>,
    fallback_full_seconds: u64,
    capacity: i32,
)
    requires
        usable(ups_estimate) is None,
        MIN_CHARGE_FULL_SECONDS <= fallback_full_seconds <= MAX_TIME_TO_FULL_SECONDS,
        0 <= capacity < 100,
    ensures
        charging_estimate(ups_estimate, None, fallback_full_seconds, capacity).seconds == ((100
            - capacity) * fallback_full_seconds + 99) / 100,
{
    let o = one();
    let remaining = (100 - capacity) as nat;
    let full = fallback_full_seconds as nat;
    let product = remaining * full;
    let q = product / 100;
    let r = product % 100;
    lemma_pow2_pos(1074);
    lemma2_to64();
    lemma2_to64_rest();
    lemma_pow2_adds(7, 1067);
    assert(1200 * remaining <= product <= 7200000) by (nonlinear_arith)
        requires
            product == remaining * full,
            1200 <= full <= 72000,
            remaining <= 100,
    ;
    let n = (product * o) * o;
    let d = 100 * o;
    let x = rounded(n, d);
    assert(remaining * full * o == product * o);
    assert(raw_seconds(ups_estimate, None, fallback_full_seconds, capacity) == x);
    let c: nat = if r == 0 { q } else { q + 1 };
    // The rounded quotient lies above `q` where the exact one does.
    assert(q * o * d <= n && n <= c * o * d) by (nonlinear_arith)
        requires
            n == (product * o) * o,
            d == 100 * o,
            100 * q <= product <= 100 * c,
            o > 0,
    ;
    lemma_at_least(q, n, d);
    lemma_at_most(c, n, d);
    if r > 0 {
        let p = pow2(1067);
        let low = (128 * q + 1) * p;
        lemma_pow2_pos(1067);
        lemma_rounded_exact(128 * q + 1, 1067, 1);
        assert(low * 1 == low);
        assert(low * d <= n * 1 && q * o < low) by (nonlinear_arith)
            requires
                low == (128 * q + 1) * p,
                o == 128 * p,
                d == 100 * o,
                n == (product * o) * o,
                100 * q + 1 <= product,
                p > 0,
        {
            assert(low * d == (100 * (128 * q + 1) * p) * o);
            assert(product * o == (128 * product) * p);
            assert(100 * (128 * q + 1) <= 128 * product);
            assert((100 * (128 * q + 1)) * p <= (128 * product) * p);
            assert((100 * (128 * q + 1) * p) * o <= (product * o) * o);
        }
        lemma_rounded_monotone(low, 1, n, d);
    }
    assert(c > 0 ==> (c - 1) * o < x) by {
        if r == 0 && q > 0 {
            assert((c - 1) * o < q * o) by (nonlinear_arith)
                requires
                    c == q,
                    o > 0,
            ;
        }
    }
    // The bounds do not move it.
    let least = remaining * 12;
    assert(least * o <= x && x <= 72000 * o) by (nonlinear_arith)
        requires
            q * o <= x <= c * o,
            least <= q,
            c <= 72000,
            o > 0,
    ;
    assert(bounded(x, capacity) == x);
    lemma_ceiling(x, c);
}

/// A time in seconds reaches a whole number exactly when the time does.
pub proof fn law_seconds_reach_whole_numbers(nanos: nat, k: nat)
    requires
        1 <= k <= 1_000_000,
    ensures
        seconds_units(nanos) >= k * one() <==> nanos >= k * NANOS_PER_SECOND as nat,
{
    let s = NANOS_PER_SECOND as nat;
    let o = one();
    let q = nanos / s;
    let r = nanos % s;
    let whole = rounded(q * o, 1);
    let part = rounded((r * o) * o, s * o);
    lemma_pow2_pos(1074);
    lemma_pow2_pos(1044);
    lemma2_to64();
    lemma2_to64_rest();
    lemma_pow2_adds(30, 1044);
    lemma_fundamental_div_mod(nanos as int, s as int);
    assert(s * o > 0) by (nonlinear_arith)
        requires
            s > 0,
            o > 0,
    ;
    if nanos >= k * s {
        assert(q >= k);
        assert(k * o * 1 <= q * o) by (nonlinear_arith)
            requires
                k <= q,
        ;
        lemma_at_least(k, q * o, 1);
        lemma_at_least(k, whole + part, 1);
    } else {
        let p = pow2(1044);
        let high = 0x3fff_ffff * p;
        let top = (k * 0x4000_0000 - 1) as nat;
        assert(q <= k - 1);
        assert(q * o <= (k - 1) as nat * o * 1) by (nonlinear_arith)
            requires
                q <= k - 1,
                k >= 1,
        ;
        lemma_at_most((k - 1) as nat, q * o, 1);
        lemma_rounded_exact(0x3fff_ffff, 1044, 1);
        assert(high * 1 == high);
        assert(((r * o) * o) * 1 <= high * (s * o)) by (nonlinear_arith)
            requires
                high == 0x3fff_ffff * p,
                o == 0x4000_0000 * p,
                r <= s - 1,
                s == 1_000_000_000,
                p > 0,
        {
            assert(r * 0x4000_0000 <= 0x3fff_ffff * s);
            assert((r * 0x4000_0000) * p <= (0x3fff_ffff * s) * p);
            assert(r * o == (r * 0x4000_0000) * p);
            assert(high * s == (0x3fff_ffff * s) * p);
            assert((r * o) * o <= (high * s) * o);
        }
        lemma_rounded_monotone((r * o) * o, s * o, high, 1);
        assert(whole + part <= top * p && top * p < k * o) by (nonlinear_arith)
            requires
                whole <= (k - 1) * o,
                part <= 0x3fff_ffff * p,
                o == 0x4000_0000 * p,
                top == k * 0x4000_0000 - 1,
                p > 0,
        ;
        lemma_rounded_exact(top, 1044, 1);
        assert((top * p) * 1 == top * p);
        lemma_rounded_monotone(whole + part, 1, top * p, 1);
    }
}

/// A rate is learned only from an increase by two percentage points or more over a minute or
/// more, measured from an increase that was itself observed.
pub proof fn law_learning_takes_two_points_and_a_minute(
    session: Option<ChargingSession>,
    capacity: i32,
    now: u128,
    wall: i128,
    max_gap: u128,
)
    ensures
        sampled_rate(session, capacity, now, wall, max_gap) is Some ==> {
            &&& continues(session, capacity, now, wall, max_gap)
            &&& session->Some_0.anchor matches Some(anchor) && capacity - anchor.capacity >= 2
                && time_since(now, anchor.reached) >= MIN_MEASURED_SECONDS * NANOS_PER_SECOND
        },
{
    if let Some(s) = session {
        if let Some(anchor) = s.anchor {
            law_seconds_reach_whole_numbers(time_since(now, anchor.reached), 60);
        }
    }
}

/// The percentage point during which an observation begins is not measured: nothing is learned
/// from the first increase, which only begins the measurement.
pub proof fn law_first_interval_is_discarded(
    session: Option<ChargingSession>,
    capacity: i32,
    now: u128,
    wall: i128,
    later_capacity: i32,
    later_now: u128,
    later_wall: i128,
    max_gap: u128,
)
    requires
        !continues(session, capacity, now, wall, max_gap),
    ensures
        ({
            let fresh = next_session(session, capacity, now, wall, max_gap);
            let later = next_session(
                Some(fresh),
                later_capacity,
                later_now,
                later_wall,
                max_gap,
            );
            &&& fresh.anchor is None
            &&& sampled_rate(session, capacity, now, wall, max_gap) is None
            &&& sampled_rate(Some(fresh), later_capacity, later_now, later_wall, max_gap) is None
            &&& later.anchor matches Some(anchor) ==> later_capacity > capacity && anchor.capacity
                == later_capacity && anchor.reached == later_now
        }),
{
}

/// An observation keeps the memory valid: a learned rate stays one that charging can have, with
/// the time at which it was learned, and is never lost; and the session is that of the sample.
pub proof fn law_observation_keeps_memory_valid(
    before: ChargingMemory,
    after: ChargingMemory,
    record: Option<LearnedRate>,
    capacity: i32,
    now: u128,
    wall: i128,
    max_gap: u128,
)
    requires
        before.wf(),
        0 <= capacity < 100,
        observed(before, after, record, capacity, now, wall, max_gap),
    ensures
        after.wf(),
        after.learned matches Some(learned) ==> is_valid_rate(learned.rate) && (after.learned
            == before.learned || learned.learned_at == wall),
        before.learned is Some ==> after.learned is Some,
        after.session matches Some(session) && session.capacity == capacity && session.last_sample
            == now && session.last_wall == wall,
{
    match sampled_rate(before.session, capacity, now, wall, max_gap) {
        Some(sample) => {
            if let Some(learned) = before.learned {
                lemma_smoothed_is_valid(learned.rate.units(), sample);
            }
        },
        None => {},
    }
}

/// An update keeps the memory valid, whether the battery charges or not.
pub proof fn law_updates_keep_memory_valid(
    before: ChargingMemory,
    after: ChargingMemory,
    record: Option<LearnedRate>,
    now: u128,
)
    requires
        before.wf(),
        is_update(before, after, record, now),
    ensures
        after.wf(),
        record matches Some(learned) ==> after.learned == Some(learned) && is_valid_rate(
            learned.rate,
        ),
{
    if after != (ChargingMemory { session: None, ..before }) {
        let (checked_at, capacity, wall, max_gap) = choose|
            checked_at: i128,
            capacity: i32,
            wall: i128,
            max_gap: u128,
        |
            0 <= capacity < 100 && #[trigger] observed(
                without_stale(before, checked_at),
                after,
                record,
                capacity,
                now,
                wall,
                max_gap,
            );
        law_observation_keeps_memory_valid(
            without_stale(before, checked_at),
            after,
            record,
            capacity,
            now,
            wall,
            max_gap,
        );
    }
}

/// An interruption ends the observation but keeps the learned rate: a gap on either clock, clocks
/// that disagree, a decrease, or a jump.
pub proof fn law_interruption_keeps_rate(
    before: ChargingMemory,
    after: ChargingMemory,
    record: Option<LearnedRate>,
    capacity: i32,
    now: u128,
    wall: i128,
    max_gap: u128,
)
    requires
        observed(before, after, record, capacity, now, wall, max_gap),
        !continues(before.session, capacity, now, wall, max_gap),
    ensures
        after.learned == before.learned,
        record is None,
        after.session == Some(
            ChargingSession { capacity, last_sample: now, last_wall: wall, anchor: None },
        ),
{
}

/// Three quarters of a mantissa, rounded to 53 digits, and a quarter of it add up to the mantissa
/// again, once that is rounded.
proof fn lemma_three_quarters(m: nat)
    requires
        0x10_0000_0000_0000 <= m < 0x20_0000_0000_0000,
    ensures
        ({
            let d: nat = if 3 * m < 0x40_0000_0000_0000 {
                2
            } else {
                4
            };
            let y = half_even(3 * m, d) * d + m;
            0x40_0000_0000_0000 <= y < 0x80_0000_0000_0000 && half_even(y, 4) == m
        }),
{
    if 3 * m < 0x40_0000_0000_0000 {
        let r = half_even(3 * m, 2) * 2;
        assert(3 * m - 1 <= r <= 3 * m + 1);
        assert(m % 2 == 0 ==> r == 3 * m);
    } else {
        let r = half_even(3 * m, 4) * 4;
        assert(3 * m - 2 <= r <= 3 * m + 2);
        assert(m % 2 == 1 ==> 3 * m - 1 <= r <= 3 * m + 1);
    }
}

/// Smoothing a rate with itself gives the rate.
proof fn lemma_smoothed_with_itself(rate: Magnitude)
    requires
        is_valid_rate(rate),
    ensures
        smoothed(rate.units(), rate.units()) == rate.units(),
{
    let m = rate.mantissa as nat;
    let e = rate.exponent as nat;
    let v = rate.units();
    let o = one();
    lemma2_to64();
    lemma2_to64_rest();
    lemma_pow2_pos(1074);
    assert(e >= 2) by {
        if e < 2 {
            lemma_pow2_adds(53, e);
            lemma_pow2_strictly_increases(53 + e, 1074);
            assert(v < pow2(53) * pow2(e)) by (nonlinear_arith)
                requires
                    v == m * pow2(e),
                    m < pow2(53),
                    pow2(e) > 0,
            ;
        }
    }
    let g = (e - 2) as nat;
    let p = pow2(g);
    let c = pow2(1072);
    lemma_pow2_pos(g);
    lemma_pow2_adds(2, g);
    lemma_pow2_adds(2, 1072);
    // Counted in quarters of the last digit of the rate.
    assert(v == 4 * m * p && v * (3 * c) == (3 * m * p) * o && v * c == (m * p) * o)
        by (nonlinear_arith)
        requires
            v == m * pow2(e),
            pow2(e) == 4 * p,
            o == 4 * c,
    ;
    lemma_rounded_scale(3 * m * p, 1, o);
    lemma_rounded_exact(m, g, o);
    assert(1 * o == o);
    let j: nat = if 3 * m < pow2(54) {
        1
    } else {
        2
    };
    let r = half_even(3 * m, pow2(j)) * pow2(j);
    assert(pow2(52 + j) <= 3 * m < pow2(53 + j));
    lemma_rounded_shifted(3 * m, j, g);
    let y = r + m;
    assert(r * p + m * p == y * p) by (nonlinear_arith)
        requires
            y == r + m,
    ;
    lemma_three_quarters(m);
    lemma_rounded_shifted(y, 2, g);
    assert(m * 4 * p == v) by (nonlinear_arith)
        requires
            v == 4 * m * p,
    ;
}

/// Smoothing leaves a rate between the previous one and the sample.
pub proof fn law_smoothing_stays_between(previous: Magnitude, sample: Magnitude)
    requires
        is_valid_rate(previous),
        is_valid_rate(sample),
    ensures
        ({
            let (a, b) = (previous.units(), sample.units());
            &&& a <= b ==> a <= smoothed(a, b) <= b
            &&& b <= a ==> b <= smoothed(a, b) <= a
        }),
{
    let (a, b) = (previous.units(), sample.units());
    lemma_smoothed_with_itself(previous);
    lemma_smoothed_with_itself(sample);
    if a <= b {
        lemma_smoothed_monotone(a, a, a, b);
        lemma_smoothed_monotone(a, b, b, b);
    } else {
        lemma_smoothed_monotone(b, b, a, b);
        lemma_smoothed_monotone(a, b, a, a);
    }
}

proof fn lemma_smoothed_monotone(a: nat, b: nat, c: nat, d: nat)
    requires
        a <= c,
        b <= d,
    ensures
        smoothed(a, b) <= smoothed(c, d),
{
    let o = one();
    let p = pow2(1072);
    lemma_pow2_pos(1074);
    assert(a * (3 * p) * o <= c * (3 * p) * o && b * p * o <= d * p * o) by (nonlinear_arith)
        requires
            a <= c,
            b <= d,
            p >= 0,
            o >= 0,
    ;
    lemma_rounded_monotone(a * (3 * p), o, c * (3 * p), o);
    lemma_rounded_monotone(b * p, o, d * p, o);
    let x = rounded(a * (3 * p), o) + rounded(b * p, o);
    let y = rounded(c * (3 * p), o) + rounded(d * p, o);
    lemma_rounded_monotone(x, 1, y, 1);
}

/// What one update can do to the memory: a sample while charging, or the end of the observation.
pub open spec fn is_update(
    before: ChargingMemory,
    after: ChargingMemory,
    record: Option<LearnedRate>,
    now: u128,
) -> bool {
    ||| after == (ChargingMemory { session: None, ..before }) && record is None
    ||| exists|checked_at: i128, capacity: i32, wall: i128, max_gap: u128|
        0 <= capacity < 100 && #[trigger] observed(
            without_stale(before, checked_at),
            after,
            record,
            capacity,
            now,
            wall,
            max_gap,
        )
}

/// Two writes of the state file are at least a minute apart, over any number of updates.
pub proof fn law_writes_are_a_minute_apart(
    memories: Seq<ChargingMemory>,
    records: Seq<Option<LearnedRate>>,
    times: Seq<u128>,
    i: int,
    j: int,
)
    requires
        records.len() == times.len(),
        memories.len() == times.len() + 1,
        forall|k: int|
            #![trigger times[k]]
            0 <= k < times.len() ==> is_update(memories[k], memories[k + 1], records[k], times[k]),
        forall|a: int, b: int| 0 <= a <= b < times.len() ==> times[a] <= times[b],
        0 <= i < j < times.len(),
        records[i] is Some,
        records[j] is Some,
    ensures
        times[j] - times[i] >= PERSIST_INTERVAL,
{
    lemma_last_attempt(memories, records, times, i, j);
    let t = times[j];
    assert(is_update(memories[j], memories[j + 1], records[j], t));
}

/// After a write, the last attempt is that one or a later one.
proof fn lemma_last_attempt(
    memories: Seq<ChargingMemory>,
    records: Seq<Option<LearnedRate>>,
    times: Seq<u128>,
    i: int,
    j: int,
)
    requires
        records.len() == times.len(),
        memories.len() == times.len() + 1,
        forall|k: int|
            #![trigger times[k]]
            0 <= k < times.len() ==> is_update(memories[k], memories[k + 1], records[k], times[k]),
        forall|a: int, b: int| 0 <= a <= b < times.len() ==> times[a] <= times[b],
        0 <= i < j <= times.len(),
        records[i] is Some,
    ensures
        memories[j].last_persist_attempt matches Some(last) && times[i] <= last <= times[j - 1],
    decreases j - i,
{
    let t = times[j - 1];
    assert(is_update(memories[j - 1], memories[j], records[j - 1], t));
    if j > i + 1 {
        lemma_last_attempt(memories, records, times, i, j - 1);
        assert(times[j - 2] <= times[j - 1]);
        assert(times[i] <= times[j - 1]);
    }
}

} // verus!
