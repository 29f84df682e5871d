//! What is learned from an observation of charging, said of times and percentages alone.

use vstd::arithmetic::div_mod::*;
use vstd::arithmetic::power2::*;
use vstd::prelude::*;

use crate::charging::observed;
use crate::charging::seconds_units;
use crate::charging::smoothed;
use crate::charging::Anchor;
use crate::charging::ChargingMemory;
use crate::charging::ChargingSession;
use crate::charging::LearnedRate;
use crate::charging_laws::law_seconds_reach_whole_numbers;
use crate::magnitude::lemma_at_least;
use crate::magnitude::lemma_at_most;
use crate::magnitude::one;
use crate::rounding::distance;
use crate::rounding::lemma_rounded_error;
use crate::rounding::lemma_rounded_exact;
use crate::rounding::lemma_rounded_integer_error;
use crate::rounding::lemma_rounded_monotone;
use crate::rounding::rounded;

verus! {

/// The time from one reading of the monotonic clock to another.
pub open spec fn elapsed(from: u128, to: u128) -> int {
    if from <= to {
        to - from
    } else {
        0
    }
}

/// A sample follows the last one without an interruption: neither clock shows a longer gap than
/// allowed, the clocks agree within two seconds, the wall clock does not run back, and the
/// percentage rises by at most five points.
pub open spec fn follows(
    session: ChargingSession,
    capacity: i32,
    now: u128,
    wall: i128,
    max_gap: u128,
) -> bool {
    let gap = elapsed(session.last_sample, now);
    let wall_gap = wall - session.last_wall;
    &&& gap <= max_gap
    &&& 0 <= wall_gap <= max_gap
    &&& -2_000_000_000 <= gap - wall_gap <= 2_000_000_000
    &&& session.capacity <= capacity <= session.capacity + 5
}

/// Nothing was learned, and nothing is to be written.
pub open spec fn unchanged(
    before: ChargingMemory,
    after: ChargingMemory,
    record: Option<LearnedRate>,
) -> bool {
    &&& after.learned == before.learned
    &&& after.last_persist_attempt == before.last_persist_attempt
    &&& record is None
}

/// The absolute difference.
pub open spec fn apart(a: int, b: int) -> int {
    if a <= b {
        b - a
    } else {
        a - b
    }
}

proof fn lemma_small_powers()
    ensures
        one() == 4 * pow2(1072),
        pow2(1072) >= 0x20_0000_0000_0000,
{
    lemma2_to64();
    lemma2_to64_rest();
    lemma_pow2_adds(2, 1072);
    lemma_pow2_strictly_increases(53, 1072);
}

/// A time in seconds differs from the nanoseconds by less than one part in 2^28 of a second.
proof fn lemma_seconds_error(nanos: nat)
    requires
        nanos <= 7_200_000_000_000_000,
    ensures
        0x1000_0000 * apart(
            (seconds_units(nanos) * 1_000_000_000) as int,
            (nanos * one()) as int,
        ) <= 1_000_000_000 * one(),
        seconds_units(nanos) <= 7_200_000 * one(),
{
    let s: nat = 1_000_000_000;
    let o = one();
    let q = nanos / s;
    let r = nanos % s;
    let whole = rounded(q * o, 1);
    let part = rounded((r * o) * o, s * o);
    let w = seconds_units(nanos);
    lemma_small_powers();
    lemma_pow2_pos(1074);
    lemma2_to64();
    lemma2_to64_rest();
    lemma_fundamental_div_mod(nanos as int, s as int);
    assert(q <= 7_200_000);
    lemma_rounded_exact(q, 1074, 1);
    assert((q * o) * 1 == q * o);
    assert(s * o > 0) by (nonlinear_arith)
        requires
            s > 0,
            o > 0,
    ;
    lemma_rounded_error((r * o) * o, s * o);
    let f = 0x20_0000_0000_0000int;
    // The fraction.
    let x = part * s;
    let y = r * o;
    assert(distance(part, (r * o) * o, s * o) == apart(x as int, y as int) * o)
        by (nonlinear_arith)
        requires
            distance(part, (r * o) * o, s * o) == (if part * (s * o) >= (r * o) * o {
                part * (s * o) - (r * o) * o
            } else {
                (r * o) * o - part * (s * o)
            }),
            x == part * s,
            y == r * o,
            apart(x as int, y as int) == (if x <= y {
                y - x
            } else {
                x - y
            }),
            o > 0,
    {
        assert(part * (s * o) == x * o);
        assert((r * o) * o == y * o);
        if x <= y {
            assert(x * o <= y * o);
            assert((y - x) * o == y * o - x * o);
        } else {
            assert(y * o <= x * o);
            assert((x - y) * o == x * o - y * o);
        }
    }
    let gap = apart(x as int, y as int);
    assert(f * gap <= y + 0x10_0000_0000_0000 * s) by (nonlinear_arith)
        requires
            f * (gap * o) <= (r * o) * o + 0x10_0000_0000_0000 * (s * o),
            y == r * o,
            o > 0,
    {
        let t = y + 0x10_0000_0000_0000 * s;
        assert((r * o) * o + 0x10_0000_0000_0000 * (s * o) == t * o);
        assert(f * (gap * o) == (f * gap) * o);
        if f * gap > t {
            assert((f * gap) * o > t * o);
        }
    }
    assert(y <= s * o) by (nonlinear_arith)
        requires
            y == r * o,
            r <= s,
    ;
    // The sum.
    assert(part <= o) by {
        assert((r * o) * o <= 1 * o * (s * o)) by (nonlinear_arith)
            requires
                r <= s,
                o > 0,
        ;
        lemma_at_most(1, (r * o) * o, s * o);
    }
    lemma_rounded_integer_error(whole + part, 1);
    assert((whole + part) * 1 == whole + part);
    let sum = whole + part;
    assert(q * o <= 7_200_000 * o) by (nonlinear_arith)
        requires
            q <= 7_200_000,
    ;
    assert(sum <= 7_200_001 * o);
    assert(w * 1 == w);
    let gap2 = apart(w as int, sum as int);
    assert(distance(w, sum, 1) == gap2);
    assert(f * gap2 <= sum);
    // Together.
    assert(sum * s == q * s * o + x && nanos * o == q * s * o + y) by (nonlinear_arith)
        requires
            sum == q * o + part,
            x == part * s,
            y == r * o,
            nanos == s * q + r,
    ;
    assert(apart((w * s) as int, (sum * s) as int) == gap2 * s);
    assert(0x1000_0000 * apart((w * s) as int, (nanos * o) as int) <= s * o);
    lemma_seconds_at_most(nanos, 7_200_000);
}

/// A time that is not longer than some whole seconds is not rounded beyond them.
proof fn lemma_seconds_at_most(nanos: nat, k: nat)
    requires
        nanos <= k * 1_000_000_000,
        k <= 7_200_000,
    ensures
        seconds_units(nanos) <= k * one(),
{
    let s: nat = 1_000_000_000;
    let o = one();
    let q = nanos / s;
    let r = nanos % s;
    let whole = rounded(q * o, 1);
    let part = rounded((r * o) * o, s * o);
    lemma_pow2_pos(1074);
    lemma2_to64();
    lemma2_to64_rest();
    lemma_fundamental_div_mod(nanos as int, s as int);
    lemma_rounded_exact(q, 1074, 1);
    assert((q * o) * 1 == q * o);
    assert(s * o > 0 && (r * o) * o <= 1 * o * (s * o)) by (nonlinear_arith)
        requires
            r <= s,
            s > 0,
            o > 0,
    ;
    if r == 0 {
        assert((r * o) * o <= 0 * o * (s * o)) by (nonlinear_arith)
            requires
                r == 0,
        ;
        lemma_at_most(0, (r * o) * o, s * o);
        assert(part == 0);
    } else {
        lemma_at_most(1, (r * o) * o, s * o);
    }
    assert(whole + part <= k * o * 1) by (nonlinear_arith)
        requires
            whole == q * o,
            (r == 0 && part == 0 && q <= k) || (part <= o && q + 1 <= k),
    ;
    lemma_at_most(k, whole + part, 1);
}

/// The measured rate differs from the time over the points by less than one part in 2^27 of a
/// second for each point.
proof fn lemma_measured(nanos: nat, points: nat) -> (rate: nat)
    requires
        2 <= points <= 99,
        12 * points * 1_000_000_000 <= nanos <= 72000 * points * 1_000_000_000,
    ensures
        rate == rounded(seconds_units(nanos) * one(), points * one()),
        12 * one() <= rate <= 72000 * one(),
        0x800_0000 * apart(
            (rate * (points * 1_000_000_000)) as int,
            (nanos * one()) as int,
        ) <= points * 1_000_000_000 * one(),
{
    let o = one();
    let s: nat = 1_000_000_000;
    let w = seconds_units(nanos);
    let n = w * o;
    let d = points * o;
    let rate = rounded(n, d);
    lemma_small_powers();
    lemma_pow2_pos(1074);
    assert(d > 0) by (nonlinear_arith)
        requires
            d == points * o,
            points > 0,
            o > 0,
    ;
    assert(72000 * points * s <= 7_200_000 * s) by (nonlinear_arith)
        requires
            points <= 99,
    ;
    lemma_seconds_error(nanos);
    law_seconds_reach_whole_numbers(nanos, 12 * points);
    lemma_seconds_at_most(nanos, 72000 * points);
    assert(12 * o * d <= n && n <= 72000 * o * d) by (nonlinear_arith)
        requires
            n == w * o,
            d == points * o,
            12 * points * o <= w <= 72000 * points * o,
            o > 0,
    ;
    lemma_at_least(12, n, d);
    lemma_at_most(72000, n, d);
    lemma_rounded_error(n, d);
    let f = 0x20_0000_0000_0000int;
    let x = rate * points;
    assert(rate * d == x * o) by (nonlinear_arith)
        requires
            d == points * o,
            x == rate * points,
    ;
    let gap = apart(x as int, w as int);
    assert(distance(rate, n, d) == gap * o) by (nonlinear_arith)
        requires
            distance(rate, n, d) == (if rate * d >= n {
                rate * d - n
            } else {
                n - rate * d
            }),
            rate * d == x * o,
            n == w * o,
            gap == (if x <= w {
                w - x
            } else {
                x - w
            }),
            o > 0,
    {
        if x <= w {
            assert(x * o <= w * o);
            assert((w - x) * o == w * o - x * o);
        } else {
            assert(w * o <= x * o);
            assert((x - w) * o == x * o - w * o);
        }
    }
    assert(f * gap <= w + 0x10_0000_0000_0000 * points) by (nonlinear_arith)
        requires
            f * (gap * o) <= w * o + 0x10_0000_0000_0000 * (points * o),
            o > 0,
    {
        let t = w + 0x10_0000_0000_0000 * points;
        assert(w * o + 0x10_0000_0000_0000 * (points * o) == t * o);
        assert(f * (gap * o) == (f * gap) * o);
        if f * gap > t {
            assert((f * gap) * o > t * o);
        }
    }
    assert(0x1000_0000 * gap <= o);
    assert(rate * (points * s) == x * s) by (nonlinear_arith)
        requires
            x == rate * points,
    ;
    assert(apart((x * s) as int, (w * s) as int) == gap * s);
    assert(0x1000_0000 * (gap * s) <= s * o) by (nonlinear_arith)
        requires
            0x1000_0000 * gap <= o,
            s > 0,
    ;
    let total = apart((x * s) as int, (nanos * o) as int);
    assert(0x800_0000 * total <= s * o);
    assert(s * o <= points * s * o) by (nonlinear_arith)
        requires
            points >= 1,
            s * o >= 0,
    ;
    rate
}

/// The smoothed rate differs from three quarters of the old and a quarter of the new one by less
/// than one part in 2^30 of a second.
proof fn lemma_smoothed_error(p: nat, r: nat)
    requires
        12 * one() <= p <= 72000 * one(),
        12 * one() <= r <= 72000 * one(),
    ensures
        0x4000_0000 * apart((4 * smoothed(p, r)) as int, (3 * p + r) as int) <= one(),
{
    let o = one();
    let c = pow2(1072);
    let f = 0x20_0000_0000_0000int;
    lemma_small_powers();
    lemma_pow2_pos(1074);
    let (n1, n2) = (p * (3 * c), r * c);
    let (x, y) = (rounded(n1, o), rounded(n2, o));
    lemma_rounded_error(n1, o);
    lemma_rounded_error(n2, o);
    assert(x * o == (4 * x) * c && n1 == (3 * p) * c && y * o == (4 * y) * c) by (nonlinear_arith)
        requires
            o == 4 * c,
            n1 == p * (3 * c),
    ;
    lemma_common_factor(4 * x, 3 * p, c);
    lemma_common_factor(4 * y, r, c);
    let (g1, g2) = (apart((4 * x) as int, (3 * p) as int), apart((4 * y) as int, r as int));
    assert(f * g1 <= 3 * p + 0x10_0000_0000_0000 * 4) by (nonlinear_arith)
        requires
            f * (g1 * c) <= (3 * p) * c + 0x10_0000_0000_0000 * (4 * c),
            c > 0,
    {
        let t = 3 * p + 0x10_0000_0000_0000 * 4;
        assert((3 * p) * c + 0x10_0000_0000_0000 * (4 * c) == t * c);
        assert(f * (g1 * c) == (f * g1) * c);
        if f * g1 > t {
            assert((f * g1) * c > t * c);
        }
    }
    assert(f * g2 <= r + 0x10_0000_0000_0000 * 4) by (nonlinear_arith)
        requires
            f * (g2 * c) <= r * c + 0x10_0000_0000_0000 * (4 * c),
            c > 0,
    {
        let t = r + 0x10_0000_0000_0000 * 4;
        assert(r * c + 0x10_0000_0000_0000 * (4 * c) == t * c);
        assert(f * (g2 * c) == (f * g2) * c);
        if f * g2 > t {
            assert((f * g2) * c > t * c);
        }
    }
    lemma_rounded_integer_error(x + y, 1);
    assert((x + y) * 1 == x + y);
    let z = smoothed(p, r);
    assert(z * 1 == z);
    assert(f * apart(z as int, (x + y) as int) <= x + y);
}

proof fn lemma_common_factor(a: nat, b: nat, c: nat)
    requires
        c > 0,
    ensures
        apart((a * c) as int, (b * c) as int) == apart(a as int, b as int) * c,
{
    if a <= b {
        assert(a * c <= b * c && (b - a) * c == b * c - a * c) by (nonlinear_arith)
            requires
                a <= b,
                c > 0,
        ;
    } else {
        assert(b * c < a * c && (a - b) * c == a * c - b * c) by (nonlinear_arith)
            requires
                b < a,
                c > 0,
        ;
    }
}

/// The end of a measurement moves the rate. Measured are the points by which the percentage rose
/// since the anchor, over the time since it; where that is between 12 and 72000 seconds a point,
/// the new rate is three quarters of the old rate and a quarter of the measured one, or the
/// measured one where there was none, within a millionth of a second. It lies strictly between
/// the two where they are further apart. The rate is written unless one was written in the last
/// minute, and the next measurement begins.
pub proof fn law_measurements_move_the_rate(
    before: ChargingMemory,
    after: ChargingMemory,
    record: Option<LearnedRate>,
    capacity: i32,
    now: u128,
    wall: i128,
    max_gap: u128,
    session: ChargingSession,
    anchor: Anchor,
)
    requires
        before.wf(),
        0 <= capacity < 100,
        observed(before, after, record, capacity, now, wall, max_gap),
        before.session == Some(session),
        session.anchor == Some(anchor),
        follows(session, capacity, now, wall, max_gap),
        capacity > session.capacity,
        capacity - anchor.capacity >= 2,
        elapsed(anchor.reached, now) >= 60_000_000_000,
        12_000_000_000 * (capacity - anchor.capacity) <= elapsed(anchor.reached, now)
            <= 72_000_000_000_000 * (capacity - anchor.capacity),
    ensures
        after.session == Some(
            ChargingSession {
                capacity,
                last_sample: now,
                last_wall: wall,
                anchor: Some(Anchor { capacity, reached: now }),
            },
        ),
        after.learned is Some,
        after.learned->Some_0.learned_at == wall,
        ({
            let rate = after.learned->Some_0.rate.units();
            let points = (capacity - anchor.capacity) * 1_000_000_000;
            let time = elapsed(anchor.reached, now) * one();
            match before.learned {
                None => 0x10_0000 * apart(rate * points, time) <= points * one(),
                Some(learned) => {
                    let old_rate = learned.rate.units();
                    &&& 0x10_0000 * apart(4 * rate * points, 3 * old_rate * points + time)
                        <= points * one()
                    &&& 0x4_0000 * (time - old_rate * points) > points * one() ==> old_rate * points
                        < rate * points < time
                    &&& 0x4_0000 * (old_rate * points - time) > points * one() ==> time < rate
                        * points < old_rate * points
                },
            }
        }),
        ({
            let due = before.last_persist_attempt is None || elapsed(
                before.last_persist_attempt->Some_0,
                now,
            ) >= 60_000_000_000;
            &&& due ==> record == after.learned && after.last_persist_attempt == Some(now)
            &&& !due ==> record is None && after.last_persist_attempt
                == before.last_persist_attempt
        }),
{
    let o = one();
    let nanos = elapsed(anchor.reached, now) as nat;
    let pts = (capacity - anchor.capacity) as nat;
    lemma_pow2_pos(1074);
    law_seconds_reach_whole_numbers(nanos, 60);
    let sample = lemma_measured(nanos, pts);
    let q = (pts * 1_000_000_000) as int;
    let time = (nanos * o) as int;
    let rate = after.learned->Some_0.rate.units();
    assert(pts * 1_000_000_000 * o == q * o);
    match before.learned {
        None => {
            assert(rate == sample);
        },
        Some(learned) => {
            let p = learned.rate.units();
            assert(rate == smoothed(p, sample));
            lemma_smoothed_error(p, sample);
            let g = apart((4 * rate) as int, (3 * p + sample) as int);
            let h = apart((sample * q) as int, time);
            assert(q > 0);
            assert(apart(4 * rate * q, 3 * p * q + sample * q) == g * q) by {
                lemma_common_factor(4 * rate, 3 * p + sample, q as nat);
                assert((3 * p + sample) * q == 3 * p * q + sample * q) by (nonlinear_arith);
            }
            assert(0x4000_0000 * (g * q) <= q * o) by (nonlinear_arith)
                requires
                    0x4000_0000 * g <= o,
                    q > 0,
            ;
            assert(4 * rate * q == 4 * (rate * q) && 3 * p * q == 3 * (p * q)) by (nonlinear_arith);
            let total = apart(4 * rate * q, 3 * p * q + time);
            assert(total <= g * q + h);
            assert(0x800_0000 * h <= q * o);
            assert(0x10_0000 * total <= q * o);
        },
    }
}

/// A measurement whose rate charging cannot have teaches nothing, but ends all the same: less
/// than 12 seconds for a point, or more than 72000 by a nanosecond or more.
pub proof fn law_impossible_rates_are_not_learned(
    before: ChargingMemory,
    after: ChargingMemory,
    record: Option<LearnedRate>,
    capacity: i32,
    now: u128,
    wall: i128,
    max_gap: u128,
    session: ChargingSession,
    anchor: Anchor,
)
    requires
        before.wf(),
        0 <= capacity < 100,
        observed(before, after, record, capacity, now, wall, max_gap),
        before.session == Some(session),
        session.anchor == Some(anchor),
        follows(session, capacity, now, wall, max_gap),
        capacity > session.capacity,
        capacity - anchor.capacity >= 2,
        elapsed(anchor.reached, now) >= 60_000_000_000,
        elapsed(anchor.reached, now) < 12_000_000_000 * (capacity - anchor.capacity) || elapsed(
            anchor.reached,
            now,
        ) >= 72_000_000_000_001 * (capacity - anchor.capacity),
    ensures
        unchanged(before, after, record),
        after.session == Some(
            ChargingSession {
                capacity,
                last_sample: now,
                last_wall: wall,
                anchor: Some(Anchor { capacity, reached: now }),
            },
        ),
{
    let o = one();
    let nanos = elapsed(anchor.reached, now) as nat;
    let pts = (capacity - anchor.capacity) as nat;
    law_seconds_reach_whole_numbers(nanos, 60);
    if nanos < 12_000_000_000 * pts {
        lemma_too_fast(nanos, pts);
    } else {
        lemma_too_slow(nanos, pts);
    }
}

proof fn lemma_too_fast(nanos: nat, points: nat)
    requires
        2 <= points <= 99,
        nanos < 12_000_000_000 * points,
    ensures
        rounded(seconds_units(nanos) * one(), points * one()) < 12 * one(),
{
    let o = one();
    let p = pow2(1036);
    let w = seconds_units(nanos);
    lemma_pow2_pos(1074);
    lemma_pow2_pos(1036);
    lemma2_to64();
    lemma2_to64_rest();
    lemma_pow2_adds(38, 1036);
    let k = 12 * points;
    lemma_seconds_below(nanos, k);
    let low = (12 * 0x40_0000_0000 - 1) as nat;
    lemma_rounded_exact(low, 1036, 1);
    assert((low * p) * 1 == low * p);
    let (n, d) = (w * o, points * o);
    assert(d > 0 && n * 1 <= (low * p) * d) by (nonlinear_arith)
        requires
            n == w * o,
            d == points * o,
            w + 0x100 * p <= k * o,
            k == 12 * points,
            low == 12 * 0x40_0000_0000 - 1,
            o == 0x40_0000_0000 * p,
            2 <= points <= 99,
            p > 0,
    {
        assert(k * o == (12 * 0x40_0000_0000) * (points * p));
        assert(points * p <= 0x100 * p);
        assert(w <= (12 * 0x40_0000_0000 - 1) * (points * p));
        assert(w * o <= ((12 * 0x40_0000_0000 - 1) * (points * p)) * o);
        assert((low * p) * d == ((12 * 0x40_0000_0000 - 1) * (points * p)) * o);
        assert(points * o > 0);
    }
    lemma_rounded_monotone(n, d, low * p, 1);
    assert(low * p < 12 * o) by (nonlinear_arith)
        requires
            low == 12 * 0x40_0000_0000 - 1,
            o == 0x40_0000_0000 * p,
            p > 0,
    ;
}

/// A time short of some whole seconds stays short of them by a part in 2^30 of a second.
proof fn lemma_seconds_below(nanos: nat, k: nat)
    requires
        1 <= k <= 1_000_000,
        nanos < k * 1_000_000_000,
    ensures
        seconds_units(nanos) + 0x100 * pow2(1036) <= k * one(),
{
    let s: nat = 1_000_000_000;
    let o = one();
    let p = pow2(1044);
    let q = nanos / s;
    let r = nanos % s;
    let whole = rounded(q * o, 1);
    let part = rounded((r * o) * o, s * o);
    let high = 0x3fff_ffff * p;
    let top = (k * 0x4000_0000 - 1) as nat;
    lemma_pow2_pos(1074);
    lemma_pow2_pos(1044);
    lemma2_to64();
    lemma2_to64_rest();
    lemma_pow2_adds(30, 1044);
    lemma_pow2_adds(8, 1036);
    lemma_fundamental_div_mod(nanos as int, s as int);
    assert(q <= k - 1);
    assert(q * o <= (k - 1) as nat * o * 1) by (nonlinear_arith)
        requires
            q <= k - 1,
            k >= 1,
    ;
    lemma_at_most((k - 1) as nat, q * o, 1);
    lemma_rounded_exact(0x3fff_ffff, 1044, 1);
    assert(high * 1 == high);
    assert(s * o > 0 && ((r * o) * o) * 1 <= high * (s * o)) by (nonlinear_arith)
        requires
            high == 0x3fff_ffff * p,
            o == 0x4000_0000 * p,
            r <= s - 1,
            s == 1_000_000_000,
            p > 0,
    {
        assert(r * 0x4000_0000 <= 0x3fff_ffff * s);
        assert((r * 0x4000_0000) * p <= (0x3fff_ffff * s) * p);
        assert(r * o == (r * 0x4000_0000) * p);
        assert(high * s == (0x3fff_ffff * s) * p);
        assert((r * o) * o <= (high * s) * o);
    }
    lemma_rounded_monotone((r * o) * o, s * o, high, 1);
    assert(whole + part <= top * p && top * p + p == k * o) by (nonlinear_arith)
        requires
            whole <= (k - 1) * o,
            part <= 0x3fff_ffff * p,
            o == 0x4000_0000 * p,
            top == k * 0x4000_0000 - 1,
            p > 0,
    ;
    lemma_rounded_exact(top, 1044, 1);
    assert((top * p) * 1 == top * p);
    lemma_rounded_monotone(whole + part, 1, top * p, 1);
}

proof fn lemma_too_slow(nanos: nat, points: nat)
    requires
        2 <= points <= 99,
        nanos >= 72_000_000_000_001 * points,
    ensures
        rounded(seconds_units(nanos) * one(), points * one()) > 72000 * one(),
{
    let o = one();
    let p = pow2(1038);
    let w = seconds_units(nanos);
    lemma_pow2_pos(1074);
    lemma_pow2_pos(1038);
    lemma2_to64();
    lemma2_to64_rest();
    lemma_pow2_adds(36, 1038);
    lemma_seconds_above(nanos, 72000 * points, points);
    let high = (72000 * 0x10_0000_0000 + 1) as nat;
    lemma_rounded_exact(high, 1038, 1);
    assert((high * p) * 1 == high * p);
    let (n, d) = (w * o, points * o);
    assert(d > 0 && (high * p) * d <= n * 1) by (nonlinear_arith)
        requires
            n == w * o,
            d == points * o,
            w >= 72000 * points * o + points * p,
            high == 72000 * 0x10_0000_0000 + 1,
            o == 0x10_0000_0000 * p,
            points >= 2,
            p > 0,
    {
        assert((high * p) * d == ((72000 * 0x10_0000_0000 + 1) * (points * p)) * o);
        assert(72000 * points * o == (72000 * 0x10_0000_0000) * (points * p));
        assert(w >= (72000 * 0x10_0000_0000 + 1) * (points * p));
        assert(w * o >= ((72000 * 0x10_0000_0000 + 1) * (points * p)) * o);
        assert(points * o > 0);
    }
    lemma_rounded_monotone(high * p, 1, n, d);
    assert(72000 * o < high * p) by (nonlinear_arith)
        requires
            high == 72000 * 0x10_0000_0000 + 1,
            o == 0x10_0000_0000 * p,
            p > 0,
    ;
}

/// A time beyond some whole seconds by `extra` nanoseconds or more stays beyond them.
proof fn lemma_seconds_above(nanos: nat, k: nat, extra: nat)
    requires
        k <= 7_200_000,
        2 <= extra <= 99,
        nanos >= k * 1_000_000_000 + extra,
    ensures
        seconds_units(nanos) >= k * one() + extra * pow2(1038),
{
    let s: nat = 1_000_000_000;
    let o = one();
    let q = nanos / s;
    let r = nanos % s;
    let whole = rounded(q * o, 1);
    let part = rounded((r * o) * o, s * o);
    let (p, g) = (pow2(1038), pow2(1044));
    lemma_pow2_pos(1074);
    lemma_pow2_pos(1038);
    lemma_pow2_pos(1044);
    lemma2_to64();
    lemma2_to64_rest();
    lemma_pow2_adds(36, 1038);
    lemma_pow2_adds(30, 1044);
    lemma_pow2_adds(6, 1038);
    lemma_fundamental_div_mod(nanos as int, s as int);
    assert(q >= k);
    assert(k * o * 1 <= q * o) by (nonlinear_arith)
        requires
            k <= q,
    ;
    lemma_at_least(k, q * o, 1);
    // In parts of 2^30 of a second.
    let few: nat = extra / 64 + 1;
    let target = (k * 0x4000_0000 + few) as nat;
    assert(extra * p <= few * g) by (nonlinear_arith)
        requires
            g == 64 * p,
            extra <= 64 * few,
            p > 0,
    ;
    assert(target * g == k * o + few * g) by (nonlinear_arith)
        requires
            target == k * 0x4000_0000 + few,
            o == 0x4000_0000 * g,
    ;
    assert(target < pow2(53));
    lemma_rounded_exact(target, 1044, 1);
    assert((target * g) * 1 == target * g);
    if q == k {
        assert(r >= extra);
        assert(s * o > 0 && few * g * (s * o) <= ((r * o) * o) * 1) by (nonlinear_arith)
            requires
                o == 0x4000_0000 * g,
                few <= 2,
                extra >= 2,
                r >= extra,
                extra < 64 ==> few == 1,
                s == 1_000_000_000,
                g > 0,
        {
            assert(few * s <= 0x4000_0000 * r);
            assert((few * s) * g <= (0x4000_0000 * r) * g);
            assert(r * o == (0x4000_0000 * r) * g);
            assert((few * g) * s == (few * s) * g);
            assert(((few * g) * s) * o <= (r * o) * o);
        }
        lemma_rounded_exact(few, 1044, 1);
        assert((few * g) * 1 == few * g);
        lemma_rounded_monotone(few * g, 1, (r * o) * o, s * o);
        lemma_rounded_monotone(target * g, 1, whole + part, 1);
    } else {
        assert((k + 1) * o * 1 <= q * o) by (nonlinear_arith)
            requires
                k + 1 <= q,
        ;
        lemma_at_least(k + 1, q * o, 1);
        assert(few * g <= o) by (nonlinear_arith)
            requires
                few <= 2,
                o == 0x4000_0000 * g,
                g > 0,
        ;
        assert((k + 1) * o == k * o + o) by (nonlinear_arith);
        lemma_rounded_monotone(target * g, 1, whole + part, 1);
    }
}

/// The first rise of the percentage in an observation begins a measurement and teaches nothing.
pub proof fn law_the_first_rise_is_the_anchor(
    before: ChargingMemory,
    after: ChargingMemory,
    record: Option<LearnedRate>,
    capacity: i32,
    now: u128,
    wall: i128,
    max_gap: u128,
    session: ChargingSession,
)
    requires
        observed(before, after, record, capacity, now, wall, max_gap),
        before.session == Some(session),
        session.anchor is None,
        follows(session, capacity, now, wall, max_gap),
    ensures
        unchanged(before, after, record),
        after.session == Some(
            ChargingSession {
                capacity,
                last_sample: now,
                last_wall: wall,
                anchor: if capacity > session.capacity {
                    Some(Anchor { capacity, reached: now })
                } else {
                    None
                },
            },
        ),
{
}

/// A measurement goes on while the percentage rests, until it has risen by two points, and until
/// a minute has passed.
pub proof fn law_a_measurement_goes_on(
    before: ChargingMemory,
    after: ChargingMemory,
    record: Option<LearnedRate>,
    capacity: i32,
    now: u128,
    wall: i128,
    max_gap: u128,
    session: ChargingSession,
    anchor: Anchor,
)
    requires
        observed(before, after, record, capacity, now, wall, max_gap),
        before.session == Some(session),
        session.anchor == Some(anchor),
        follows(session, capacity, now, wall, max_gap),
        capacity == session.capacity || capacity - anchor.capacity < 2 || elapsed(
            anchor.reached,
            now,
        ) < 60_000_000_000,
    ensures
        unchanged(before, after, record),
        after.session == Some(
            ChargingSession {
                capacity,
                last_sample: now,
                last_wall: wall,
                anchor: Some(anchor),
            },
        ),
{
    law_seconds_reach_whole_numbers(elapsed(anchor.reached, now) as nat, 60);
}

/// A sample that does not follow the last one begins the observation anew, without a measurement,
/// and keeps the rate.
pub proof fn law_an_interruption_begins_anew(
    before: ChargingMemory,
    after: ChargingMemory,
    record: Option<LearnedRate>,
    capacity: i32,
    now: u128,
    wall: i128,
    max_gap: u128,
)
    requires
        observed(before, after, record, capacity, now, wall, max_gap),
        before.session is None || !follows(before.session->Some_0, capacity, now, wall, max_gap),
    ensures
        unchanged(before, after, record),
        after.session == Some(
            ChargingSession { capacity, last_sample: now, last_wall: wall, anchor: None },
        ),
{
}

} // verus!
