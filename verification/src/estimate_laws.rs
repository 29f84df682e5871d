//! What a charging estimate is, said of times, rates and percentages alone.

use vstd::arithmetic::div_mod::*;
use vstd::arithmetic::power2::*;
use vstd::prelude::*;

use crate::charging::lemma_ceiling_bounds;
use crate::charging::observed;
use crate::charging::updated;
use crate::charging::usable;
use crate::charging::ChargeEstimate;
use crate::charging::ChargeSource;
use crate::charging::ChargingMemory;
use crate::charging::LearnedRate;
use crate::charging_laws::law_first_estimate;
use crate::magnitude::ceiling_of;
use crate::magnitude::lemma_at_least;
use crate::magnitude::one;
use crate::magnitude::Magnitude;
use crate::number::Number;
use crate::rounding::lemma_rounded_integer_error;
use crate::rounding::rounded;

verus! {

/// The battery charges on mains power and is not full.
pub open spec fn charges(capacity: i32, status: i32, ac_online: i32) -> bool {
    status == 1 && ac_online == 1 && 0 <= capacity < 100
}

/// No charging data of the UPS that can be used: none, no finite number greater than zero, or
/// none that the UPS reported.
pub open spec fn no_data(ups_estimate: Option<(Number, ChargeSource)>) -> bool {
    match ups_estimate {
        Some((Number::Finite { negative: false, magnitude }, source)) => magnitude.units() == 0
            || source is Learned || source is Fallback,
        _ => true,
    }
}

/// While the battery does not charge, on mains power and below its full charge, there is no
/// estimate, nothing is learned or written, and the observation ends.
pub proof fn law_no_estimate_unless_charging(
    before: ChargingMemory,
    after: ChargingMemory,
    result: (ChargeEstimate, Option<LearnedRate>),
    capacity: i32,
    status: i32,
    ac_online: i32,
    ups_estimate: Option<(Number, ChargeSource)>,
    checked_at: i128,
    now: u128,
    wall: i128,
    max_gap: u128,
    full: u64,
)
    requires
        updated(
            before,
            after,
            result,
            capacity,
            status,
            ac_online,
            ups_estimate,
            checked_at,
            now,
            wall,
            max_gap,
            full,
        ),
        !charges(capacity, status, ac_online),
    ensures
        result.0.seconds == 0,
        result.0.source is None,
        result.1 is None,
        after.learned == before.learned,
        after.session is None,
        after.last_persist_attempt == before.last_persist_attempt,
{
}

/// While the battery charges, the sample is observed; a learned rate that is older than thirty
/// days, or that was learned in the future, is forgotten before.
pub proof fn law_updates_observe(
    before: ChargingMemory,
    after: ChargingMemory,
    result: (ChargeEstimate, Option<LearnedRate>),
    capacity: i32,
    status: i32,
    ac_online: i32,
    ups_estimate: Option<(Number, ChargeSource)>,
    checked_at: i128,
    now: u128,
    wall: i128,
    max_gap: u128,
    full: u64,
)
    requires
        updated(
            before,
            after,
            result,
            capacity,
            status,
            ac_online,
            ups_estimate,
            checked_at,
            now,
            wall,
            max_gap,
            full,
        ),
        charges(capacity, status, ac_online),
    ensures
        ({
            let keeps = before.learned matches Some(learned) && 0 <= checked_at
                - learned.learned_at <= 2_592_000_000_000_000;
            observed(
                ChargingMemory {
                    learned: if keeps {
                        before.learned
                    } else {
                        None
                    },
                    session: before.session,
                    last_persist_attempt: before.last_persist_attempt,
                },
                after,
                result.1,
                capacity,
                now,
                wall,
                max_gap,
            )
        }),
{
}

/// A time that the UPS reports is shown, in whole seconds, rounded up, between twelve seconds for
/// each missing point and twenty hours.
pub proof fn law_reported_time_is_shown(
    before: ChargingMemory,
    after: ChargingMemory,
    result: (ChargeEstimate, Option<LearnedRate>),
    capacity: i32,
    status: i32,
    ac_online: i32,
    seconds: Magnitude,
    source: ChargeSource,
    checked_at: i128,
    now: u128,
    wall: i128,
    max_gap: u128,
    full: u64,
)
    requires
        updated(
            before,
            after,
            result,
            capacity,
            status,
            ac_online,
            Some((Number::Finite { negative: false, magnitude: seconds }, source)),
            checked_at,
            now,
            wall,
            max_gap,
            full,
        ),
        charges(capacity, status, ac_online),
        seconds.units() > 0,
        source is UpsTime || source is UpsCurrent,
    ensures
        result.0.source == Some(source),
        ({
            let least = 12 * (100 - capacity);
            let shown = result.0.seconds;
            &&& seconds.units() <= least * one() ==> shown == least
            &&& seconds.units() >= 72000 * one() ==> shown == 72000
            &&& least * one() <= seconds.units() <= 72000 * one() ==> (shown - 1) * one()
                < seconds.units() <= shown * one()
        }),
{
    let least = (12 * (100 - capacity)) as nat;
    let u = seconds.units();
    let o = one();
    lemma_pow2_pos(1074);
    assert(least * o < 72000 * o) by (nonlinear_arith)
        requires
            least <= 1200,
            o > 0,
    ;
    assert(least * o > 0) by (nonlinear_arith)
        requires
            least >= 12,
            o > 0,
    ;
    if u <= least * o {
        lemma_ceiling_bounds(least * o, least, least);
        lemma_ceiling_brackets(least * o);
    } else if u >= 72000 * o {
        lemma_ceiling_bounds(72000 * o, 72000, 72000);
        lemma_ceiling_brackets(72000 * o);
    } else {
        lemma_ceiling_bounds(u, least, 72000);
        lemma_ceiling_brackets(u);
    }
}

/// What is rounded up lies less than one below.
proof fn lemma_ceiling_brackets(u: nat)
    requires
        u > 0,
    ensures
        u <= ceiling_of(u) * one(),
        (ceiling_of(u) - 1) * one() < u,
{
    let o = one() as int;
    lemma_pow2_pos(1074);
    let x = u + o - 1;
    lemma_fundamental_div_mod(x, o);
    let c = x / o;
    assert(c * o == o * c && (c - 1) * o == o * c - o) by (nonlinear_arith);
}

/// Without charging data of the UPS, the learned rate counts: the missing points times the rate,
/// rounded up, within a millionth of a second, and no longer than twenty hours.
pub proof fn law_learned_rate_is_shown(
    before: ChargingMemory,
    after: ChargingMemory,
    result: (ChargeEstimate, Option<LearnedRate>),
    capacity: i32,
    status: i32,
    ac_online: i32,
    ups_estimate: Option<(Number, ChargeSource)>,
    checked_at: i128,
    now: u128,
    wall: i128,
    max_gap: u128,
    full: u64,
)
    requires
        updated(
            before,
            after,
            result,
            capacity,
            status,
            ac_online,
            ups_estimate,
            checked_at,
            now,
            wall,
            max_gap,
            full,
        ),
        charges(capacity, status, ac_online),
        no_data(ups_estimate),
        after.learned is Some,
        12 * one() <= after.learned->Some_0.rate.units() <= 72000 * one(),
    ensures
        result.0.source == Some(ChargeSource::Learned),
        ({
            let exact = (100 - capacity) * after.learned->Some_0.rate.units();
            let shown = result.0.seconds;
            &&& exact >= 72000 * one() ==> shown == 72000
            &&& exact <= 72000 * one() ==> 0x10_0000 * ((shown - 1) * one() - exact) < one()
                && 0x10_0000 * (exact - shown * one()) < one()
        }),
{
    let o = one();
    let p = (100 - capacity) as nat;
    let r = after.learned->Some_0.rate.units();
    let exact = p * r;
    let x = rounded((p * o) * r, o);
    lemma_pow2_pos(1074);
    lemma_pow2_big();
    assert(usable(ups_estimate) is None);
    assert((p * o) * r == exact * o) by (nonlinear_arith)
        requires
            exact == p * r,
    ;
    assert((100 - capacity) * r == exact);
    lemma_rounded_integer_error(exact, o);
    assert(x * 1 == x);
    let least = 12 * p;
    assert(least * o <= exact && least * o <= 72000 * o) by (nonlinear_arith)
        requires
            least == 12 * p,
            exact == p * r,
            12 * o <= r,
            p <= 100,
            o > 0,
    ;
    assert(least * o * o <= exact * o) by (nonlinear_arith)
        requires
            least * o <= exact,
            o > 0,
    ;
    lemma_at_least(least, exact * o, o);
    if exact >= 72000 * o {
        assert(72000 * o * o <= exact * o) by (nonlinear_arith)
            requires
                72000 * o <= exact,
                o > 0,
        ;
        lemma_at_least(72000, exact * o, o);
        lemma_ceiling_bounds(72000 * o, 72000, 72000);
    }
    if exact <= 72000 * o {
        if x > 72000 * o {
            lemma_ceiling_bounds(72000 * o, 72000, 72000);
            lemma_ceiling_brackets(72000 * o);
        } else {
            lemma_ceiling_bounds(x, least, 72000);
            assert(x > 0) by (nonlinear_arith)
                requires
                    x >= least * o,
                    least >= 12,
                    o > 0,
            ;
            lemma_ceiling_brackets(x);
        }
    }
}

proof fn lemma_pow2_big()
    ensures
        one() >= 0x20_0000_0000_0000,
{
    lemma2_to64();
    lemma2_to64_rest();
    lemma_pow2_strictly_increases(53, 1074);
}

/// Without charging data of the UPS and without a learned rate, the configured duration counts:
/// its share for the missing points, rounded up to a second.
pub proof fn law_configured_duration_is_shown(
    before: ChargingMemory,
    after: ChargingMemory,
    result: (ChargeEstimate, Option<LearnedRate>),
    capacity: i32,
    status: i32,
    ac_online: i32,
    ups_estimate: Option<(Number, ChargeSource)>,
    checked_at: i128,
    now: u128,
    wall: i128,
    max_gap: u128,
    full: u64,
)
    requires
        updated(
            before,
            after,
            result,
            capacity,
            status,
            ac_online,
            ups_estimate,
            checked_at,
            now,
            wall,
            max_gap,
            full,
        ),
        charges(capacity, status, ac_online),
        no_data(ups_estimate),
        after.learned is None,
        1200 <= full <= 72000,
    ensures
        result.0.source == Some(ChargeSource::Fallback),
        100 * (result.0.seconds - 1) < (100 - capacity) * full <= 100 * result.0.seconds,
{
    assert(usable(ups_estimate) is None);
    law_first_estimate(ups_estimate, full, capacity);
}

} // verus!
