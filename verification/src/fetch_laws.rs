//! What the variables of a UPS come to, said of their values alone.

use vstd::arithmetic::div_mod::*;
use vstd::arithmetic::power2::*;
use vstd::prelude::*;

use crate::charging::ChargeSource;
use crate::failure::Problem;
use crate::magnitude::lemma_at_least;
use crate::magnitude::lemma_at_most;
use crate::magnitude::lemma_finite;
use crate::magnitude::lemma_finite_units;
use crate::magnitude::lemma_rounded_is_value;
use crate::magnitude::nearest_integer;
use crate::magnitude::one;
use crate::magnitude::overflow;
use crate::magnitude::Magnitude;
use crate::number::integer_within;
use crate::number::Number;
use crate::observation_laws::apart;
use crate::protocol::status_meaning;
use crate::rounding::distance;
use crate::rounding::lemma_pow2_monotone;
use crate::rounding::lemma_rounded_error;
use crate::rounding::lemma_rounded_exact;
use crate::rounding::lemma_rounded_integer_error;
use crate::rounding::lemma_rounded_monotone;
use crate::rounding::rounded;
use crate::snapshot::current_estimate;
use crate::snapshot::lemma_value_of;
use crate::snapshot::scaled_integer;
use crate::snapshot::step_after;
use crate::snapshot::value_of;
use crate::snapshot::FetchStage;
use crate::snapshot::FetchStep;
use crate::snapshot::Readings;
use crate::snapshot::Snapshot;

verus! {

/// What was read of a UPS that charges, and the reply to its battery current.
pub open spec fn after_current(
    readings: Readings,
    amp_hours: Magnitude,
    text: Seq<char>,
    negative: bool,
    current: Magnitude,
    last_snapshot: Option<Snapshot>,
    has_time_to_full_var: bool,
) -> Result<FetchStep, Problem> {
    step_after(
        FetchStage::Current { readings, amp_hours },
        Some((text, Some(Number::Finite { negative, magnitude: current }))),
        last_snapshot,
        has_time_to_full_var,
    )
}

/// Three roundings of products and one of a quotient.
proof fn lemma_quotient_error(
    x: nat,
    exact_product: nat,
    first: nat,
    product: nat,
    divisor: nat,
    exact_divisor: nat,
    seconds: nat,
    o: nat,
    points: nat,
)
    requires
        o > 0,
        divisor > 0,
        0x20_0000_0000_0000 * distance(first, x, 1) <= x,
        exact_product == x * points,
        0x20_0000_0000_0000 * distance(product, first * points, 1) <= first * points,
        0x20_0000_0000_0000 * distance(divisor, exact_divisor, 1) <= exact_divisor,
        0x20_0000_0000_0000 * distance(seconds, product * o, divisor) <= product * o
            + 0x10_0000_0000_0000 * divisor,
    ensures
        0x2_0000_0000_0000 * apart(
            (seconds * exact_divisor) as int,
            (exact_product * o) as int,
        ) <= exact_product * o + 0x2_0000_0000_0000 * exact_divisor,
        3 * exact_product <= 4 * product,
        product <= 2 * exact_product,
        first <= 2 * x,
        3 * exact_divisor <= 4 * divisor,
        3 * divisor <= 4 * exact_divisor,
{
    let e = 0x20_0000_0000_0000int;
    let f = first * points;
    let xo = exact_product * o;
    let po = product * o;
    assert(first * 1 == first && product * 1 == product && divisor * 1 == divisor);
    // The product.
    assert(e * apart(f as int, exact_product as int) <= exact_product) by (nonlinear_arith)
        requires
            f == first * points,
            exact_product == x * points,
            e * apart(first as int, x as int) <= x,
            apart(first as int, x as int) == (if first <= x {
                x - first
            } else {
                first - x
            }),
            apart(f as int, exact_product as int) == (if f <= exact_product {
                exact_product - f
            } else {
                f - exact_product
            }),
            e > 0,
            points >= 0,
    {
        let g = apart(first as int, x as int);
        assert((e * g) * points <= x * points);
        assert((e * g) * points == e * (g * points));
        if first <= x {
            assert(g * points == x * points - first * points);
        } else {
            assert(g * points == first * points - x * points);
        }
    }
    let gp = apart(product as int, exact_product as int);
    assert(e * gp <= 3 * exact_product);
    assert(e * (gp * o) <= 3 * xo) by (nonlinear_arith)
        requires
            e * gp <= 3 * exact_product,
            xo == exact_product * o,
            o > 0,
    ;
    assert(apart(po as int, xo as int) == gp * o) by (nonlinear_arith)
        requires
            po == product * o,
            xo == exact_product * o,
            gp == (if product <= exact_product {
                exact_product - product
            } else {
                product - exact_product
            }),
            apart(po as int, xo as int) == (if po <= xo {
                xo - po
            } else {
                po - xo
            }),
            o > 0,
    {
        if product <= exact_product {
            assert(product * o <= exact_product * o);
            assert((exact_product - product) * o == xo - po);
        } else {
            assert(exact_product * o <= product * o);
            assert((product - exact_product) * o == po - xo);
        }
    }
    // The quotient.
    let sd = seconds * divisor;
    assert(e * apart(sd as int, po as int) <= po + 0x10_0000_0000_0000 * divisor);
    assert(e * apart(sd as int, xo as int) <= 5 * xo + 0x10_0000_0000_0000 * divisor);
    // The divisor.
    let gd = apart(divisor as int, exact_divisor as int);
    let se = seconds * exact_divisor;
    assert(apart(se as int, sd as int) == seconds * gd) by (nonlinear_arith)
        requires
            se == seconds * exact_divisor,
            sd == seconds * divisor,
            gd == (if divisor <= exact_divisor {
                exact_divisor - divisor
            } else {
                divisor - exact_divisor
            }),
            apart(se as int, sd as int) == (if se <= sd {
                sd - se
            } else {
                se - sd
            }),
            seconds >= 0,
    {
        if divisor <= exact_divisor {
            assert(seconds * (exact_divisor - divisor) == se - sd);
            assert(seconds * divisor <= seconds * exact_divisor);
        } else {
            assert(seconds * (divisor - exact_divisor) == sd - se);
            assert(seconds * exact_divisor <= seconds * divisor);
        }
    }
    assert(e * (seconds * gd) <= se) by (nonlinear_arith)
        requires
            e * gd <= exact_divisor,
            se == seconds * exact_divisor,
            seconds >= 0,
    {
        assert(seconds * (e * gd) <= seconds * exact_divisor);
        assert(seconds * (e * gd) == e * (seconds * gd));
    }
    let total = apart(se as int, xo as int);
    assert(total <= apart(se as int, sd as int) + apart(sd as int, xo as int));
    assert(e * total <= 9 * xo + e * exact_divisor);
}

/// The charging time from the battery current: the seconds, times a hundred and times the current,
/// are 3600 times the capacity in ampere hours, times the missing percentage, whatever the sign of
/// the current, up to one part in 2^49 and up to the smallest value. It is found wherever neither
/// value is extreme and the time is neither below twice the smallest value nor extremely long.
pub proof fn law_time_from_current(
    readings: Readings,
    amp_hours: Magnitude,
    text: Seq<char>,
    negative: bool,
    current: Magnitude,
    last_snapshot: Option<Snapshot>,
    has_time_to_full_var: bool,
)
    requires
        (FetchStage::Current { readings, amp_hours }).wf(),
        current.wf(),
        current.units() > 0,
    ensures
        ({
            let charge = (3600 * amp_hours.units() * (100 - readings.capacity)) * one();
            let draw = (100 * current.units()) as int;
            match after_current(
                readings,
                amp_hours,
                text,
                negative,
                current,
                last_snapshot,
                has_time_to_full_var,
            ) {
                Ok(FetchStep::Done { readings: found, ups_estimate: Some((seconds, source)) }) => {
                    &&& found == readings
                    &&& source == ChargeSource::UpsCurrent
                    &&& seconds.units() > 0
                    &&& 0x2_0000_0000_0000 * apart(seconds.units() * draw, charge) <= charge
                        + 0x2_0000_0000_0000 * draw
                },
                Ok(FetchStep::Done { readings: found, ups_estimate: None }) => {
                    &&& found == readings
                    &&& amp_hours.units() >= pow2(2070) || current.units() >= pow2(2070) || charge
                        < 2 * draw || charge > draw * pow2(2090)
                },
                _ => false,
            }
        }),
{
    let o = one();
    let a = amp_hours.units();
    let c = current.units();
    let p = (100 - readings.capacity) as nat;
    lemma_pow2_pos(1074);
    let first = rounded((3600 * o) * a, o);
    let product = rounded(first * (p * o), o);
    let divisor = rounded((100 * o) * c, o);
    let seconds = rounded(product * o, divisor);
    let x = 3600 * a;
    assert((3600 * o) * a == x * o && first * (p * o) == (first * p) * o && (100 * o) * c == (100
        * c) * o) by (nonlinear_arith)
        requires
            x == 3600 * a,
    ;
    lemma_rounded_integer_error(x, o);
    lemma_rounded_integer_error(first * p, o);
    lemma_rounded_integer_error(100 * c, o);
    assert(divisor * 1 == divisor);
    assert(divisor > 0);
    lemma_rounded_error(product * o, divisor);
    let xp = x * p;
    lemma_quotient_error(x, xp, first, product, divisor, 100 * c, seconds, o, p);
    let charge = xp * o;
    let draw = 100 * c;
    assert((3600 * a * (100 - readings.capacity)) * o == charge) by (nonlinear_arith)
        requires
            charge == xp * o,
            xp == x * p,
            x == 3600 * a,
            p == 100 - readings.capacity,
    ;
    let found = current_estimate(a, c, readings.capacity);
    if a < pow2(2070) && c < pow2(2070) && 2 * draw <= charge && charge <= draw * pow2(2090) {
        lemma_ordinary_estimate(a, c, p, first, product, divisor, seconds);
    }
    if let Some(units) = found {
        lemma_has_value(product * o, divisor);
    }
}

/// Where the estimate from the current is owed.
proof fn lemma_ordinary_estimate(
    a: nat,
    c: nat,
    p: nat,
    first: nat,
    product: nat,
    divisor: nat,
    seconds: nat,
)
    requires
        p <= 100,
        a < pow2(2070),
        0 < c < pow2(2070),
        2 * (100 * c) <= (3600 * a * p) * one(),
        (3600 * a * p) * one() <= (100 * c) * pow2(2090),
        first <= 2 * (3600 * a),
        product <= 2 * (3600 * a * p),
        3 * (3600 * a * p) <= 4 * product,
        3 * (100 * c) <= 4 * divisor,
        3 * divisor <= 4 * (100 * c),
        seconds == rounded(product * one(), divisor),
    ensures
        first < overflow(),
        product < overflow(),
        divisor < overflow(),
        0 < seconds < overflow(),
{
    let o = one();
    let g = pow2(2070);
    lemma2_to64();
    lemma2_to64_rest();
    lemma_pow2_pos(1074);
    lemma_pow2_pos(2090);
    lemma_pow2_adds(28, 2070);
    lemma_pow2_adds(3, 2090);
    lemma_pow2_monotone(2093, 2098);
    let x = 3600 * a * p;
    assert(x <= 360000 * a) by (nonlinear_arith)
        requires
            x == 3600 * a * p,
            p <= 100,
    ;
    assert(first < overflow() && product < overflow() && divisor < overflow());
    // At least one unit.
    let n = product * o;
    assert(divisor <= n) by (nonlinear_arith)
        requires
            n == product * o,
            3 * x <= 4 * product,
            2 * (100 * c) <= x * o,
            3 * divisor <= 4 * (100 * c),
            o > 0,
    {
        assert(3 * (x * o) <= 4 * (product * o));
    }
    assert((1 * pow2(0)) * 1 == 1);
    lemma_rounded_exact(1, 0, 1);
    lemma_rounded_monotone(1, 1, n, divisor);
    // And finite.
    let h = pow2(2090);
    assert(n * 1 <= (8 * h) * divisor) by (nonlinear_arith)
        requires
            n == product * o,
            product <= 2 * x,
            x * o <= (100 * c) * h,
            3 * (100 * c) <= 4 * divisor,
            h > 0,
            o > 0,
    {
        assert(product * o <= 2 * (x * o));
        assert((100 * c) * h <= (2 * divisor) * h);
        assert((2 * divisor) * h == 2 * (h * divisor));
        assert((8 * h) * divisor == 8 * (h * divisor));
        assert(h * divisor >= 0);
    }
    lemma_rounded_exact(1, 2093, 1);
    assert((1 * pow2(2093)) * 1 == pow2(2093));
    lemma_rounded_monotone(n, divisor, pow2(2093), 1);
    lemma_pow2_strictly_increases(2093, 2098);
}

/// A rounded finite quotient is a value.
proof fn lemma_has_value(n: nat, d: nat)
    requires
        d > 0,
        rounded(n, d) < overflow(),
    ensures
        value_of(rounded(n, d)).units() == rounded(n, d),
        value_of(rounded(n, d)).wf(),
{
    let value = lemma_rounded_is_value(n, d);
    lemma_value_of(value);
}

/// The seconds of an estimate that the battery current gave; zero without one.
pub open spec fn estimated(step: Result<FetchStep, Problem>) -> nat {
    match step {
        Ok(FetchStep::Done { ups_estimate: Some((seconds, _)), .. }) => seconds.units(),
        _ => 0,
    }
}

/// With the same battery and the same current, a fuller battery does not take longer.
pub proof fn law_time_falls_with_capacity(
    readings: Readings,
    fuller: Readings,
    amp_hours: Magnitude,
    text: Seq<char>,
    negative: bool,
    current: Magnitude,
    last_snapshot: Option<Snapshot>,
    has_time_to_full_var: bool,
)
    requires
        (FetchStage::Current { readings, amp_hours }).wf(),
        (FetchStage::Current { readings: fuller, amp_hours }).wf(),
        readings.capacity <= fuller.capacity,
        current.wf(),
        current.units() > 0,
        estimated(
            after_current(
                readings,
                amp_hours,
                text,
                negative,
                current,
                last_snapshot,
                has_time_to_full_var,
            ),
        ) > 0,
    ensures
        estimated(
            after_current(
                fuller,
                amp_hours,
                text,
                negative,
                current,
                last_snapshot,
                has_time_to_full_var,
            ),
        ) <= estimated(
            after_current(
                readings,
                amp_hours,
                text,
                negative,
                current,
                last_snapshot,
                has_time_to_full_var,
            ),
        ),
{
    let o = one();
    let a = amp_hours.units();
    let c = current.units();
    lemma_pow2_pos(1074);
    let first = rounded((3600 * o) * a, o);
    let divisor = rounded((100 * o) * c, o);
    let (p, q) = ((100 - readings.capacity) as nat, (100 - fuller.capacity) as nat);
    let (x, y) = (rounded(first * (p * o), o), rounded(first * (q * o), o));
    assert((100 * o) * c == (100 * c) * o) by (nonlinear_arith);
    lemma_rounded_integer_error(100 * c, o);
    assert(divisor * 1 == divisor && divisor > 0);
    assert((first * (q * o)) * o <= (first * (p * o)) * o) by (nonlinear_arith)
        requires
            q <= p,
            o > 0,
    {
        assert(q * o <= p * o);
        assert(first * (q * o) <= first * (p * o));
    }
    lemma_rounded_monotone(first * (q * o), o, first * (p * o), o);
    assert((y * o) * divisor <= (x * o) * divisor) by (nonlinear_arith)
        requires
            y <= x,
            o > 0,
            divisor > 0,
    {
        assert(y * o <= x * o);
    }
    lemma_rounded_monotone(y * o, divisor, x * o, divisor);
    if let Some(units) = current_estimate(a, c, readings.capacity) {
        lemma_has_value(x * o, divisor);
    }
    if let Some(units) = current_estimate(a, c, fuller.capacity) {
        lemma_has_value(y * o, divisor);
    }
}

/// A current that is missing, not a number, infinite or zero gives no charging time, and does not
/// stop the snapshot.
pub proof fn law_no_current_no_time(
    readings: Readings,
    amp_hours: Magnitude,
    reply: Option<(Seq<char>, Option<Number>)>,
    last_snapshot: Option<Snapshot>,
    has_time_to_full_var: bool,
)
    requires
        reply matches Some((_, Some(Number::Finite { magnitude, .. }))) ==> magnitude.units() == 0,
    ensures
        step_after(
            FetchStage::Current { readings, amp_hours },
            reply,
            last_snapshot,
            has_time_to_full_var,
        ) == Ok::<FetchStep, Problem>(FetchStep::Done { readings, ups_estimate: None }),
{
}

/// A reply that is a finite number greater than zero.
pub open spec fn positive_reply(
    reply: Option<(Seq<char>, Option<Number>)>,
    value: Magnitude,
) -> bool {
    &&& reply matches Some((_, Some(Number::Finite { negative: false, magnitude }))) && magnitude
        == value
    &&& value.units() > 0
}

/// A charging time that the UPS reports, greater than zero, is taken as it is, and nothing more
/// is asked for; without one the capacity is asked for.
pub proof fn law_reported_time_is_taken(
    readings: Readings,
    reply: Option<(Seq<char>, Option<Number>)>,
    last_snapshot: Option<Snapshot>,
    has_time_to_full_var: bool,
    seconds: Magnitude,
)
    ensures
        positive_reply(reply, seconds) ==> step_after(
            FetchStage::TimeToFull { readings },
            reply,
            last_snapshot,
            has_time_to_full_var,
        ) == Ok::<FetchStep, Problem>(
            FetchStep::Done { readings, ups_estimate: Some((seconds, ChargeSource::UpsTime)) },
        ),
        (forall|value: Magnitude| !positive_reply(reply, value)) ==> step_after(
            FetchStage::TimeToFull { readings },
            reply,
            last_snapshot,
            has_time_to_full_var,
        ) == Ok::<FetchStep, Problem>(FetchStep::Ask { stage: FetchStage::AmpHours { readings } }),
        positive_reply(reply, seconds) ==> step_after(
            FetchStage::AmpHours { readings },
            reply,
            last_snapshot,
            has_time_to_full_var,
        ) == Ok::<FetchStep, Problem>(
            FetchStep::Ask { stage: FetchStage::Current { readings, amp_hours: seconds } },
        ),
        (forall|value: Magnitude| !positive_reply(reply, value)) ==> step_after(
            FetchStage::AmpHours { readings },
            reply,
            last_snapshot,
            has_time_to_full_var,
        ) == Ok::<FetchStep, Problem>(FetchStep::Done { readings, ups_estimate: None }),
{
    match reply {
        Some((_, Some(Number::Finite { negative: false, magnitude }))) => {
            assert(magnitude.units() > 0 ==> positive_reply(reply, magnitude));
        },
        _ => {},
    }
}

/// The nearest integer to a value that is not negative, a half going up.
pub open spec fn is_integer_of(integer: int, units: nat) -> bool {
    &&& 2 * (integer * one() - units) <= one()
    &&& 2 * (units - integer * one()) < one()
}

/// Scaling by one changes nothing.
proof fn lemma_unscaled(value: Magnitude)
    requires
        value.wf(),
    ensures
        rounded(value.units() * (1 * one()), one()) == value.units(),
{
    lemma_pow2_pos(1074);
    lemma2_to64();
    lemma2_to64_rest();
    lemma_rounded_exact(value.mantissa as nat, value.exponent as nat, one());
    assert(1 * one() == one());
}

proof fn lemma_nearest(units: nat)
    ensures
        is_integer_of(nearest_integer(units) as int, units),
{
    let o = one();
    let n = 2 * units + o;
    let d = 2 * o;
    lemma_pow2_pos(1074);
    lemma_fundamental_div_mod(n as int, d as int);
    let q = n / d;
    assert(d * q == 2 * (q * o)) by (nonlinear_arith)
        requires
            d == 2 * o,
    ;
}

/// What is read as a percentage or as a time: the nearest integer, for a number within the
/// limits; anything else is refused as invalid data.
pub open spec fn reads_integer(
    number: Option<Number>,
    maximum: int,
    found: Result<i32, Problem>,
) -> bool {
    match number {
        Some(Number::Finite { negative, magnitude }) => if magnitude.units() == 0 || (!negative
            && magnitude.units() <= maximum * one()) {
            found matches Ok(integer) && 0 <= integer <= maximum && is_integer_of(
                integer as int,
                magnitude.units(),
            )
        } else {
            found matches Err(problem) && problem.kind is InvalidData
        },
        _ => found matches Err(problem) && problem.kind is InvalidData,
    }
}

/// The charge is required; it is a percentage, rounded to an integer. A value outside of 0 to 100
/// stops the snapshot.
pub proof fn law_charge_is_a_percentage(
    reply: Option<(Seq<char>, Option<Number>)>,
    last_snapshot: Option<Snapshot>,
    has_time_to_full_var: bool,
)
    requires
        reply matches Some((_, Some(number))) ==> number.wf(),
    ensures
        ({
            let step = step_after(FetchStage::Charge, reply, last_snapshot, has_time_to_full_var);
            match reply {
                Some((_, number)) => match step {
                    Ok(FetchStep::Ask { stage: FetchStage::Runtime { capacity } }) => reads_integer(
                        number,
                        100,
                        Ok(capacity),
                    ),
                    Err(problem) => reads_integer(number, 100, Err(problem)),
                    _ => false,
                },
                None => step matches Err(problem) && problem.kind is InvalidData,
            }
        }),
{
    if let Some((_, Some(Number::Finite { negative, magnitude }))) = reply {
        lemma_reads(negative, magnitude, 100);
    }
}

proof fn lemma_reads(negative: bool, magnitude: Magnitude, maximum: i32)
    requires
        magnitude.wf(),
        maximum >= 0,
    ensures
        ({
            let units = rounded(magnitude.units() * (1 * one()), one());
            let within = magnitude.units() == 0 || (!negative && magnitude.units() <= maximum
                * one());
            let found = integer_within(negative, units, 0, maximum);
            &&& units == magnitude.units()
            &&& units < overflow()
            &&& within == (found is Some)
            &&& within ==> 0 <= found->Some_0 <= maximum && is_integer_of(
                found->Some_0,
                magnitude.units(),
            )
        }),
{
    let u = magnitude.units();
    let o = one();
    let m = maximum as int;
    lemma_pow2_pos(1074);
    lemma_unscaled(magnitude);
    lemma_nearest(u);
    lemma_finite_units(magnitude);
    assert(0 * o == 0 && m * o >= 0) by (nonlinear_arith)
        requires
            m >= 0,
            o > 0,
    ;
    let i = nearest_integer(u) as int;
    if u <= m * o {
        assert(i <= m) by (nonlinear_arith)
            requires
                2 * (i * o - u) <= o,
                u <= m * o,
                o > 0,
        ;
    }
    if u == 0 {
        assert(i == 0) by (nonlinear_arith)
            requires
                2 * (i * o - u) <= o,
                u == 0,
                i >= 0,
                o > 0,
        ;
    }
}

/// The runtime is optional; where it is there, it is a time in seconds, rounded to an integer.
pub proof fn law_runtime_is_in_seconds(
    capacity: i32,
    text: Seq<char>,
    number: Option<Number>,
    last_snapshot: Option<Snapshot>,
    has_time_to_full_var: bool,
)
    requires
        number matches Some(n) ==> n.wf(),
    ensures
        match step_after(
            FetchStage::Runtime { capacity },
            Some((text, number)),
            last_snapshot,
            has_time_to_full_var,
        ) {
            Ok(
                FetchStep::Ask {
                    stage: FetchStage::Voltage { capacity: kept, time_to_empty_seconds },
                },
            ) => kept == capacity && reads_integer(number, 0x7fff_ffff, Ok(time_to_empty_seconds)),
            Err(problem) => reads_integer(number, 0x7fff_ffff, Err(problem)),
            _ => false,
        },
{
    if let Some(Number::Finite { negative, magnitude }) = number {
        lemma_reads(negative, magnitude, i32::MAX);
    }
}

/// The voltage is optional; where it is there, it is a number of volts, kept in microvolts: a
/// million times the number, rounded to an integer, within a millionth more.
pub proof fn law_voltage_is_in_microvolts(
    capacity: i32,
    time_to_empty_seconds: i32,
    text: Seq<char>,
    negative: bool,
    volts: Magnitude,
    last_snapshot: Option<Snapshot>,
    has_time_to_full_var: bool,
)
    requires
        volts.wf(),
    ensures
        match step_after(
            FetchStage::Voltage { capacity, time_to_empty_seconds },
            Some((text, Some(Number::Finite { negative, magnitude: volts }))),
            last_snapshot,
            has_time_to_full_var,
        ) {
            Ok(
                FetchStep::Ask {
                    stage: FetchStage::Status {
                        capacity: c,
                        time_to_empty_seconds: t,
                        voltage_now_uv,
                    },
                },
            ) => {
                &&& c == capacity
                &&& t == time_to_empty_seconds
                &&& voltage_now_uv >= 0
                &&& volts.units() == 0 || !negative
                &&& 0x20_0000 * apart(
                    voltage_now_uv * one(),
                    (1_000_000 * volts.units()) as int,
                ) <= 0x10_0001 * one()
            },
            Err(problem) => {
                &&& problem.kind is InvalidData
                &&& volts.units() > 0
                &&& negative || 1_000_000 * volts.units() > 0x7fff_ffff * one()
            },
            _ => false,
        },
{
    let o = one();
    let u = volts.units();
    let v = 1_000_000 * u;
    lemma_pow2_pos(1074);
    lemma2_to64();
    lemma2_to64_rest();
    assert(u * (1_000_000 * o) == v * o) by (nonlinear_arith)
        requires
            v == 1_000_000 * u,
    ;
    let product = rounded(v * o, o);
    lemma_rounded_integer_error(v, o);
    assert(product * 1 == product);
    lemma_nearest(product);
    assert(0 * o == 0);
    if v <= 0x7fff_ffff * o {
        assert(v * o <= 0x7fff_ffff * o * o) by (nonlinear_arith)
            requires
                v <= 0x7fff_ffff * o,
                o > 0,
        ;
        lemma_at_most(0x7fff_ffff, v * o, o);
        let i = nearest_integer(product) as int;
        assert(i <= 0x7fff_ffff) by (nonlinear_arith)
            requires
                2 * (i * o - product) <= o,
                product <= 0x7fff_ffff * o,
                o > 0,
        ;
    }
    if product <= 0x7fff_ffff * o {
        let i = nearest_integer(product) as int;
        assert(i <= 0x7fff_ffff) by (nonlinear_arith)
            requires
                2 * (i * o - product) <= o,
                product <= 0x7fff_ffff * o,
                o > 0,
        ;
    }
    if product == 0 {
        let i = nearest_integer(product) as int;
        assert(i == 0) by (nonlinear_arith)
            requires
                2 * (i * o - product) <= o,
                product == 0,
                i >= 0,
                o > 0,
        ;
    }
}

/// A voltage that is not a finite number stops the snapshot.
pub proof fn law_voltage_is_a_number(
    capacity: i32,
    time_to_empty_seconds: i32,
    text: Seq<char>,
    number: Option<Number>,
    last_snapshot: Option<Snapshot>,
    has_time_to_full_var: bool,
)
    requires
        !(number matches Some(Number::Finite { .. })),
    ensures
        step_after(
            FetchStage::Voltage { capacity, time_to_empty_seconds },
            Some((text, number)),
            last_snapshot,
            has_time_to_full_var,
        ) matches Err(problem) && problem.kind is InvalidData,
{
}

/// The status is required. The readings hold what was read and what the status says; while the
/// battery charges on mains power and is not full, its charging time is asked for, first by the
/// configured variable.
pub proof fn law_status_ends_the_readings(
    capacity: i32,
    time_to_empty_seconds: i32,
    voltage_now_uv: i32,
    reply: Option<(Seq<char>, Option<Number>)>,
    last_snapshot: Option<Snapshot>,
    has_time_to_full_var: bool,
)
    ensures
        ({
            let step = step_after(
                FetchStage::Status { capacity, time_to_empty_seconds, voltage_now_uv },
                reply,
                last_snapshot,
                has_time_to_full_var,
            );
            match reply {
                None => step matches Err(problem) && problem.kind is InvalidData,
                Some((text, _)) => match status_meaning(text, capacity) {
                    Err(message) => step matches Err(problem) && problem.kind is InvalidData,
                    Ok((status, ac_online)) => {
                        let readings = Readings {
                            capacity,
                            voltage_now_uv,
                            time_to_empty_seconds,
                            status,
                            ac_online,
                        };
                        let charging = status == 1 && ac_online == 1 && capacity < 100;
                        step == Ok::<FetchStep, Problem>(
                            if charging && has_time_to_full_var {
                                FetchStep::Ask { stage: FetchStage::TimeToFull { readings } }
                            } else if charging {
                                FetchStep::Ask { stage: FetchStage::AmpHours { readings } }
                            } else {
                                FetchStep::Done { readings, ups_estimate: None }
                            },
                        )
                    },
                },
            }
        }),
{
}

/// The variables are those of a battery: charge, runtime, voltage and current, with the status of
/// the UPS and with the configured variable for the charging time.
pub proof fn law_variables_are_named(
    capacity: i32,
    time_to_empty_seconds: i32,
    voltage_now_uv: i32,
    readings: Readings,
    amp_hours: Magnitude,
    configured: Seq<char>,
)
    ensures
        FetchStage::Charge.variable_name(configured) == "battery.charge"@,
        (FetchStage::Runtime { capacity }).variable_name(configured) == "battery.runtime"@,
        (FetchStage::Voltage { capacity, time_to_empty_seconds }).variable_name(configured)
            == "battery.voltage"@,
        (FetchStage::Status { capacity, time_to_empty_seconds, voltage_now_uv }).variable_name(
            configured,
        ) == "ups.status"@,
        (FetchStage::TimeToFull { readings }).variable_name(configured) == configured,
        (FetchStage::AmpHours { readings }).variable_name(configured) == "battery.capacity"@,
        (FetchStage::Current { readings, amp_hours }).variable_name(configured)
            == "battery.current"@,
{
}

/// The value of a signed number of units.
pub open spec fn with_sign(negative: bool, units: nat) -> int {
    if negative {
        -(units as int)
    } else {
        units as int
    }
}

/// A number times a scale, rounded to an integer: the nearest one, within a millionth more, and a
/// half going away from zero where nothing is scaled. It is found for every product within the
/// limits, and for none that is beyond them by one.
pub proof fn law_scaled_integers(
    value: Seq<char>,
    negative: bool,
    magnitude: Magnitude,
    scale: u32,
    minimum: i32,
    maximum: i32,
    variable: Seq<char>,
)
    requires
        magnitude.wf(),
    ensures
        ({
            let exact = with_sign(negative, scale as nat * magnitude.units());
            let found = scaled_integer(
                value,
                Some(Number::Finite { negative, magnitude }),
                scale,
                minimum,
                maximum,
                variable,
            );
            &&& minimum * one() <= exact <= maximum * one() ==> found is Ok
            &&& exact >= (maximum + 1) * one() || exact <= (minimum - 1) * one() ==> found is Err
            &&& found matches Ok(integer) ==> minimum <= integer <= maximum && 0x20_0000 * apart(
                integer * one(),
                exact,
            ) <= 0x10_0001 * one()
            &&& scale == 1 ==> {
                &&& found is Ok <==> minimum * one() <= exact <= maximum * one()
                &&& found matches Ok(integer) ==> {
                    let size = if negative { -integer } else { integer as int };
                    is_integer_of(size, magnitude.units())
                }
            }
            &&& found matches Err(problem) ==> problem.kind is InvalidData && problem.message
                == variable + " is outside the supported range: "@ + value
        }),
        ({
            let found = scaled_integer(value, None, scale, minimum, maximum, variable);
            found matches Err(problem) && problem.kind is InvalidData && problem.message == variable
                + " is not numeric: "@ + value
        }),
{
    let o = one();
    let u = magnitude.units();
    let v = scale as nat * u;
    let (lo, hi) = (minimum as int, maximum as int);
    lemma_pow2_pos(1074);
    lemma_one_is_large();
    assert(u * (scale as nat * o) == v * o) by (nonlinear_arith)
        requires
            v == scale as nat * u,
    ;
    let product = rounded(v * o, o);
    lemma_rounded_integer_error(v, o);
    assert(product * 1 == product);
    let i = nearest_integer(product) as int;
    lemma_nearest(product);
    if scale == 1 {
        lemma_unscaled(magnitude);
        assert(v == u);
        assert(product == u);
    }
    // Within the limits the product stays within them.
    if negative {
        assert((-lo) * o == -(lo * o) && (-hi) * o == -(hi * o)) by (nonlinear_arith);
    }
    lemma_limit(v, hi);
    lemma_limit(v, -lo);
    lemma_limit(v, -hi);
    lemma_limit(v, lo);
    assert(lo * o >= -0x8000_0000 * o && hi * o <= 0x7fff_ffff * o && lo * o <= 0x7fff_ffff * o
        && hi * o >= -0x8000_0000 * o) by (nonlinear_arith)
        requires
            -0x8000_0000 <= lo <= 0x7fff_ffff,
            -0x8000_0000 <= hi <= 0x7fff_ffff,
            o > 0,
    ;
    assert((hi + 1) * o == hi * o + o && (lo - 1) * o == lo * o - o) by (nonlinear_arith);
    // The integer lies within the limits too.
    if integer_within(negative, product, minimum, maximum) is Some {
        assert(product <= 0x8000_0000 * o);
        if negative {
            assert(-i >= lo) by (nonlinear_arith)
                requires
                    2 * (i * o - product) <= o,
                    -product >= lo * o,
                    o > 0,
            ;
            assert(-i <= hi) by (nonlinear_arith)
                requires
                    2 * (product - i * o) < o,
                    -product <= hi * o,
                    o > 0,
            ;
            assert((-i) * o == -(i * o)) by (nonlinear_arith);
        } else {
            assert(i <= hi) by (nonlinear_arith)
                requires
                    2 * (i * o - product) <= o,
                    product <= hi * o,
                    o > 0,
            ;
            assert(i >= lo) by (nonlinear_arith)
                requires
                    2 * (product - i * o) < o,
                    product >= lo * o,
                    o > 0,
            ;
        }
        lemma_product_is_close(v, product);
    }
    if product <= 0x8000_0000 * o {
        lemma_finite(0x8000_0000);
    }
    if v <= 0x8000_0001 * o || product <= 0x8000_0000 * o {
        lemma_product_is_close(v, product);
    }
}

proof fn lemma_one_is_large()
    ensures
        one() >= 0x20_0000_0000_0000,
{
    lemma2_to64();
    lemma2_to64_rest();
    lemma_pow2_strictly_increases(53, 1074);
}

/// Rounding a product does not cross an integer.
proof fn lemma_limit(v: nat, limit: int)
    requires
        -0x8000_0000 <= limit <= 0x8000_0000,
    ensures
        v <= limit * one() ==> rounded(v * one(), one()) <= limit * one(),
        v >= limit * one() ==> rounded(v * one(), one()) >= limit * one(),
{
    let o = one();
    lemma_pow2_pos(1074);
    if limit < 0 {
        assert(limit * o < 0) by (nonlinear_arith)
            requires
                limit < 0,
                o > 0,
        ;
    } else {
        let k = limit as nat;
        if v <= k * o {
            assert(v * o <= k * o * o) by (nonlinear_arith)
                requires
                    v <= k * o,
                    o > 0,
            ;
            lemma_at_most(k, v * o, o);
        }
        if v >= k * o {
            assert(v * o >= k * o * o) by (nonlinear_arith)
                requires
                    v >= k * o,
                    o > 0,
            ;
            lemma_at_least(k, v * o, o);
        }
    }
}

/// A product of an ordinary size is hardly moved by rounding.
proof fn lemma_product_is_close(v: nat, product: nat)
    requires
        0x20_0000_0000_0000 * distance(product, v, 1) <= v,
        v <= 0x8000_0001 * one() || product <= 0x8000_0000 * one(),
    ensures
        0x20_0000 * apart(product as int, v as int) <= one(),
{
    assert(product * 1 == product);
    assert(v <= 2 * product || v <= 0x8000_0001 * one());
}

} // verus!
