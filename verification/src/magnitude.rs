//! Non-negative finite binary64 values and their arithmetic.

use vstd::arithmetic::div_mod::*;
use vstd::arithmetic::power2::*;
use vstd::prelude::*;

use crate::rounding::bit_length;
use crate::rounding::excess_bits;
use crate::rounding::half_even;
use crate::rounding::in_binade;
use crate::rounding::lemma_binade;
use crate::rounding::lemma_bit_length_bounds;
use crate::rounding::lemma_half_even_exact;
use crate::rounding::lemma_half_even_scale;
use crate::rounding::lemma_pow2_monotone;
use crate::rounding::lemma_rounded_exact;
use crate::rounding::lemma_rounded_mantissa;
use crate::rounding::lemma_rounded_monotone;
use crate::rounding::lemma_rounded_scale;
use crate::rounding::lemma_rounded_sticky;
use crate::rounding::rounded;

verus! {

/// 2^53: mantissas lie below it.
pub const MANTISSA_LIMIT: u64 = 0x20_0000_0000_0000;

/// 2^52: mantissas above the smallest exponent reach at least it.
pub const NORMAL_MANTISSA: u64 = 0x10_0000_0000_0000;

/// The largest exponent of a finite value.
pub const MAX_EXPONENT: u32 = 2045;

/// The value one is `2^ONE_EXPONENT` units.
pub const ONE_EXPONENT: u32 = 1074;

/// A non-negative finite binary64 value, counted in units of its smallest positive value:
/// `mantissa * 2^exponent` units.
#[derive(Clone, Copy, Debug, PartialEq, Eq, Structural)]
pub struct Magnitude {
    pub mantissa: u64,
    pub exponent: u32,
}

/// The units in the value one.
pub open spec fn one() -> nat {
    pow2(1074)
}

/// The least number of units that is too large for a finite value.
pub open spec fn overflow() -> nat {
    pow2(2098)
}

impl Magnitude {
    /// The one representation that each value has.
    pub open spec fn wf(self) -> bool {
        &&& self.mantissa < MANTISSA_LIMIT
        &&& self.exponent <= MAX_EXPONENT
        &&& self.exponent > 0 ==> self.mantissa >= NORMAL_MANTISSA
    }

    /// The value, in units.
    pub open spec fn units(self) -> nat {
        self.mantissa as nat * pow2(self.exponent as nat)
    }
}

/// The least integer that is at least `units`.
pub open spec fn ceiling_of(units: nat) -> nat {
    ((units + one() - 1) / one() as int) as nat
}

/// The integer nearest to `units`; a tie goes away from zero.
pub open spec fn nearest_integer(units: nat) -> nat {
    (2 * units + one()) / (2 * one())
}

/// `result` is `n / d` units rounded to the nearest value, or `None` where that is not finite.
pub open spec fn is_nearest(result: Option<Magnitude>, n: nat, d: nat) -> bool {
    match result {
        Some(value) => value.wf() && value.units() == rounded(n, d),
        None => rounded(n, d) >= overflow(),
    }
}

proof fn lemma_limits()
    ensures
        MANTISSA_LIMIT == pow2(53),
        NORMAL_MANTISSA == pow2(52),
{
    lemma2_to64_rest();
    lemma2_to64();
}

/// `2^t`.
fn power_of_two(t: u32) -> (p: u128)
    requires
        t < 128,
    ensures
        p == pow2(t as nat),
{
    let mut p: u128 = 1;
    let mut i: u32 = 0;
    proof {
        lemma2_to64();
        lemma_pow2_128();
    }
    while i < t
        invariant
            i <= t < 128,
            p == pow2(i as nat),
            pow2(128) == 0x1_0000_0000_0000_0000_0000_0000_0000_0000,
        decreases t - i,
    {
        proof {
            lemma_pow2_unfold((i + 1) as nat);
            lemma_pow2_monotone((i + 1) as nat, 127);
            lemma_pow2_unfold(128);
        }
        p = p * 2;
        i = i + 1;
    }
    p
}

proof fn lemma_pow2_128()
    ensures
        pow2(128) == 0x1_0000_0000_0000_0000_0000_0000_0000_0000,
{
    lemma2_to64();
    lemma_pow2_adds(64, 64);
}

/// The number of binary digits of `n`.
fn digits(n: u128) -> (length: u32)
    ensures
        length == bit_length(n as nat),
        length <= 128,
{
    let mut rest: u128 = n;
    let mut length: u32 = 0;
    proof {
        lemma_pow2_128();
        lemma_bit_length_bounds(n as nat);
        if bit_length(n as nat) > 128 {
            lemma_pow2_monotone(128, (bit_length(n as nat) - 1) as nat);
        }
    }
    while rest > 0
        invariant
            length + bit_length(rest as nat) == bit_length(n as nat),
            bit_length(n as nat) <= 128,
        decreases rest,
    {
        rest = rest / 2;
        length = length + 1;
    }
    length
}

/// `n / 2^t` to the nearest integer, ties to even.
fn shift_half_even(n: u128, t: u32) -> (m: u128)
    requires
        t >= 1,
    ensures
        m == half_even(n as nat, pow2(t as nat)),
{
    proof {
        lemma_pow2_128();
        lemma_pow2_unfold(128);
    }
    if t > 128 {
        proof {
            lemma_pow2_monotone(129, t as nat);
            lemma_pow2_unfold(129);
            lemma_fundamental_div_mod_converse(n as int, pow2(t as nat) as int, 0, n as int);
        }
        return 0;
    }
    if t == 128 {
        proof {
            lemma_fundamental_div_mod_converse(n as int, pow2(128) as int, 0, n as int);
        }
        if n > 0x8000_0000_0000_0000_0000_0000_0000_0000 {
            return 1;
        }
        return 0;
    }
    let d: u128 = power_of_two(t);
    proof {
        lemma_pow2_pos(t as nat);
        lemma_pow2_unfold(t as nat);
        lemma_fundamental_div_mod(n as int, d as int);
    }
    let q: u128 = n / d;
    let r: u128 = n % d;
    let half: u128 = d / 2;
    if r < half || (r == half && q % 2 == 0) {
        q
    } else {
        assert(q < u128::MAX) by (nonlinear_arith)
            requires
                n == d * q + r,
                r >= 1,
                d >= 1,
                n <= u128::MAX,
        ;
        q + 1
    }
}

/// `n * 2^up / 2^down` units to the nearest value; `None` where that is too large.
fn round_shifted(n: u128, up: u32, down: u32) -> (result: Option<Magnitude>)
    requires
        up <= 10000,
        down <= 10000,
    ensures
        is_nearest(result, n as nat * pow2(up as nat), pow2(down as nat)),
{
    let ghost num = n as nat * pow2(up as nat);
    let ghost den = pow2(down as nat);
    proof {
        lemma_limits();
        lemma_pow2_pos(up as nat);
        lemma_pow2_pos(down as nat);
        lemma2_to64();
    }
    if n == 0 {
        proof {
            lemma_rounded_exact(0, 0, den);
            assert(num == 0 && (0 * pow2(0)) * den == 0) by (nonlinear_arith)
                requires
                    num == n as nat * pow2(up as nat),
                    n == 0,
            ;
        }
        return Some(Magnitude { mantissa: 0, exponent: 0 });
    }
    let length: u32 = digits(n);
    proof {
        lemma_bit_length_bounds(n as nat);
    }
    let k: u32 = if length + up <= down + 53 {
        0
    } else {
        length + up - down - 53
    };
    let ghost kn = k as nat;
    proof {
        let low = pow2((length - 1) as nat);
        let high = pow2(length as nat);
        let un = pow2(up as nat);
        lemma_pow2_adds(length as nat, up as nat);
        lemma_pow2_adds((length - 1) as nat, up as nat);
        lemma_pow2_adds(down as nat, kn + 53);
        lemma_pow2_adds(down as nat, kn + 52);
        lemma_pow2_monotone((length + up) as nat, down as nat + (kn + 53));
        assert(num < high * un) by (nonlinear_arith)
            requires
                num == n as nat * un,
                n < high,
                un > 0,
        ;
        assert(low * un <= num) by (nonlinear_arith)
            requires
                num == n as nat * un,
                low <= n,
        ;
        assert(kn > 0 ==> (length - 1) as nat + up as nat == down as nat + (kn + 52));
        assert(in_binade(num, den, kn));
        lemma_binade(num, den, kn);
        lemma_rounded_mantissa(num, den);
        lemma_pow2_adds(down as nat, kn);
    }
    let m: u128 = if up >= down + k {
        let c: u32 = up - down - k;
        proof {
            lemma_pow2_adds(c as nat, (down + k) as nat);
            lemma_pow2_pos((down + k) as nat);
            assert(num == (n as nat * pow2(c as nat)) * pow2((down + k) as nat))
                by (nonlinear_arith)
                requires
                    num == n as nat * pow2(up as nat),
                    pow2(up as nat) == pow2(c as nat) * pow2((down + k) as nat),
            ;
            lemma_half_even_exact(n as nat * pow2(c as nat), pow2((down + k) as nat));
            if c >= 128 {
                lemma_pow2_monotone(54, c as nat);
                lemma_pow2_unfold(54);
                assert(n as nat * pow2(c as nat) >= pow2(c as nat)) by (nonlinear_arith)
                    requires
                        n >= 1,
                ;
            }
        }
        n * power_of_two(c)
    } else {
        let t: u32 = down + k - up;
        proof {
            lemma_pow2_adds(t as nat, up as nat);
            lemma_pow2_pos(t as nat);
            lemma_half_even_scale(n as nat, pow2(t as nat), pow2(up as nat));
        }
        shift_half_even(n, t)
    };
    assert(m == half_even(num, den * pow2(kn)));
    assert(rounded(num, den) == m * pow2(kn));
    proof {
        lemma_pow2_pos(kn);
    }
    if m == MANTISSA_LIMIT as u128 {
        proof {
            lemma_pow2_adds(53, kn);
            lemma_pow2_adds(52, kn + 1);
        }
        if k + 1 > MAX_EXPONENT {
            proof {
                lemma_pow2_monotone(2098, 53 + kn);
            }
            return None;
        }
        Some(Magnitude { mantissa: NORMAL_MANTISSA, exponent: k + 1 })
    } else if k > MAX_EXPONENT {
        proof {
            lemma_pow2_adds(52, kn);
            lemma_pow2_monotone(2098, 52 + kn);
            assert(pow2(52) * pow2(kn) <= m * pow2(kn)) by (nonlinear_arith)
                requires
                    pow2(52) <= m,
            ;
        }
        None
    } else {
        Some(Magnitude { mantissa: m as u64, exponent: k })
    }
}

impl Magnitude {
    /// The value nearest to the product.
    pub fn multiply(self, other: Magnitude) -> (result: Option<Magnitude>)
        requires
            self.wf(),
            other.wf(),
        ensures
            is_nearest(result, self.units() * other.units(), one()),
    {
        let up: u32 = self.exponent + other.exponent;
        proof {
            let (a, b) = (self.mantissa as nat, other.mantissa as nat);
            let (p, q) = (pow2(self.exponent as nat), pow2(other.exponent as nat));
            lemma_pow2_adds(self.exponent as nat, other.exponent as nat);
            assert((a * p) * (b * q) == (a * b) * (p * q)) by (nonlinear_arith);
            assert(a * b <= 0x20_0000_0000_0000 * 0x20_0000_0000_0000) by (nonlinear_arith)
                requires
                    a <= 0x20_0000_0000_0000,
                    b <= 0x20_0000_0000_0000,
            ;
        }
        round_shifted(self.mantissa as u128 * other.mantissa as u128, up, ONE_EXPONENT)
    }

    /// The value nearest to the quotient.
    pub fn divide(self, other: Magnitude) -> (result: Option<Magnitude>)
        requires
            self.wf(),
            other.wf(),
            other.units() > 0,
        ensures
            is_nearest(result, self.units() * one(), other.units()),
    {
        proof {
            lemma_limits();
            lemma_pow2_pos(self.exponent as nat);
            lemma_pow2_pos(other.exponent as nat);
            assert(other.mantissa > 0) by {
                if other.mantissa == 0 {
                    assert(other.units() == 0) by (nonlinear_arith)
                        requires
                            other.units() == other.mantissa as nat * pow2(other.exponent as nat),
                            other.mantissa == 0,
                    ;
                }
            }
        }
        if self.mantissa == 0 {
            proof {
                lemma_rounded_exact(0, 0, other.units());
                assert(self.units() == 0 && self.units() * one() == 0 && (0 * pow2(0))
                    * other.units() == 0) by (nonlinear_arith)
                    requires
                        self.units() == self.mantissa as nat * pow2(self.exponent as nat),
                        self.mantissa == 0,
                ;
            }
            return Some(Magnitude { mantissa: 0, exponent: 0 });
        }
        let mut top: u64 = self.mantissa;
        let mut raised: u32 = 0;
        proof {
            lemma2_to64();
        }
        while top < NORMAL_MANTISSA
            invariant
                0 < top < MANTISSA_LIMIT,
                top == self.mantissa as nat * pow2(raised as nat),
                raised <= 52,
                self.mantissa >= 1,
                NORMAL_MANTISSA == pow2(52),
            decreases MANTISSA_LIMIT - top,
        {
            proof {
                lemma_pow2_unfold((raised + 1) as nat);
                assert(raised < 52) by {
                    if raised >= 52 {
                        lemma_pow2_monotone(52, raised as nat);
                        assert(top >= pow2(raised as nat)) by (nonlinear_arith)
                            requires
                                top == self.mantissa as nat * pow2(raised as nat),
                                self.mantissa >= 1,
                        ;
                    }
                }
                assert(2 * top == self.mantissa as nat * (2 * pow2(raised as nat)))
                    by (nonlinear_arith)
                    requires
                        top == self.mantissa as nat * pow2(raised as nat),
                ;
            }
            top = top * 2;
            raised = raised + 1;
        }
        let ghost n = top as nat * pow2(74);
        let ghost d = other.mantissa as nat;
        proof {
            lemma2_to64();
            lemma_pow2_adds(64, 10);
            lemma_pow2_adds(53, 74);
            lemma_pow2_adds(52, 74);
            lemma_pow2_128();
            lemma_pow2_unfold(128);
            assert(n < pow2(53) * pow2(74)) by (nonlinear_arith)
                requires
                    n == top as nat * pow2(74),
                    top < pow2(53),
                    pow2(74) > 0,
            ;
        }
        let dividend: u128 = top as u128 * power_of_two(74);
        let divisor: u128 = other.mantissa as u128;
        let whole: u128 = dividend / divisor;
        proof {
            // The quotient has at least 55 digits.
            lemma_fundamental_div_mod(n as int, d as int);
            lemma_bit_length_bounds(whole as nat);
            if bit_length(whole as nat) < 55 {
                lemma_pow2_monotone(bit_length(whole as nat), 54);
                lemma_pow2_adds(54, 53);
                lemma_pow2_strictly_increases(107, 126);
                assert(n < pow2(54) * pow2(53)) by (nonlinear_arith)
                    requires
                        n == d * whole + n % d,
                        n % d < d,
                        d < pow2(53),
                        whole + 1 <= pow2(54),
                ;
                assert(pow2(52) * pow2(74) <= n) by (nonlinear_arith)
                    requires
                        n == top as nat * pow2(74),
                        pow2(52) <= top,
                ;
            }
            assert(whole <= dividend) by (nonlinear_arith)
                requires
                    dividend == divisor * whole + dividend % divisor,
                    dividend % divisor >= 0,
                    divisor >= 1,
            ;
        }
        let kept: u128 = if dividend % divisor == 0 {
            2 * whole
        } else {
            2 * whole + 1
        };
        let up: u32 = self.exponent + ONE_EXPONENT;
        let down: u32 = other.exponent + raised + 74;
        proof {
            lemma_rounded_sticky(n, d, up as nat, down as nat);
            // The scaled quotient is the quotient of the units.
            let c = pow2(raised as nat) * pow2(74);
            lemma_pow2_pos(raised as nat);
            lemma_pow2_adds(self.exponent as nat, 1074);
            lemma_pow2_adds(other.exponent as nat, raised as nat);
            lemma_pow2_adds((other.exponent + raised) as nat, 74);
            let pa = pow2(self.exponent as nat);
            let pb = pow2(other.exponent as nat);
            let pr = pow2(raised as nat);
            let p74 = pow2(74);
            assert(c > 0) by (nonlinear_arith)
                requires
                    c == pr * p74,
                    pr > 0,
                    p74 > 0,
            ;
            assert(n * pow2(up as nat) == (self.units() * one()) * c) by (nonlinear_arith)
                requires
                    n == top as nat * p74,
                    top == self.mantissa as nat * pr,
                    pow2(up as nat) == pa * one(),
                    self.units() == self.mantissa as nat * pa,
                    c == pr * p74,
            ;
            assert(d * pow2(down as nat) == other.units() * c) by (nonlinear_arith)
                requires
                    pow2(down as nat) == (pb * pr) * p74,
                    other.units() == d * pb,
                    c == pr * p74,
            ;
            lemma_rounded_scale(self.units() * one(), other.units(), c);
        }
        round_shifted(kept, up, down + 1)
    }

    /// The value nearest to the sum.
    pub fn plus(self, other: Magnitude) -> (result: Option<Magnitude>)
        requires
            self.wf(),
            other.wf(),
        ensures
            is_nearest(result, self.units() + other.units(), 1),
    {
        if self.exponent >= other.exponent {
            add_ordered(self, other)
        } else {
            add_ordered(other, self)
        }
    }

    /// The value nearest to an integer.
    pub fn from_integer(n: u128) -> (result: Magnitude)
        ensures
            result.wf(),
            result.units() == rounded(n as nat * one(), 1),
            n < MANTISSA_LIMIT ==> result.units() == n as nat * one(),
    {
        let result: Option<Magnitude> = round_shifted(n, ONE_EXPONENT, 0);
        proof {
            lemma_limits();
            lemma2_to64();
            if n < MANTISSA_LIMIT {
                lemma_rounded_exact(n as nat, 1074, 1);
                assert((n as nat * pow2(1074)) * 1 == n as nat * pow2(1074));
            }
            // No integer of this size is too large.
            lemma_pow2_128();
            lemma_rounded_exact(1, 1202, 1);
            lemma_pow2_adds(128, 1074);
            assert(n as nat * one() <= pow2(128) * pow2(1074)) by (nonlinear_arith)
                requires
                    n <= pow2(128),
                    one() == pow2(1074),
            ;
            assert((1 * pow2(1202)) * 1 == pow2(1202)) by (nonlinear_arith);
            lemma_rounded_monotone(n as nat * one(), 1, pow2(1202), 1);
            lemma_pow2_strictly_increases(1202, 2098);
        }
        result.unwrap()
    }
}

/// Values are ordered first by their exponents, then by their mantissas.
pub proof fn lemma_order(a: Magnitude, b: Magnitude)
    requires
        a.wf(),
        b.wf(),
    ensures
        a.units() < b.units() <==> (a.exponent < b.exponent || (a.exponent == b.exponent
            && a.mantissa < b.mantissa)),
        a.units() == b.units() <==> a == b,
{
    lemma_limits();
    lemma_pow2_pos(a.exponent as nat);
    lemma_pow2_pos(b.exponent as nat);
    if a.exponent < b.exponent {
        lemma_exponent_order(a, b);
    } else if b.exponent < a.exponent {
        lemma_exponent_order(b, a);
    } else {
        let p = pow2(a.exponent as nat);
        let (x, y) = (a.mantissa as nat, b.mantissa as nat);
        assert((x * p < y * p <==> x < y) && (x * p == y * p <==> x == y)) by (nonlinear_arith)
            requires
                p > 0,
        ;
    }
}

proof fn lemma_exponent_order(a: Magnitude, b: Magnitude)
    requires
        a.wf(),
        b.wf(),
        a.exponent < b.exponent,
    ensures
        a.units() < b.units(),
{
    lemma_limits();
    let (p, q) = (pow2(a.exponent as nat), pow2(b.exponent as nat));
    lemma_pow2_pos(a.exponent as nat);
    lemma_pow2_adds(53, a.exponent as nat);
    lemma_pow2_adds(52, b.exponent as nat);
    lemma_pow2_monotone(53 + a.exponent as nat, 52 + b.exponent as nat);
    assert(a.units() < pow2(53) * p) by (nonlinear_arith)
        requires
            a.units() == a.mantissa as nat * p,
            a.mantissa < pow2(53),
            p > 0,
    ;
    assert(pow2(52) * q <= b.units()) by (nonlinear_arith)
        requires
            b.units() == b.mantissa as nat * q,
            pow2(52) <= b.mantissa,
    ;
}

impl Magnitude {
    /// Whether this value is smaller than the other.
    pub fn is_below(self, other: Magnitude) -> (below: bool)
        requires
            self.wf(),
            other.wf(),
        ensures
            below == (self.units() < other.units()),
    {
        proof {
            lemma_order(self, other);
        }
        self.exponent < other.exponent || (self.exponent == other.exponent && self.mantissa
            < other.mantissa)
    }

    /// Whether this value is zero.
    pub fn is_zero(self) -> (zero: bool)
        requires
            self.wf(),
        ensures
            zero == (self.units() == 0),
    {
        proof {
            let p = pow2(self.exponent as nat);
            lemma_pow2_pos(self.exponent as nat);
            assert(self.mantissa as nat * p == 0 <==> self.mantissa == 0) by (nonlinear_arith)
                requires
                    p > 0,
            ;
        }
        self.mantissa == 0
    }

    /// The least integer that is not smaller than this value.
    pub fn ceiling(self) -> (integer: u64)
        requires
            self.wf(),
            self.units() < MANTISSA_LIMIT as nat * one(),
        ensures
            integer == ceiling_of(self.units()),
    {
        proof {
            lemma_small_exponent(self);
            lemma_pow2_pos(1074);
        }
        let ghost m = self.mantissa as nat;
        let ghost u = self.units();
        let low: u32 = ONE_EXPONENT - self.exponent;
        let ghost p = pow2(self.exponent as nat);
        let ghost d = pow2(low as nat);
        proof {
            lemma_pow2_adds(self.exponent as nat, low as nat);
            lemma_pow2_pos(self.exponent as nat);
            lemma_pow2_pos(low as nat);
            lemma2_to64();
        }
        if low >= 64 {
            proof {
                lemma_pow2_monotone(64, low as nat);
                assert(u < one() && (m > 0 ==> u > 0) && (m == 0 ==> u == 0)) by (nonlinear_arith)
                    requires
                        u == m * p,
                        one() == p * d,
                        m < d,
                        p > 0,
                ;
                lemma_ceiling(u, if m == 0 { 0 } else { 1 });
            }
            if self.mantissa == 0 {
                return 0;
            }
            return 1;
        }
        let divisor: u128 = power_of_two(low);
        let whole: u128 = self.mantissa as u128 / divisor;
        let rest: u128 = self.mantissa as u128 % divisor;
        proof {
            lemma_fundamental_div_mod(m as int, d as int);
            assert(whole <= m) by (nonlinear_arith)
                requires
                    m == d * whole + rest,
                    rest >= 0,
                    d >= 1,
            ;
            let c: nat = if rest == 0 { whole as nat } else { (whole + 1) as nat };
            assert(u <= c * one() && (c > 0 ==> (c - 1) * one() < u)) by (nonlinear_arith)
                requires
                    u == m * p,
                    one() == p * d,
                    m == d * whole + rest,
                    0 <= rest < d,
                    p > 0,
                    rest == 0 ==> c == whole,
                    rest > 0 ==> c == whole + 1,
            {
                if rest == 0 {
                    assert(c * (p * d) == (d * c) * p);
                    if c > 0 {
                        assert((c - 1) * (p * d) == c * (p * d) - p * d);
                        assert(p * d > 0);
                    }
                } else {
                    assert(c * (p * d) == (d * c) * p);
                    assert(d * c == d * whole + d);
                    assert((d * c) * p >= (d * whole + rest) * p);
                    assert((c - 1) * (p * d) == (d * whole) * p);
                    assert((d * whole) * p < (d * whole + rest) * p);
                }
            }
            lemma_ceiling(u, c);
        }
        if rest == 0 {
            whole as u64
        } else {
            whole as u64 + 1
        }
    }

    /// The integer nearest to this value; a tie goes away from zero.
    pub fn round_away(self) -> (integer: u64)
        requires
            self.wf(),
            self.units() < MANTISSA_LIMIT as nat * one(),
        ensures
            integer == nearest_integer(self.units()),
            integer <= MANTISSA_LIMIT,
    {
        proof {
            lemma_small_exponent(self);
            lemma_pow2_pos(1074);
        }
        let ghost m = self.mantissa as nat;
        let ghost u = self.units();
        let low: u32 = ONE_EXPONENT - self.exponent;
        let ghost p = pow2(self.exponent as nat);
        let ghost d = pow2(low as nat);
        proof {
            lemma_pow2_adds(self.exponent as nat, low as nat);
            lemma_pow2_pos(self.exponent as nat);
            lemma_pow2_pos(low as nat);
            lemma2_to64();
        }
        if low >= 64 {
            proof {
                lemma_pow2_monotone(64, low as nat);
                assert(2 * u < one()) by (nonlinear_arith)
                    requires
                        u == m * p,
                        one() == p * d,
                        2 * m < d,
                        p > 0,
                ;
                lemma_fundamental_div_mod_converse(
                    (2 * u + one()) as int,
                    (2 * one()) as int,
                    0,
                    (2 * u + one()) as int,
                );
            }
            return 0;
        }
        let divisor: u128 = power_of_two(low);
        proof {
            lemma_pow2_monotone(low as nat, 63);
            lemma2_to64_rest();
        }
        let top: u128 = 2 * self.mantissa as u128 + divisor;
        let result: u128 = top / (2 * divisor);
        proof {
            lemma_fundamental_div_mod(top as int, (2 * d) as int);
            let r = top as int % (2 * divisor);
            assert(2 * u + one() == result * (2 * one()) + r * p && 0 <= r * p < 2 * one())
                by (nonlinear_arith)
                requires
                    u == m * p,
                    one() == p * d,
                    top == 2 * m + d,
                    top == (2 * d) * result + r,
                    0 <= r < 2 * d,
                    p > 0,
            ;
            lemma_fundamental_div_mod_converse(
                (2 * u + one()) as int,
                (2 * one()) as int,
                result as int,
                (r * p) as int,
            );
            assert(result <= MANTISSA_LIMIT) by (nonlinear_arith)
                requires
                    top == 2 * m + d,
                    top == (2 * d) * result + r,
                    r >= 0,
                    d >= 1,
                    m < MANTISSA_LIMIT,
            ;
        }
        result as u64
    }
}

/// A value below 2^53 has no unit above one.
proof fn lemma_small_exponent(a: Magnitude)
    requires
        a.wf(),
        a.units() < MANTISSA_LIMIT as nat * one(),
    ensures
        a.exponent <= ONE_EXPONENT,
{
    if a.exponent > 1074 {
        lemma_limits();
        let p = pow2(a.exponent as nat);
        lemma_pow2_adds(52, a.exponent as nat);
        lemma_pow2_adds(53, 1074);
        lemma_pow2_monotone(53 + 1074, 52 + a.exponent as nat);
        assert(pow2(52) * p <= a.units()) by (nonlinear_arith)
            requires
                a.units() == a.mantissa as nat * p,
                pow2(52) <= a.mantissa,
        ;
    }
}

/// What brackets a value from above by less than one is its ceiling.
pub proof fn lemma_ceiling(u: nat, c: nat)
    requires
        u <= c * one(),
        c > 0 ==> (c - 1) * one() < u,
    ensures
        ceiling_of(u) == c,
{
    lemma_pow2_pos(1074);
    let o = one() as int;
    let x = u + o - 1;
    let r = x - c * o;
    assert(0 <= r < o) by (nonlinear_arith)
        requires
            r == u + o - 1 - c * o,
            u <= c * o,
            c > 0 ==> (c - 1) * o < u,
            c == 0 || c > 0,
            u >= 0,
            o > 0,
    ;
    lemma_fundamental_div_mod_converse(x, o, c as int, r);
}

/// A quotient that is not below an integer does not round below it.
pub proof fn lemma_at_least(k: nat, n: nat, d: nat)
    requires
        k < MANTISSA_LIMIT,
        d > 0,
        k * one() * d <= n,
    ensures
        rounded(n, d) >= k * one(),
{
    lemma_limits();
    lemma_rounded_exact(k, 1074, 1);
    assert((k * one()) * 1 == k * one());
    assert(n * 1 == n);
    lemma_rounded_monotone(k * one(), 1, n, d);
}

/// A quotient that is not above an integer does not round above it, so it stays finite.
pub proof fn lemma_at_most(k: nat, n: nat, d: nat)
    requires
        k < MANTISSA_LIMIT,
        d > 0,
        n <= k * one() * d,
    ensures
        rounded(n, d) <= k * one(),
        rounded(n, d) < overflow(),
{
    lemma_limits();
    lemma_rounded_exact(k, 1074, 1);
    assert((k * one()) * 1 == k * one());
    assert(n * 1 == n);
    lemma_rounded_monotone(n, d, k * one(), 1);
    lemma_finite(k);
}

/// Integers below 2^53 are finite.
pub proof fn lemma_finite(k: nat)
    requires
        k < MANTISSA_LIMIT,
    ensures
        k * one() < overflow(),
{
    lemma_limits();
    lemma_pow2_adds(53, 1074);
    lemma_pow2_strictly_increases(53 + 1074, 2098);
    assert(k * one() <= pow2(53) * pow2(1074)) by (nonlinear_arith)
        requires
            k <= pow2(53),
            one() == pow2(1074),
    ;
}

/// Every value is finite.
pub proof fn lemma_finite_units(a: Magnitude)
    requires
        a.wf(),
    ensures
        a.units() < overflow(),
{
    let p = pow2(a.exponent as nat);
    lemma_limits();
    lemma_pow2_pos(a.exponent as nat);
    lemma_pow2_adds(53, a.exponent as nat);
    lemma_pow2_monotone(53 + a.exponent as nat, 2098);
    assert(a.units() < pow2(53) * p) by (nonlinear_arith)
        requires
            a.units() == a.mantissa as nat * p,
            a.mantissa < pow2(53),
            p > 0,
    ;
}

/// What a finite quotient is rounded to is a value.
pub proof fn lemma_rounded_is_value(n: nat, d: nat) -> (value: Magnitude)
    requires
        d > 0,
        rounded(n, d) < overflow(),
    ensures
        value.wf(),
        value.units() == rounded(n, d),
{
    let k = excess_bits(n, d);
    let p = pow2(k);
    let m = half_even(n, d * p);
    lemma_limits();
    lemma_pow2_pos(k);
    lemma_rounded_mantissa(n, d);
    lemma_pow2_adds(53, k);
    lemma_pow2_adds(52, k);
    lemma_pow2_adds(52, k + 1);
    if m == pow2(53) {
        if k + 1 > 2045 {
            lemma_pow2_monotone(2098, 53 + k);
        }
        Magnitude { mantissa: NORMAL_MANTISSA, exponent: (k + 1) as u32 }
    } else {
        if k > 2045 {
            lemma_pow2_monotone(2098, 52 + k);
            assert(pow2(52) * p <= m * p) by (nonlinear_arith)
                requires
                    pow2(52) <= m,
            ;
        }
        Magnitude { mantissa: m as u64, exponent: k as u32 }
    }
}

/// The sum of two values of which the first has the larger exponent.
fn add_ordered(a: Magnitude, b: Magnitude) -> (result: Option<Magnitude>)
    requires
        a.wf(),
        b.wf(),
        a.exponent >= b.exponent,
    ensures
        is_nearest(result, a.units() + b.units(), 1),
        is_nearest(result, b.units() + a.units(), 1),
{
    let gap: u32 = a.exponent - b.exponent;
    let ghost am = a.mantissa as nat;
    let ghost bm = b.mantissa as nat;
    let ghost pb = pow2(b.exponent as nat);
    proof {
        lemma_limits();
        lemma2_to64();
        lemma_pow2_adds(gap as nat, b.exponent as nat);
        lemma_pow2_pos(b.exponent as nat);
        lemma_pow2_128();
        assert(a.units() + b.units() == (am * pow2(gap as nat) + bm) * pb) by (nonlinear_arith)
            requires
                a.units() == am * pow2(a.exponent as nat),
                b.units() == bm * pb,
                pow2(a.exponent as nat) == pow2(gap as nat) * pb,
        ;
    }
    if gap <= 70 {
        proof {
            lemma_pow2_monotone(gap as nat, 70);
            lemma_pow2_adds(53, 70);
            lemma_pow2_strictly_increases(123, 127);
            lemma_pow2_unfold(128);
            assert(am * pow2(gap as nat) <= pow2(53) * pow2(70)) by (nonlinear_arith)
                requires
                    am <= pow2(53),
                    pow2(gap as nat) <= pow2(70),
            ;
            lemma_pow2_strictly_increases(53, 123);
        }
        let n: u128 = a.mantissa as u128 * power_of_two(gap) + b.mantissa as u128;
        return round_shifted(n, b.exponent, 0);
    }
    // The low digits of the smaller value only tell whether it leaves a remainder.
    let low: u32 = gap - 70;
    let ghost n = am * pow2(gap as nat) + bm;
    let ghost d = pow2(low as nat);
    proof {
        lemma_pow2_pos(low as nat);
    }
    let part: u64 = if low >= 64 {
        0
    } else {
        (b.mantissa as u128 / power_of_two(low)) as u64
    };
    let leaves: bool = if low >= 64 {
        b.mantissa != 0
    } else {
        b.mantissa as u128 % power_of_two(low) != 0
    };
    proof {
        if low >= 64 {
            lemma_pow2_monotone(64, low as nat);
            lemma_fundamental_div_mod_converse(bm as int, d as int, 0, bm as int);
        } else {
            lemma_fundamental_div_mod(bm as int, d as int);
            assert(bm / d <= bm) by (nonlinear_arith)
                requires
                    bm == d * (bm / d) + bm % d,
                    bm % d >= 0,
                    d >= 1,
            ;
        }
        assert(part == bm / d);
        assert(leaves == (bm % d != 0));
        lemma_fundamental_div_mod(bm as int, d as int);
        lemma_pow2_adds(70, low as nat);
        assert(n == (am * pow2(70) + bm / d) * d + bm % d) by (nonlinear_arith)
            requires
                n == am * pow2(gap as nat) + bm,
                pow2(gap as nat) == pow2(70) * d,
                bm == d * (bm / d) + bm % d,
        ;
        lemma_fundamental_div_mod_converse(
            n as int,
            d as int,
            (am * pow2(70) + bm / d) as int,
            (bm % d) as int,
        );
        lemma_pow2_adds(53, 70);
        lemma_pow2_adds(52, 70);
        lemma_pow2_strictly_increases(123, 125);
        lemma_pow2_monotone(125, 128);
        lemma_pow2_unfold(124);
        lemma_pow2_unfold(125);
        assert(am * pow2(70) <= pow2(53) * pow2(70)) by (nonlinear_arith)
            requires
                am <= pow2(53),
        ;
        assert(pow2(52) * pow2(70) <= am * pow2(70)) by (nonlinear_arith)
            requires
                pow2(52) <= am,
        ;
        lemma_pow2_strictly_increases(53, 123);
    }
    let whole: u128 = a.mantissa as u128 * power_of_two(70) + part as u128;
    let kept: u128 = if leaves {
        2 * whole + 1
    } else {
        2 * whole
    };
    let up: u32 = b.exponent + low;
    proof {
        lemma_bit_length_bounds(whole as nat);
        if bit_length(whole as nat) < 55 {
            lemma_pow2_monotone(bit_length(whole as nat), 122);
        }
        lemma_rounded_sticky(n, d, up as nat, 0);
        lemma_pow2_adds(b.exponent as nat, low as nat);
        assert(n * pow2(up as nat) == (n * pb) * d) by (nonlinear_arith)
            requires
                pow2(up as nat) == pb * d,
        ;
        assert(d * pow2(0) == 1 * d) by (nonlinear_arith)
            requires
                pow2(0) == 1,
        ;
        lemma_rounded_scale(n * pb, 1, d);
    }
    round_shifted(kept, up, 1)
}

} // verus!
