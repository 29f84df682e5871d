//! Binary64 values as the bridge receives them: signed, possibly infinite or not a number.

use vstd::arithmetic::div_mod::*;
use vstd::arithmetic::power2::*;
use vstd::prelude::*;

use crate::magnitude::lemma_order;
use crate::magnitude::nearest_integer;
use crate::magnitude::one;
use crate::magnitude::Magnitude;
use crate::magnitude::MANTISSA_LIMIT;
use crate::magnitude::NORMAL_MANTISSA;

verus! {

/// A binary64 value.
#[derive(Clone, Copy, Debug, PartialEq, Eq, Structural)]
pub enum Number {
    NotANumber,
    Infinite { negative: bool },
    Finite { negative: bool, magnitude: Magnitude },
}

/// The sign bit: 2^63.
pub const SIGN_BIT: u64 = 0x8000_0000_0000_0000;

/// The value that a binary64 bit pattern stands for: a sign, eleven exponent bits and 52
/// fraction bits.
pub open spec fn number_of_bits(bits: u64) -> Number {
    let negative = bits >= SIGN_BIT;
    let field = bits / NORMAL_MANTISSA % 2048;
    let fraction = bits % NORMAL_MANTISSA;
    if field == 2047 {
        if fraction == 0 {
            Number::Infinite { negative }
        } else {
            Number::NotANumber
        }
    } else if field == 0 {
        Number::Finite { negative, magnitude: Magnitude { mantissa: fraction, exponent: 0 } }
    } else {
        Number::Finite {
            negative,
            magnitude: Magnitude {
                mantissa: (fraction + NORMAL_MANTISSA) as u64,
                exponent: (field - 1) as u32,
            },
        }
    }
}

/// A signed number of units.
pub open spec fn signed(negative: bool, units: nat) -> int {
    if negative {
        -(units as int)
    } else {
        units as int
    }
}

impl Number {
    pub open spec fn wf(self) -> bool {
        self matches Number::Finite { magnitude, .. } ==> magnitude.wf()
    }

    /// Reads a binary64 bit pattern.
    pub fn from_bits(bits: u64) -> (number: Number)
        ensures
            number == number_of_bits(bits),
            number.wf(),
    {
        let negative: bool = bits >= SIGN_BIT;
        let field: u64 = bits / NORMAL_MANTISSA % 2048;
        let fraction: u64 = bits % NORMAL_MANTISSA;
        if field == 2047 {
            if fraction == 0 {
                Number::Infinite { negative }
            } else {
                Number::NotANumber
            }
        } else if field == 0 {
            Number::Finite { negative, magnitude: Magnitude { mantissa: fraction, exponent: 0 } }
        } else {
            Number::Finite {
                negative,
                magnitude: Magnitude {
                    mantissa: fraction + NORMAL_MANTISSA,
                    exponent: (field - 1) as u32,
                },
            }
        }
    }

    /// The value, where it is finite and greater than zero.
    pub open spec fn spec_positive(self) -> Option<Magnitude> {
        match self {
            Number::Finite { negative: false, magnitude } => if magnitude.units() > 0 {
                Some(magnitude)
            } else {
                None
            },
            _ => None,
        }
    }

    /// The value, where it is finite and greater than zero.
    pub fn positive(self) -> (result: Option<Magnitude>)
        requires
            self.wf(),
        ensures
            result == self.spec_positive(),
    {
        match self {
            Number::Finite { negative, magnitude } => {
                if negative || magnitude.is_zero() {
                    None
                } else {
                    Some(magnitude)
                }
            },
            _ => None,
        }
    }

    /// The size of the value, where it is finite and not zero.
    pub open spec fn spec_nonzero_size(self) -> Option<Magnitude> {
        match self {
            Number::Finite { magnitude, .. } => if magnitude.units() > 0 {
                Some(magnitude)
            } else {
                None
            },
            _ => None,
        }
    }

    /// The size of the value, where it is finite and not zero.
    pub fn nonzero_size(self) -> (result: Option<Magnitude>)
        requires
            self.wf(),
        ensures
            result == self.spec_nonzero_size(),
    {
        match self {
            Number::Finite { magnitude, .. } => {
                if magnitude.is_zero() {
                    None
                } else {
                    Some(magnitude)
                }
            },
            _ => None,
        }
    }
}

impl Magnitude {
    /// The bit pattern of this value.
    pub fn to_bits(self) -> (bits: u64)
        requires
            self.wf(),
        ensures
            number_of_bits(bits) == (Number::Finite { negative: false, magnitude: self }),
    {
        let bits: u64 = self.exponent as u64 * NORMAL_MANTISSA + self.mantissa;
        proof {
            let n = NORMAL_MANTISSA as int;
            if self.exponent > 0 || self.mantissa >= NORMAL_MANTISSA {
                lemma_fundamental_div_mod_converse(
                    bits as int,
                    n,
                    self.exponent + 1,
                    self.mantissa - n,
                );
            } else {
                lemma_fundamental_div_mod_converse(bits as int, n, 0, self.mantissa as int);
            }
        }
        bits
    }
}

/// The size of an integer.
fn size_of_integer(integer: i32) -> (size: Magnitude)
    ensures
        size.wf(),
        signed(integer < 0, size.units()) == integer * one(),
        integer == 0 <==> size.units() == 0,
{
    let size: Magnitude = if integer >= 0 {
        Magnitude::from_integer(integer as u128)
    } else {
        Magnitude::from_integer((-(integer as i64)) as u128)
    };
    proof {
        let o = one() as int;
        let n = integer as int;
        lemma_pow2_pos(1074);
        assert((-n) * o == -(n * o) && (n == 0 <==> n * o == 0)) by (nonlinear_arith)
            requires
                o > 0,
        ;
    }
    size
}

/// Whether a signed value is smaller than an integer.
fn is_below_integer(negative: bool, size: Magnitude, limit: i32) -> (below: bool)
    requires
        size.wf(),
    ensures
        below == (signed(negative, size.units()) < limit * one()),
{
    let bound: Magnitude = size_of_integer(limit);
    if limit >= 0 {
        if negative {
            // Only a negative zero is not smaller than zero.
            limit > 0 || !size.is_zero()
        } else {
            size.is_below(bound)
        }
    } else {
        negative && bound.is_below(size)
    }
}

/// Whether a signed value is greater than an integer.
fn is_above_integer(negative: bool, size: Magnitude, limit: i32) -> (above: bool)
    requires
        size.wf(),
    ensures
        above == (signed(negative, size.units()) > limit * one()),
{
    let bound: Magnitude = size_of_integer(limit);
    if limit >= 0 {
        !negative && bound.is_below(size)
    } else {
        !negative || size.is_below(bound)
    }
}

/// A signed value within integer limits, rounded to an integer, ties away from zero.
pub open spec fn integer_within(
    negative: bool,
    units: nat,
    minimum: i32,
    maximum: i32,
) -> Option<int> {
    if signed(negative, units) < minimum * one() || signed(negative, units) > maximum * one() {
        None
    } else {
        Some(signed(negative, nearest_integer(units)))
    }
}

/// Rounds a signed value to an integer, ties away from zero, unless it lies outside the limits.
pub fn to_integer_within(negative: bool, size: Magnitude, minimum: i32, maximum: i32) -> (result:
    Option<i32>)
    requires
        size.wf(),
    ensures
        match result {
            Some(integer) => integer_within(negative, size.units(), minimum, maximum) == Some(
                integer as int,
            ) && minimum <= integer <= maximum,
            None => integer_within(negative, size.units(), minimum, maximum) is None,
        },
{
    if is_below_integer(negative, size, minimum) || is_above_integer(negative, size, maximum) {
        return None;
    }
    let ghost u = size.units();
    let ghost o = one() as int;
    proof {
        lemma_pow2_pos(1074);
        let (lo, hi) = (minimum as int, maximum as int);
        assert(u < MANTISSA_LIMIT * o) by (nonlinear_arith)
            requires
                signed(negative, u) >= lo * o,
                signed(negative, u) <= hi * o,
                lo >= -0x8000_0000,
                hi <= 0x7fff_ffff,
                o > 0,
                u == signed(negative, u) || u == -signed(negative, u),
        ;
    }
    let integer: u64 = size.round_away();
    proof {
        let top = (2 * u + o) as int;
        let (lo, hi) = (minimum as int, maximum as int);
        lemma_fundamental_div_mod(top, 2 * o);
        let r = top % (2 * o);
        let i = integer as int;
        // Rounding does not cross an integer.
        if negative {
            assert(-i >= lo && (hi >= 0 || -i <= hi)) by (nonlinear_arith)
                requires
                    2 * u + o == (2 * o) * i + r,
                    0 <= r < 2 * o,
                    -u >= lo * o,
                    -u <= hi * o,
                    o > 0,
            ;
        } else {
            assert(i <= hi && (lo <= 0 || i >= lo)) by (nonlinear_arith)
                requires
                    2 * u + o == (2 * o) * i + r,
                    0 <= r < 2 * o,
                    u >= lo * o,
                    u <= hi * o,
                    o > 0,
            ;
        }
    }
    if negative {
        Some((-(integer as i64)) as i32)
    } else {
        Some(integer as i32)
    }
}

/// Bit patterns of finite values without a sign are ordered as the values are, and every value has
/// one.
pub proof fn law_bits_are_ordered(a: u64, b: u64)
    requires
        a < b < 0x7ff0_0000_0000_0000,
    ensures
        number_of_bits(a) matches Number::Finite { negative: false, magnitude: x } && (
        number_of_bits(b) matches Number::Finite { negative: false, magnitude: y } && x.wf()
            && y.wf() && x.units() < y.units()),
        number_of_bits(0) == (Number::Finite {
            negative: false,
            magnitude: Magnitude { mantissa: 0, exponent: 0 },
        }),
{
    let n = NORMAL_MANTISSA as int;
    lemma_fundamental_div_mod(a as int, n);
    lemma_fundamental_div_mod(b as int, n);
    let (p, q) = (a as int / n, b as int / n);
    let (r, t) = (a as int % n, b as int % n);
    assert(q < 2047) by {
        if q >= 2047 {
            assert(n * q >= n * 2047) by (nonlinear_arith)
                requires
                    q >= 2047,
                    n > 0,
            ;
        }
    }
    assert(p <= q) by {
        if p > q {
            assert(n * p >= n * q + n) by (nonlinear_arith)
                requires
                    p >= q + 1,
                    n > 0,
            ;
        }
    }
    let (x, y) = (number_of_bits(a)->magnitude, number_of_bits(b)->magnitude);
    lemma_order(x, y);
}

} // verus!
