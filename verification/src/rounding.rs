//! Rounding of exact quotients to 53 significant bits, to nearest, ties to even.

use vstd::arithmetic::div_mod::*;
use vstd::arithmetic::power2::*;
use vstd::prelude::*;

verus! {

/// Number of binary digits of `v`; zero has none.
pub open spec fn bit_length(v: nat) -> nat
    decreases v,
{
    if v == 0 {
        0
    } else {
        1 + bit_length(v / 2)
    }
}

/// The integer nearest to `n / d`; a tie goes to the even neighbour.
pub open spec fn half_even(n: nat, d: nat) -> nat {
    let q = n / d;
    let r = n % d;
    if 2 * r < d || (2 * r == d && q % 2 == 0) {
        q
    } else {
        q + 1
    }
}

/// How many low binary digits of `n / d` do not fit into 53 significant ones.
pub open spec fn excess_bits(n: nat, d: nat) -> nat {
    let length = bit_length(n / d);
    if length > 53 {
        (length - 53) as nat
    } else {
        0
    }
}

/// `n / d` rounded to an integer with at most 53 significant binary digits, ties to even.
pub open spec fn rounded(n: nat, d: nat) -> nat {
    let k = excess_bits(n, d);
    half_even(n, d * pow2(k)) * pow2(k)
}

pub proof fn lemma_pow2_monotone(a: nat, b: nat)
    requires
        a <= b,
    ensures
        pow2(a) <= pow2(b),
{
    if a < b {
        lemma_pow2_strictly_increases(a, b);
    }
}

/// A number of `length` binary digits lies between two powers of two.
pub proof fn lemma_bit_length_bounds(v: nat)
    ensures
        v < pow2(bit_length(v)),
        v > 0 ==> bit_length(v) >= 1 && pow2((bit_length(v) - 1) as nat) <= v,
    decreases v,
{
    lemma2_to64();
    if v > 0 {
        lemma_bit_length_bounds(v / 2);
        lemma_pow2_unfold(bit_length(v));
        if v / 2 > 0 {
            lemma_pow2_unfold((bit_length(v) - 1) as nat);
        } else {
            assert(bit_length(0) == 0);
        }
    }
}

/// The powers of two around a number give its digit count.
pub proof fn lemma_bit_length_unique(v: nat, length: nat)
    requires
        length >= 1,
        pow2((length - 1) as nat) <= v < pow2(length),
    ensures
        bit_length(v) == length,
{
    lemma_bit_length_bounds(v);
    lemma_pow2_pos((length - 1) as nat);
    let found = bit_length(v);
    if found < length {
        lemma_pow2_monotone(found, (length - 1) as nat);
    } else if found > length {
        lemma_pow2_monotone(length, (found - 1) as nat);
    }
}

/// `k` is the least exponent for which `n / d` has at most 53 digits above `2^k`.
pub open spec fn in_binade(n: nat, d: nat, k: nat) -> bool {
    &&& n < d * pow2(k + 53)
    &&& k > 0 ==> d * pow2(k + 52) <= n
}

proof fn lemma_quotient_bound(n: nat, d: nat, p: nat)
    requires
        d > 0,
    ensures
        n < d * p <==> n / d < p,
{
    let q = n / d;
    lemma_fundamental_div_mod(n as int, d as int);
    if q < p {
        assert(d * q + d <= d * p) by (nonlinear_arith)
            requires
                q + 1 <= p,
        ;
    } else {
        assert(d * p <= d * q) by (nonlinear_arith)
            requires
                p <= q,
        ;
    }
}

pub proof fn lemma_binade(n: nat, d: nat, k: nat)
    requires
        d > 0,
    ensures
        in_binade(n, d, k) <==> excess_bits(n, d) == k,
{
    let v = n / d;
    lemma_quotient_bound(n, d, pow2(k + 53));
    lemma_quotient_bound(n, d, pow2(k + 52));
    lemma_bit_length_bounds(v);
    if in_binade(n, d, k) {
        if k > 0 {
            lemma_bit_length_unique(v, k + 53);
        } else if bit_length(v) > 53 {
            lemma_pow2_monotone(53, (bit_length(v) - 1) as nat);
        }
    }
    if excess_bits(n, d) == k {
        lemma_pow2_monotone(bit_length(v), k + 53);
    }
}

/// Dividend and divisor may carry a common factor.
pub proof fn lemma_half_even_scale(n: nat, d: nat, c: nat)
    requires
        d > 0,
        c > 0,
    ensures
        half_even(n * c, d * c) == half_even(n, d),
{
    let q = n / d;
    let r = n % d;
    lemma_fundamental_div_mod(n as int, d as int);
    assert(d * c > 0 && n * c == q * (d * c) + r * c && 0 <= r * c < d * c) by (nonlinear_arith)
        requires
            n == d * q + r,
            0 <= r < d,
            c > 0,
    ;
    lemma_fundamental_div_mod_converse((n * c) as int, (d * c) as int, q as int, (r * c) as int);
    assert((2 * r < d <==> 2 * (r * c) < d * c) && (2 * r == d <==> 2 * (r * c) == d * c))
        by (nonlinear_arith)
        requires
            c > 0,
    ;
}

/// An integer quotient is not moved.
pub proof fn lemma_half_even_exact(q: nat, d: nat)
    requires
        d > 0,
    ensures
        half_even(q * d, d) == q,
{
    lemma_fundamental_div_mod_converse((q * d) as int, d as int, q as int, 0);
}

/// A larger quotient does not round to a smaller integer.
pub proof fn lemma_half_even_monotone(n1: nat, d1: nat, n2: nat, d2: nat)
    requires
        d1 > 0,
        d2 > 0,
        n1 * d2 <= n2 * d1,
    ensures
        half_even(n1, d1) <= half_even(n2, d2),
{
    let a = n1 * d2;
    let b = n2 * d1;
    let d = d1 * d2;
    lemma_half_even_scale(n1, d1, d2);
    lemma_half_even_scale(n2, d2, d1);
    assert(d2 * d1 == d && d > 0) by (nonlinear_arith)
        requires
            d == d1 * d2,
            d1 > 0,
            d2 > 0,
    ;
    let q1 = a / d;
    let q2 = b / d;
    lemma_fundamental_div_mod(a as int, d as int);
    lemma_fundamental_div_mod(b as int, d as int);
    if q1 > q2 {
        assert(d * q1 >= d * q2 + d) by (nonlinear_arith)
            requires
                q1 >= q2 + 1,
        ;
    } else if q1 == q2 {
        assert(d * q1 == d * q2);
    }
}

/// Dropping the fraction of a quotient but keeping one extra digit that tells whether there was
/// one does not change how the quotient rounds further up.
proof fn lemma_half_even_sticky(n: nat, d: nat, t: nat)
    requires
        d > 0,
        t >= 1,
    ensures
        half_even(n, d * pow2(t)) == half_even(
            2 * (n / d) + (if n % d == 0 { 0nat } else { 1nat }),
            pow2(t + 1),
        ),
{
    let q = n / d;
    let r = n % d;
    let h = pow2((t - 1) as nat);
    let p = pow2(t);
    lemma_pow2_unfold(t);
    lemma_pow2_unfold(t + 1);
    lemma_pow2_pos((t - 1) as nat);
    assert(p == 2 * h);
    let u = q / p;
    let w = q % p;
    lemma_fundamental_div_mod(n as int, d as int);
    lemma_fundamental_div_mod(q as int, p as int);
    // n == u * (d * p) + (d * w + r)
    let rest = d * w + r;
    assert(n == u * (d * p) + rest && rest < d * p && d * p > 0 && rest >= 0) by (nonlinear_arith)
        requires
            n == d * q + r,
            q == p * u + w,
            rest == d * w + r,
            0 <= r < d,
            0 <= w < p,
            p > 0,
    ;
    lemma_fundamental_div_mod_converse(n as int, (d * p) as int, u as int, rest as int);
    let s: nat = if r == 0 { 0 } else { 1 };
    let kept = 2 * q + s;
    assert(kept == u * pow2(t + 1) + (2 * w + s)) by (nonlinear_arith)
        requires
            kept == 2 * q + s,
            q == p * u + w,
            pow2(t + 1) == 2 * p,
    ;
    lemma_fundamental_div_mod_converse(
        kept as int,
        pow2(t + 1) as int,
        u as int,
        (2 * w + s) as int,
    );
    // The remainders lie on the same side of the middle.
    assert((2 * rest < d * p <==> w < h) && (2 * rest == d * p <==> (w == h && r == 0)))
        by (nonlinear_arith)
        requires
            rest == d * w + r,
            p == 2 * h,
            0 <= r < d,
            w >= 0,
            h >= 1,
    ;
}

pub proof fn lemma_rounded_scale(n: nat, d: nat, c: nat)
    requires
        d > 0,
        c > 0,
    ensures
        rounded(n * c, d * c) == rounded(n, d),
{
    lemma_div_denominator_common(n, d, c);
    let k = excess_bits(n, d);
    lemma_pow2_pos(k);
    assert(d * pow2(k) > 0) by (nonlinear_arith)
        requires
            d > 0,
            pow2(k) > 0,
    ;
    lemma_half_even_scale(n, d * pow2(k), c);
    assert((d * pow2(k)) * c == (d * c) * pow2(k)) by (nonlinear_arith);
}

proof fn lemma_div_denominator_common(n: nat, d: nat, c: nat)
    requires
        d > 0,
        c > 0,
    ensures
        (n * c) / (d * c) == n / d,
{
    let q = n / d;
    let r = n % d;
    lemma_fundamental_div_mod(n as int, d as int);
    assert(d * c > 0 && n * c == q * (d * c) + r * c && 0 <= r * c < d * c) by (nonlinear_arith)
        requires
            n == d * q + r,
            0 <= r < d,
            c > 0,
    ;
    lemma_fundamental_div_mod_converse((n * c) as int, (d * c) as int, q as int, (r * c) as int);
}

/// The bounds of what a quotient rounds to within its binade.
pub proof fn lemma_rounded_mantissa(n: nat, d: nat)
    requires
        d > 0,
    ensures
        ({
            let k = excess_bits(n, d);
            let m = half_even(n, d * pow2(k));
            &&& m <= pow2(53)
            &&& k > 0 ==> m >= pow2(52)
        }),
{
    let k = excess_bits(n, d);
    let p = pow2(k);
    let m = half_even(n, d * p);
    lemma_binade(n, d, k);
    lemma_pow2_pos(k);
    lemma_pow2_adds(k, 53);
    lemma_pow2_adds(k, 52);
    assert(d * p > 0) by (nonlinear_arith)
        requires
            d > 0,
            p > 0,
    ;
    assert(n <= pow2(53) * (d * p)) by (nonlinear_arith)
        requires
            n < d * pow2(k + 53),
            pow2(k + 53) == p * pow2(53),
    ;
    lemma_half_even_exact(pow2(53), d * p);
    assert(n * (d * p) <= (pow2(53) * (d * p)) * (d * p)) by (nonlinear_arith)
        requires
            n <= pow2(53) * (d * p),
            d * p > 0,
    ;
    lemma_half_even_monotone(n, d * p, pow2(53) * (d * p), d * p);
    if k > 0 {
        assert(pow2(52) * (d * p) <= n) by (nonlinear_arith)
            requires
                d * pow2(k + 52) <= n,
                pow2(k + 52) == p * pow2(52),
        ;
        assert((pow2(52) * (d * p)) * (d * p) <= n * (d * p)) by (nonlinear_arith)
            requires
                pow2(52) * (d * p) <= n,
                d * p > 0,
        ;
        lemma_half_even_exact(pow2(52), d * p);
        lemma_half_even_monotone(pow2(52) * (d * p), d * p, n, d * p);
    }
}

/// Rounding keeps the order of quotients.
pub proof fn lemma_rounded_monotone(n1: nat, d1: nat, n2: nat, d2: nat)
    requires
        d1 > 0,
        d2 > 0,
        n1 * d2 <= n2 * d1,
    ensures
        rounded(n1, d1) <= rounded(n2, d2),
{
    let k1 = excess_bits(n1, d1);
    let k2 = excess_bits(n2, d2);
    let p1 = pow2(k1);
    let p2 = pow2(k2);
    lemma_pow2_pos(k1);
    lemma_pow2_pos(k2);
    lemma_rounded_mantissa(n1, d1);
    lemma_rounded_mantissa(n2, d2);
    let m1 = half_even(n1, d1 * p1);
    let m2 = half_even(n2, d2 * p2);
    if k1 == k2 {
        assert(d1 * p1 > 0 && d2 * p1 > 0 && n1 * (d2 * p1) <= n2 * (d1 * p1)) by (nonlinear_arith)
            requires
                d1 > 0,
                d2 > 0,
                p1 > 0,
                n1 * d2 <= n2 * d1,
        ;
        lemma_half_even_monotone(n1, d1 * p1, n2, d2 * p1);
        assert(m1 * p1 <= m2 * p1) by (nonlinear_arith)
            requires
                m1 <= m2,
        ;
    } else if k1 < k2 {
        lemma_pow2_adds(53, k1);
        lemma_pow2_adds(52, k2);
        lemma_pow2_monotone(53 + k1, 52 + k2);
        assert(m1 * p1 <= pow2(53) * p1) by (nonlinear_arith)
            requires
                m1 <= pow2(53),
        ;
        assert(pow2(52) * p2 <= m2 * p2) by (nonlinear_arith)
            requires
                pow2(52) <= m2,
        ;
    } else {
        // The quotients would lie in binades of the wrong order.
        lemma_binade(n1, d1, k1);
        lemma_binade(n2, d2, k2);
        lemma_pow2_monotone(k2 + 53, k1 + 52);
        let a = pow2(k1 + 52);
        let b = pow2(k2 + 53);
        assert(false) by (nonlinear_arith)
            requires
                d1 > 0,
                d2 > 0,
                d1 * a <= n1,
                n2 < d2 * b,
                b <= a,
                n1 * d2 <= n2 * d1,
        {
            assert(d1 * a * d2 <= n1 * d2);
            assert(n2 * d1 < d2 * b * d1);
            assert(d2 * b * d1 <= d2 * a * d1);
        }
    }
}

/// What fits into 53 digits is not moved.
pub proof fn lemma_rounded_exact(m: nat, e: nat, d: nat)
    requires
        m < pow2(53),
        d > 0,
    ensures
        rounded((m * pow2(e)) * d, d) == m * pow2(e),
{
    let v = m * pow2(e);
    let n = v * d;
    let k = excess_bits(n, d);
    lemma_fundamental_div_mod_converse(n as int, d as int, v as int, 0);
    lemma_pow2_pos(e);
    lemma_pow2_adds(53, e);
    assert(v < pow2(53) * pow2(e)) by (nonlinear_arith)
        requires
            v == m * pow2(e),
            m < pow2(53),
            pow2(e) > 0,
    ;
    lemma_bit_length_bounds(v);
    if k > e {
        lemma_pow2_monotone(53 + e, (bit_length(v) - 1) as nat);
    }
    let c = (e - k) as nat;
    lemma_pow2_adds(c, k);
    let q = m * pow2(c);
    let p = pow2(k);
    lemma_pow2_pos(k);
    assert(v == q * p && n == q * (d * p) && d * p > 0) by (nonlinear_arith)
        requires
            v == m * pow2(e),
            pow2(e) == pow2(c) * p,
            q == m * pow2(c),
            n == v * d,
            d > 0,
            p > 0,
    ;
    lemma_half_even_exact(q, d * p);
}

/// A quotient of at least 55 digits may be replaced by its integer part and a digit that tells
/// whether there was a fraction, at any binary scale.
pub proof fn lemma_rounded_sticky(n: nat, d: nat, up: nat, down: nat)
    requires
        d > 0,
        bit_length(n / d) >= 55,
    ensures
        rounded(n * pow2(up), d * pow2(down)) == rounded(
            (2 * (n / d) + (if n % d == 0 { 0nat } else { 1nat })) * pow2(up),
            pow2(down + 1),
        ),
{
    let q = n / d;
    let r = n % d;
    let s: nat = if r == 0 { 0 } else { 1 };
    let kept = 2 * q + s;
    let length = bit_length(q);
    lemma_bit_length_bounds(q);
    lemma_fundamental_div_mod(n as int, d as int);
    lemma_pow2_pos(up);
    lemma_pow2_pos(down);
    lemma_pow2_unfold(down + 1);
    let low = pow2((length - 1) as nat);
    let high = pow2(length);
    // Both quotients lie in [2^(length - 1), 2^length).
    assert(d * low <= n < d * high) by (nonlinear_arith)
        requires
            n == d * q + r,
            0 <= r < d,
            low <= q < high,
    ;
    let k: nat = if length + up <= down + 53 {
        0
    } else {
        (length + up - down - 53) as nat
    };
    let un = pow2(up);
    let dn = pow2(down);
    // First quotient.
    lemma_pow2_adds(length, up);
    lemma_pow2_adds((length - 1) as nat, up);
    lemma_pow2_adds(down, k + 53);
    lemma_pow2_adds(down, k + 52);
    lemma_pow2_monotone(length + up, down + (k + 53));
    assert(d * dn > 0) by (nonlinear_arith)
        requires
            d > 0,
            dn > 0,
    ;
    assert(in_binade(n * un, d * dn, k)) by {
        assert(n * un < d * (high * un)) by (nonlinear_arith)
            requires
                n < d * high,
                un > 0,
        ;
        assert(d * (high * un) <= d * (dn * pow2(k + 53))) by (nonlinear_arith)
            requires
                high * un <= dn * pow2(k + 53),
        ;
        assert(d * (dn * pow2(k + 53)) == (d * dn) * pow2(k + 53)) by (nonlinear_arith);
        if k > 0 {
            assert((length - 1) as nat + up == down + (k + 52));
            assert(d * (low * un) <= n * un) by (nonlinear_arith)
                requires
                    d * low <= n,
            ;
            assert(d * (dn * pow2(k + 52)) == (d * dn) * pow2(k + 52)) by (nonlinear_arith);
        }
    }
    lemma_binade(n * un, d * dn, k);
    // Second quotient.
    let dn2 = pow2(down + 1);
    assert(in_binade(kept * un, dn2, k)) by {
        assert(kept * un < 2 * (high * un)) by (nonlinear_arith)
            requires
                kept < 2 * high,
                un > 0,
        ;
        assert(dn2 * pow2(k + 53) == 2 * (dn * pow2(k + 53))) by (nonlinear_arith)
            requires
                dn2 == 2 * dn,
        ;
        if k > 0 {
            assert(2 * (low * un) <= kept * un) by (nonlinear_arith)
                requires
                    2 * low <= kept,
            ;
            assert(dn2 * pow2(k + 52) == 2 * (dn * pow2(k + 52))) by (nonlinear_arith)
                requires
                    dn2 == 2 * dn,
            ;
        }
    }
    lemma_pow2_pos(down + 1);
    lemma_binade(kept * un, dn2, k);
    // The digits that are dropped.
    let t = (down + k - up) as nat;
    assert(down + k - up >= 2);
    lemma_pow2_adds(up, t);
    lemma_pow2_adds(down, k);
    lemma_pow2_adds(up, t + 1);
    lemma_pow2_adds(down + 1, k);
    lemma_pow2_pos(t);
    lemma_pow2_pos(t + 1);
    assert((d * dn) * pow2(k) == (d * pow2(t)) * un) by (nonlinear_arith)
        requires
            dn * pow2(k) == un * pow2(t),
    ;
    assert(dn2 * pow2(k) == pow2(t + 1) * un) by (nonlinear_arith)
        requires
            dn2 * pow2(k) == un * pow2(t + 1),
    ;
    assert(d * pow2(t) > 0) by (nonlinear_arith)
        requires
            d > 0,
            pow2(t) > 0,
    ;
    lemma_half_even_scale(n, d * pow2(t), un);
    lemma_half_even_scale(kept, pow2(t + 1), un);
    lemma_half_even_sticky(n, d, t);
}

/// Rounding a number of `j + 53` digits that a power of two follows.
pub proof fn lemma_rounded_shifted(x: nat, j: nat, g: nat)
    requires
        pow2(52 + j) <= x < pow2(53 + j),
    ensures
        rounded(x * pow2(g), 1) == half_even(x, pow2(j)) * pow2(j) * pow2(g),
{
    let p = pow2(g);
    let k = j + g;
    let n = x * p;
    lemma_pow2_pos(g);
    lemma_pow2_pos(j);
    lemma_pow2_adds(52 + j, g);
    lemma_pow2_adds(53 + j, g);
    lemma_pow2_adds(j, g);
    assert(pow2(52 + j) * p <= n && n < pow2(53 + j) * p) by (nonlinear_arith)
        requires
            n == x * p,
            pow2(52 + j) <= x < pow2(53 + j),
            p > 0,
    ;
    assert(k + 52 == (52 + j) + g && k + 53 == (53 + j) + g);
    assert(1 * pow2(k + 53) == pow2(k + 53) && 1 * pow2(k + 52) == pow2(k + 52));
    lemma_binade(n, 1, k);
    assert(1 * pow2(k) == pow2(j) * p);
    lemma_half_even_scale(x, pow2(j), p);
    let h = half_even(x, pow2(j));
    assert(h * (pow2(j) * p) == h * pow2(j) * p) by (nonlinear_arith);
}

/// The distance of an integer from `n / d`, times `d`.
pub open spec fn distance(v: nat, n: nat, d: nat) -> nat {
    if v * d >= n {
        (v * d - n) as nat
    } else {
        (n - v * d) as nat
    }
}

proof fn lemma_half_even_is_nearest(n: nat, d: nat, j: nat)
    requires
        d > 0,
    ensures
        distance(half_even(n, d), n, d) <= distance(j, n, d),
{
    let q = n / d;
    let r = n % d;
    lemma_fundamental_div_mod(n as int, d as int);
    assert(q * d == n - r && (q + 1) * d == n - r + d) by (nonlinear_arith)
        requires
            n == d * q + r,
    ;
    if j <= q {
        assert(j * d <= q * d) by (nonlinear_arith)
            requires
                j <= q,
        ;
    } else {
        assert(j * d >= (q + 1) * d) by (nonlinear_arith)
            requires
                j >= q + 1,
        ;
    }
}

/// Rounding moves a quotient by at most half of its last digit: by one part in 2^53, or by half a
/// unit where the quotient is small.
pub proof fn lemma_rounded_error(n: nat, d: nat)
    requires
        d > 0,
    ensures
        0x20_0000_0000_0000 * distance(rounded(n, d), n, d) <= n + 0x10_0000_0000_0000 * d,
{
    let k = excess_bits(n, d);
    let p = pow2(k);
    let dp = d * p;
    let q = n / dp;
    let r = n % dp;
    let h = half_even(n, dp);
    let v = rounded(n, d);
    lemma2_to64();
    lemma2_to64_rest();
    lemma_pow2_pos(k);
    lemma_pow2_adds(k, 52);
    assert(dp > 0) by (nonlinear_arith)
        requires
            dp == d * p,
            d > 0,
            p > 0,
    ;
    lemma_fundamental_div_mod(n as int, dp as int);
    assert(h * dp - n == -r || h * dp - n == dp - r) by (nonlinear_arith)
        requires
            n == dp * q + r,
            h == q || h == q + 1,
    ;
    assert(v * d == h * dp) by (nonlinear_arith)
        requires
            v == h * p,
            dp == d * p,
    ;
    assert(h == q ==> h * dp - n == -r) by (nonlinear_arith)
        requires
            n == dp * q + r,
    ;
    assert(h == q + 1 ==> h * dp - n == dp - r) by (nonlinear_arith)
        requires
            n == dp * q + r,
    ;
    assert(2 * distance(v, n, d) <= dp);
    if k == 0 {
        assert(dp == d) by (nonlinear_arith)
            requires
                dp == d * p,
                p == 1,
        ;
    } else {
        lemma_binade(n, d, k);
        assert(d * pow2(k + 52) == 0x10_0000_0000_0000 * dp) by (nonlinear_arith)
            requires
                pow2(k + 52) == p * 0x10_0000_0000_0000,
                dp == d * p,
        ;
    }
}

/// Rounding moves an integer number of units by at most one part in 2^53.
pub proof fn lemma_rounded_integer_error(v: nat, d: nat)
    requires
        d > 0,
    ensures
        0x20_0000_0000_0000 * distance(rounded(v * d, d), v, 1) <= v,
{
    lemma_rounded_scale(v, 1, d);
    assert(1 * d == d);
    lemma2_to64();
    lemma2_to64_rest();
    if v < pow2(53) {
        lemma_rounded_exact(v, 0, 1);
        assert((v * pow2(0)) * 1 == v);
    } else {
        let k = excess_bits(v, 1);
        let p = pow2(k);
        let h = half_even(v, 1 * p);
        lemma_binade(v, 1, 0);
        lemma_binade(v, 1, k);
        lemma_pow2_pos(k);
        lemma_pow2_adds(k, 52);
        lemma_fundamental_div_mod(v as int, p as int);
        let (q, r) = (v / p, v % p);
        assert(1 * p == p && 1 * pow2(k + 52) == pow2(k + 52));
        assert(h == q ==> h * p - v == -r) by (nonlinear_arith)
            requires
                v == p * q + r,
        ;
        assert(h == q + 1 ==> h * p - v == p - r) by (nonlinear_arith)
            requires
                v == p * q + r,
        ;
        assert(rounded(v, 1) * 1 == h * p);
        assert(2 * distance(rounded(v, 1), v, 1) <= p);
    }
}

/// Rounding finds a nearest value: no integer with 53 significant digits is nearer to the
/// quotient.
pub proof fn law_rounding_is_nearest(n: nat, d: nat, m: nat, e: nat)
    requires
        d > 0,
        m < pow2(53),
    ensures
        distance(rounded(n, d), n, d) <= distance(m * pow2(e), n, d),
{
    let k = excess_bits(n, d);
    let p = pow2(k);
    let q = half_even(n, d * p);
    let v = m * pow2(e);
    lemma_pow2_pos(k);
    lemma_pow2_pos(e);
    assert(d * p > 0) by (nonlinear_arith)
        requires
            d > 0,
            p > 0,
    ;
    assert((q * p) * d == q * (d * p)) by (nonlinear_arith);
    if e >= k {
        let c = (e - k) as nat;
        lemma_pow2_adds(c, k);
        let j = m * pow2(c);
        assert(v * d == j * (d * p)) by (nonlinear_arith)
            requires
                v == m * pow2(e),
                pow2(e) == pow2(c) * p,
                j == m * pow2(c),
        ;
        lemma_half_even_is_nearest(n, d * p, j);
    } else {
        // Smaller values stop short of the first one of the binade.
        lemma_binade(n, d, k);
        lemma_pow2_adds(53, e);
        lemma_pow2_adds(52, k);
        lemma_pow2_monotone(53 + e, 52 + k);
        assert(v <= pow2(53) * pow2(e)) by (nonlinear_arith)
            requires
                v == m * pow2(e),
                m < pow2(53),
        ;
        let b = pow2(52) * p;
        assert(v * d <= b * d && b * d <= n && b * d == pow2(52) * (d * p)) by (nonlinear_arith)
            requires
                v <= b,
                b == pow2(52) * p,
                b == pow2(k + 52),
                d * pow2(k + 52) <= n,
        ;
        lemma_half_even_is_nearest(n, d * p, pow2(52));
    }
}

} // verus!
