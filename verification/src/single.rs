//! Numbers in single precision (IEEE 754 binary32), held as integers.
//!
//! A finite single-precision number is a whole multiple of 2^-149. The specifications count in
//! that unit, so that every number is an integer and every rounding is one of integers.
use vstd::arithmetic::power2::pow2;
use vstd::prelude::*;

verus! {

/// The number one.
pub open spec fn one() -> nat {
    pow2(149)
}

/// The whole number nearest to `n / d`; of two that are equally near, the even one.
pub open spec fn half_even(n: nat, d: nat) -> nat {
    let q = n / d;
    let r = n % d;
    if 2 * r < d || (2 * r == d && q % 2 == 0) {
        q
    } else {
        q + 1
    }
}

/// How many binary digits `q` has beyond the 24 that single precision keeps.
pub open spec fn excess(q: nat) -> nat
    decreases q,
{
    if q < 0x100_0000 {
        0
    } else {
        1 + excess(q / 2)
    }
}

/// The single-precision number nearest to `n / d`, ties to even: what every operation on such
/// numbers returns for the exact result `n / d`, as long as that stays below 2^128.
pub open spec fn single(n: nat, d: nat) -> nat {
    let k = excess(n / d);
    half_even(n, d * pow2(k)) * pow2(k)
}

pub(crate) proof fn lemma_half_even_ratio(n: nat, d: nat, a: nat, b: nat)
    requires
        d > 0,
        b > 0,
        n * b == a * d,
    ensures
        half_even(n, d) == half_even(a, b),
{
    let q = (n / d) as int;
    let r = (n % d) as int;
    let s = a - q * b;
    vstd::arithmetic::div_mod::lemma_fundamental_div_mod(n as int, d as int);
    assert(r * b == d * s) by (nonlinear_arith)
        requires
            n == d * q + r,
            n * b == a * d,
            s == a - q * b,
    ;
    assert(0 <= s < b) by (nonlinear_arith)
        requires
            r * b == d * s,
            0 <= r < d,
            b > 0,
            d > 0,
    ;
    vstd::arithmetic::div_mod::lemma_fundamental_div_mod_converse(a as int, b as int, q, s);
    assert((2 * r < d) == (2 * s < b)) by (nonlinear_arith)
        requires
            r * b == d * s,
            b > 0,
            d > 0,
    ;
    assert((2 * r == d) == (2 * s == b)) by (nonlinear_arith)
        requires
            r * b == d * s,
            b > 0,
            d > 0,
    ;
}

pub(crate) proof fn lemma_pow2_24()
    ensures
        pow2(0) == 1,
        pow2(23) == 0x80_0000,
        pow2(24) == 0x100_0000,
        pow2(25) == 0x200_0000,
{
    vstd::arithmetic::power2::lemma2_to64();
}

/// The excess says between which powers of two a number lies.
pub(crate) proof fn lemma_excess(q: nat)
    ensures
        q < pow2(24 + excess(q)),
        excess(q) > 0 ==> pow2(23 + excess(q)) <= q,
    decreases q,
{
    lemma_pow2_24();
    if q >= 0x100_0000 {
        let h = q / 2;
        lemma_excess(h);
        vstd::arithmetic::power2::lemma_pow2_unfold(24 + excess(q));
        vstd::arithmetic::power2::lemma_pow2_unfold(23 + excess(q));
    }
}

/// Only the excess does.
proof fn lemma_excess_is(q: nat, k: nat)
    requires
        q < pow2(24 + k),
        k > 0 ==> pow2(23 + k) <= q,
    ensures
        excess(q) == k,
{
    lemma_excess(q);
    let e = excess(q);
    if e < k {
        if 24 + e < 23 + k {
            vstd::arithmetic::power2::lemma_pow2_strictly_increases(24 + e, (23 + k) as nat);
        }
    } else if k < e {
        if 24 + k < 23 + e {
            vstd::arithmetic::power2::lemma_pow2_strictly_increases(24 + k, (23 + e) as nat);
        }
    }
}

/// Rounding, where the quotient `n / d` is `2^k` times a quotient `a / b` of 24 digits.
proof fn lemma_single(n: nat, d: nat, a: nat, b: nat, k: nat)
    requires
        d > 0,
        b > 0,
        n * b == a * (d * pow2(k)),
        a < pow2(24) * b,
        k > 0 ==> pow2(23) * b <= a,
    ensures
        single(n, d) == half_even(a, b) * pow2(k),
{
    let p = pow2(k);
    vstd::arithmetic::power2::lemma_pow2_pos(k);
    vstd::arithmetic::power2::lemma_pow2_adds(24, k);
    vstd::arithmetic::power2::lemma_pow2_adds(23, k);
    let hi = pow2(24) * p;
    let lo = pow2(23) * p;
    assert(n < hi * d) by (nonlinear_arith)
        requires
            n * b == a * (d * p),
            a < pow2(24) * b,
            hi == pow2(24) * p,
            b > 0,
            d > 0,
            p > 0,
    ;
    assert(n / d < hi) by {
        vstd::arithmetic::mul::lemma_mul_is_commutative(hi as int, d as int);
        vstd::arithmetic::div_mod::lemma_multiply_divide_lt(n as int, d as int, hi as int);
    }
    if k > 0 {
        assert(lo * d <= n) by (nonlinear_arith)
            requires
                n * b == a * (d * p),
                pow2(23) * b <= a,
                lo == pow2(23) * p,
                b > 0,
                d > 0,
                p > 0,
        ;
        vstd::arithmetic::div_mod::lemma_div_is_ordered((lo * d) as int, n as int, d as int);
        vstd::arithmetic::div_mod::lemma_div_by_multiple(lo as int, d as int);
    }
    lemma_excess_is(n / d, k);
    assert(d * p > 0) by (nonlinear_arith)
        requires
            d > 0,
            p > 0,
    ;
    lemma_half_even_ratio(n, d * p, a, b);
}

/// A common factor changes nothing.
pub(crate) proof fn lemma_single_scaled(n: nat, d: nat, c: nat)
    requires
        d > 0,
        c > 0,
    ensures
        single(n * c, d * c) == single(n, d),
{
    assert(d * c > 0) by (nonlinear_arith)
        requires
            d > 0,
            c > 0,
    ;
    vstd::arithmetic::div_mod::lemma_div_multiples_vanish_quotient(c as int, n as int, d as int);
    vstd::arithmetic::mul::lemma_mul_is_commutative(n as int, c as int);
    vstd::arithmetic::mul::lemma_mul_is_commutative(d as int, c as int);
    let p = pow2(excess(n / d));
    vstd::arithmetic::power2::lemma_pow2_pos(excess(n / d));
    assert((n * c) * (d * p) == n * ((d * c) * p)) by (nonlinear_arith);
    assert((d * c) * p > 0 && d * p > 0) by (nonlinear_arith)
        requires
            d > 0,
            c > 0,
            p > 0,
    ;
    lemma_half_even_ratio(n * c, (d * c) * p, n, d * p);
}

/// A number of at most 24 digits is left as it is, whatever power of two it is multiplied by.
pub(crate) proof fn lemma_single_exact(t: nat, j: nat)
    requires
        t < 0x100_0000,
    ensures
        single(t * pow2(j), 1) == t * pow2(j),
{
    let n = t * pow2(j);
    let k = excess(n);
    lemma_pow2_24();
    lemma_excess(n);
    assert(n / 1 == n);
    if k > 0 {
        if j < k {
            vstd::arithmetic::power2::lemma_pow2_adds(24, j);
            assert(n < pow2(24) * pow2(j)) by (nonlinear_arith)
                requires
                    n == t * pow2(j),
                    t < pow2(24),
                    pow2(j) > 0,
            ;
            if 24 + j < 23 + k {
                vstd::arithmetic::power2::lemma_pow2_strictly_increases(24 + j, 23 + k);
            }
        }
        let i = (j - k) as nat;
        vstd::arithmetic::power2::lemma_pow2_adds(i, k);
        vstd::arithmetic::power2::lemma_pow2_pos(k);
        let m = t * pow2(i);
        assert(n == m * pow2(k)) by (nonlinear_arith)
            requires
                n == t * pow2(j),
                m == t * pow2(i),
                pow2(j) == pow2(i) * pow2(k),
        ;
        lemma_half_even_ratio(n, pow2(k), m, 1);
        assert(half_even(m, 1) == m);
        assert(1 * pow2(k) == pow2(k));
    } else {
        assert(half_even(n, 1) == n);
    }
}

/// Rounding a whole multiple of a power of two.
pub(crate) proof fn lemma_single_shifted(t: nat, j: nat)
    ensures
        single(t * pow2(j), 1) == half_even(t, pow2(excess(t))) * pow2(excess(t) + j),
{
    let s = excess(t);
    lemma_pow2_24();
    lemma_excess(t);
    vstd::arithmetic::power2::lemma_pow2_pos(s);
    vstd::arithmetic::power2::lemma_pow2_pos(j);
    if s == 0 {
        lemma_single_exact(t, j);
        assert(half_even(t, 1) == t);
    } else {
        vstd::arithmetic::power2::lemma_pow2_adds(24, s);
        vstd::arithmetic::power2::lemma_pow2_adds(23, s);
        vstd::arithmetic::power2::lemma_pow2_adds(s, j);
        assert((t * pow2(j)) * pow2(s) == t * (1 * pow2(s + j))) by (nonlinear_arith)
            requires
                pow2(s + j) == pow2(s) * pow2(j),
        ;
        lemma_single(t * pow2(j), 1, t, pow2(s), s + j);
    }
}

pub(crate) proof fn lemma_half_even_ordered(m: nat, n: nat, d: nat)
    requires
        d > 0,
        m <= n,
    ensures
        half_even(m, d) <= half_even(n, d),
{
    vstd::arithmetic::div_mod::lemma_div_is_ordered(m as int, n as int, d as int);
    vstd::arithmetic::div_mod::lemma_fundamental_div_mod(m as int, d as int);
    vstd::arithmetic::div_mod::lemma_fundamental_div_mod(n as int, d as int);
}

/// Where the rounded number lies.
proof fn lemma_single_range(n: nat, d: nat)
    requires
        d > 0,
    ensures
        single(n, d) <= pow2(24 + excess(n / d)),
        excess(n / d) > 0 ==> pow2(23 + excess(n / d)) <= single(n, d),
{
    let q = n / d;
    let k = excess(q);
    let p = pow2(k);
    lemma_pow2_24();
    lemma_excess(q);
    vstd::arithmetic::power2::lemma_pow2_pos(k);
    vstd::arithmetic::power2::lemma_pow2_adds(24, k);
    vstd::arithmetic::power2::lemma_pow2_adds(23, k);
    vstd::arithmetic::div_mod::lemma_div_denominator(n as int, d as int, p as int);
    let h = half_even(n, d * p);
    vstd::arithmetic::mul::lemma_mul_is_commutative(0x100_0000, p as int);
    vstd::arithmetic::div_mod::lemma_multiply_divide_lt(q as int, p as int, 0x100_0000);
    assert(h * p <= 0x100_0000 * p) by (nonlinear_arith)
        requires
            h <= 0x100_0000,
    ;
    if k > 0 {
        vstd::arithmetic::div_mod::lemma_div_is_ordered(
            (0x80_0000 * p) as int,
            q as int,
            p as int,
        );
        vstd::arithmetic::div_mod::lemma_div_by_multiple(0x80_0000, p as int);
        assert(0x80_0000 * p <= h * p) by (nonlinear_arith)
            requires
                h >= 0x80_0000,
        ;
    }
}

/// The nearest whole number is off by no more than a half.
pub(crate) proof fn lemma_half_even_near(n: nat, d: nat)
    requires
        d > 0,
    ensures
        2 * (half_even(n, d) * d) <= 2 * n + d,
        2 * n <= 2 * (half_even(n, d) * d) + d,
{
    let q = n / d;
    let r = n % d;
    vstd::arithmetic::div_mod::lemma_fundamental_div_mod(n as int, d as int);
    assert(q * d == d * q) by (nonlinear_arith);
    assert((q + 1) * d == d * q + d) by (nonlinear_arith);
}

/// Rounding to single precision changes a number by no more than one part in 2^24, unless the
/// number is so small that it has fewer digits.
pub(crate) proof fn lemma_single_near(n: nat, d: nat)
    requires
        d > 0,
        n >= 0x80_0000 * d,
    ensures
        0x100_0000 * (single(n, d) * d) <= 0x100_0001 * n,
        0xff_ffff * n <= 0x100_0000 * (single(n, d) * d),
{
    let q = n / d;
    let k = excess(q);
    let p = pow2(k);
    let e = d * p;
    let h = half_even(n, e);
    lemma_pow2_24();
    lemma_excess(q);
    vstd::arithmetic::power2::lemma_pow2_pos(k);
    vstd::arithmetic::power2::lemma_pow2_adds(23, k);
    assert(e > 0) by (nonlinear_arith)
        requires
            e == d * p,
            d > 0,
            p > 0,
    ;
    lemma_half_even_near(n, e);
    assert((h * p) * d == h * e) by (nonlinear_arith)
        requires
            e == d * p,
    ;
    assert(0x80_0000 * e <= n) by {
        if k == 0 {
            assert(d * 1 == d);
        } else {
            vstd::arithmetic::div_mod::lemma_fundamental_div_mod(n as int, d as int);
            assert(0x80_0000 * e <= n) by (nonlinear_arith)
                requires
                    e == d * p,
                    0x80_0000 * p <= q,
                    d * q <= n,
                    d > 0,
            ;
        }
    }
}

/// Rounding keeps the order of numbers.
pub proof fn lemma_single_ordered(m: nat, n: nat, d: nat)
    requires
        d > 0,
        m <= n,
    ensures
        single(m, d) <= single(n, d),
{
    let j = excess(m / d);
    let k = excess(n / d);
    vstd::arithmetic::div_mod::lemma_div_is_ordered(m as int, n as int, d as int);
    lemma_excess(m / d);
    lemma_excess(n / d);
    lemma_single_range(m, d);
    lemma_single_range(n, d);
    if j == k {
        let p = pow2(k);
        vstd::arithmetic::power2::lemma_pow2_pos(k);
        assert(d * p > 0) by (nonlinear_arith)
            requires
                d > 0,
                p > 0,
        ;
        lemma_half_even_ordered(m, n, d * p);
        let a = half_even(m, d * p);
        let b = half_even(n, d * p);
        assert(a * p <= b * p) by (nonlinear_arith)
            requires
                a <= b,
        ;
    } else if j < k {
        if 24 + j < 23 + k {
            vstd::arithmetic::power2::lemma_pow2_strictly_increases(24 + j, 23 + k);
        }
    } else {
        if 24 + k < 23 + j {
            vstd::arithmetic::power2::lemma_pow2_strictly_increases(24 + k, 23 + j);
        }
    }
}

// ---------------------------------------------------------------------------
// Computing

/// Two to the power of `k`.
pub(crate) fn two_to(k: u32) -> (p: u128)
    requires
        k <= 126,
    ensures
        p == pow2(k as nat),
        0 < p <= 0x4000_0000_0000_0000_0000_0000_0000_0000,
{
    let mut p: u128 = 1;
    proof {
        lemma_pow2_24();
        lemma_pow2_126();
    }
    for i in 0..k
        invariant
            k <= 126,
            p == pow2(i as nat),
            0 < p <= 0x4000_0000_0000_0000_0000_0000_0000_0000,
            pow2(126) == 0x4000_0000_0000_0000_0000_0000_0000_0000,
    {
        proof {
            vstd::arithmetic::power2::lemma_pow2_unfold((i + 1) as nat);
            if i + 1 < 126 {
                vstd::arithmetic::power2::lemma_pow2_strictly_increases((i + 1) as nat, 126);
            }
        }
        p = p * 2;
    }
    p
}

pub(crate) proof fn lemma_pow2_126()
    ensures
        pow2(126) == 0x4000_0000_0000_0000_0000_0000_0000_0000,
{
    vstd::arithmetic::power2::lemma2_to64();
    vstd::arithmetic::power2::lemma2_to64_rest();
    vstd::arithmetic::power2::lemma_pow2_adds(63, 63);
}

/// The whole number nearest to `a / b`, ties to even.
pub(crate) fn nearest(a: u128, b: u128) -> (q: u128)
    requires
        0 < b <= 0x4000_0000_0000_0000_0000_0000_0000_0000,
        a <= 0x4000_0000_0000_0000_0000_0000_0000_0000,
    ensures
        q == half_even(a as nat, b as nat),
{
    let q: u128 = a / b;
    let r: u128 = a % b;
    proof {
        assert(q <= a) by (nonlinear_arith)
            requires
                q == a / b,
                b > 0,
        ;
    }
    if 2 * r < b || (2 * r == b && q % 2 == 0) {
        q
    } else {
        q + 1
    }
}

/// `t` rounded to 24 binary digits: the digits, and how many were left off.
pub(crate) fn round_off(t: u128) -> (res: (u64, u32))
    requires
        t < 0x4000_0000_0000_0000_0000_0000_0000_0000,
    ensures
        res.0 == half_even(t as nat, pow2(excess(t as nat))),
        res.1 == excess(t as nat),
        res.0 <= 0x100_0000,
        res.1 > 0 ==> res.0 >= 0x80_0000,
        res.1 <= 103,
{
    let mut q: u128 = t;
    let mut shift: u32 = 0;
    let mut p: u128 = 1;
    proof {
        lemma_pow2_24();
        assert(t / 1 == t);
    }
    while q >= 0x100_0000
        invariant
            t < 0x4000_0000_0000_0000_0000_0000_0000_0000,
            p == pow2(shift as nat),
            p > 0,
            q == t / p,
            excess(t as nat) == shift + excess(q as nat),
            shift <= 103,
        decreases q,
    {
        proof {
            assert(q * p <= t) by (nonlinear_arith)
                requires
                    q == t / p,
                    p > 0,
            ;
            assert(0x100_0000 * p <= t) by (nonlinear_arith)
                requires
                    q * p <= t,
                    q >= 0x100_0000,
                    p > 0,
            ;
            lemma_pow2_126();
            if shift >= 103 {
                vstd::arithmetic::power2::lemma_pow2_adds(24, shift as nat);
                lemma_pow2_24();
                if 126 < 24 + shift {
                    vstd::arithmetic::power2::lemma_pow2_strictly_increases(126, (24 + shift) as nat);
                }
            }
            vstd::arithmetic::power2::lemma_pow2_unfold((shift + 1) as nat);
            vstd::arithmetic::div_mod::lemma_div_denominator(t as int, p as int, 2);
        }
        q = q / 2;
        shift = shift + 1;
        p = p * 2;
    }
    proof {
        lemma_excess(t as nat);
        lemma_pow2_24();
        lemma_pow2_126();
        if shift > 0 {
            if shift > 102 {
                if 23 + shift > 126 {
                    vstd::arithmetic::power2::lemma_pow2_strictly_increases(126, (23 + shift) as nat);
                }
            }
            vstd::arithmetic::power2::lemma_pow2_adds(23, shift as nat);
            assert(0x80_0000 * p <= t);
            vstd::arithmetic::div_mod::lemma_div_is_ordered(
                (0x80_0000 * p) as int,
                t as int,
                p as int,
            );
            vstd::arithmetic::div_mod::lemma_div_by_multiple(0x80_0000, p as int);
        }
        if shift < 126 {
            vstd::arithmetic::power2::lemma_pow2_strictly_increases(shift as nat, 126);
        }
    }
    let mant: u128 = nearest(t, p);
    (mant as u64, shift)
}

/// A number in single precision that is not negative: `mant * 2^exp`, with 24 binary digits in
/// `mant` where the number is not zero.
#[derive(Clone, Copy, Debug, PartialEq, Eq, Structural)]
pub struct Single {
    pub mant: u64,
    pub exp: i32,
}

impl Single {
    /// The number, counted in units of 2^-149.
    pub open spec fn units(self) -> nat {
        self.mant as nat * pow2((self.exp + 149) as nat)
    }

    /// A number other than zero, with its exponent in the given range.
    pub open spec fn normal(self, low: int, high: int) -> bool {
        0x80_0000 <= self.mant < 0x100_0000 && low <= self.exp <= high
    }

    /// `mant * 2^exp`, with the digits of `mant` brought to 24.
    fn normalized(mant: u64, exp: i32) -> (res: Single)
        requires
            0 < mant <= 0x100_0000,
            -126 <= exp <= 1000,
        ensures
            res.units() == mant as nat * pow2((exp + 149) as nat),
            res.normal(exp - 23, exp + 1),
            mant >= 0x80_0000 ==> res.exp >= exp,
    {
        let mut m: u64 = mant;
        let mut e: i32 = exp;
        if m == 0x100_0000 {
            proof {
                vstd::arithmetic::power2::lemma_pow2_unfold((exp + 150) as nat);
                assert(0x80_0000nat * pow2((exp + 150) as nat) == 0x100_0000nat * pow2(
                    (exp + 149) as nat,
                ));
            }
            return Single { mant: 0x80_0000, exp: exp + 1 };
        }
        let ghost mut steps: nat = 0;
        proof {
            lemma_pow2_24();
            assert(mant * 1 == mant);
        }
        while m < 0x80_0000
            invariant
                0 < m < 0x100_0000,
                -126 <= exp <= 1000,
                e == exp - steps,
                m == mant * pow2(steps),
                mant > 0,
                m as nat * pow2((e + 149) as nat) == mant as nat * pow2((exp + 149) as nat),
                steps <= 23,
                mant >= 0x80_0000 ==> steps == 0,
            decreases 0x100_0000 - m,
        {
            proof {
                lemma_pow2_24();
                vstd::arithmetic::power2::lemma_pow2_pos(steps);
                assert(m >= mant) by (nonlinear_arith)
                    requires
                        m == mant * pow2(steps),
                        pow2(steps) > 0,
                ;
                if steps >= 23 {
                    assert(m >= 0x80_0000) by (nonlinear_arith)
                        requires
                            m == mant * pow2(steps),
                            mant > 0,
                            pow2(steps) == 0x80_0000,
                    ;
                }
                vstd::arithmetic::power2::lemma_pow2_unfold(steps + 1);
                vstd::arithmetic::power2::lemma_pow2_unfold((e + 149) as nat);
                let p = pow2((e + 148) as nat);
                assert((2 * m) * p == m * (2 * p)) by (nonlinear_arith);
                assert(2 * (mant * pow2(steps)) == mant * (2 * pow2(steps))) by (nonlinear_arith);
                steps = steps + 1;
            }
            m = m * 2;
            e = e - 1;
        }
        Single { mant: m, exp: e }
    }

    /// A whole number in single precision.
    pub fn from_int(n: u64) -> (res: Single)
        ensures
            res.units() == single(n as nat * one(), 1),
            n == 0 ==> res.mant == 0 && res.exp == 0,
            n > 0 ==> res.normal(-23, 42),
            0 < n <= u32::MAX ==> res.normal(-23, 10),
    {
        proof {
            lemma_single_shifted(n as nat, 149);
            lemma_pow2_24();
        }
        if n == 0 {
            assert(half_even(0, pow2(0)) == 0);
            assert(0 * pow2(149) == 0);
            return Single { mant: 0, exp: 0 };
        }
        let (mant, shift) = round_off(n as u128);
        proof {
            lemma_excess(n as nat);
            if shift > 41 {
                vstd::arithmetic::power2::lemma2_to64();
                vstd::arithmetic::power2::lemma_pow2_strictly_increases(64, (23 + shift) as nat);
            }
            if n <= u32::MAX && shift > 9 {
                vstd::arithmetic::power2::lemma2_to64();
                vstd::arithmetic::power2::lemma_pow2_strictly_increases(32, (23 + shift) as nat);
            }
            if shift == 0 {
                let t = n as nat;
                assert(t / 1 == t && t % 1 == 0);
                assert(half_even(t, 1) == t);
            }
        }
        Self::normalized(mant, shift as i32)
    }

    /// The quotient of two numbers.
    pub fn div(self, other: Single) -> (res: Single)
        requires
            self.mant == 0 && self.exp == 0 || self.normal(-60, 60),
            other.normal(-60, 60),
            self.exp - other.exp >= -100,
        ensures
            res.units() == single(self.units() * one(), other.units()),
            self.mant == 0 ==> res.mant == 0 && res.exp == 0,
            self.mant != 0 ==> res.normal(self.exp - other.exp - 24, self.exp - other.exp - 22),
    {
        let ghost d = other.units();
        let ghost n = self.units() * one();
        proof {
            vstd::arithmetic::power2::lemma_pow2_pos((other.exp + 149) as nat);
            assert(d > 0) by (nonlinear_arith)
                requires
                    d == other.mant as nat * pow2((other.exp + 149) as nat),
                    other.mant > 0,
                    pow2((other.exp + 149) as nat) > 0,
            ;
        }
        if self.mant == 0 {
            proof {
                assert(0 * pow2(149) == 0);
                assert(n == 0);
                lemma_pow2_24();
                assert(0nat / d == 0) by {
                    vstd::arithmetic::div_mod::lemma_div_of0(d as int);
                }
                assert(d * 1 == d);
                assert(excess(0) == 0);
                assert(0nat % d == 0) by {
                    vstd::arithmetic::div_mod::lemma_small_mod(0, d);
                }
            }
            return Single { mant: 0, exp: 0 };
        }
        let b: u128 = other.mant as u128;
        let wide = self.mant >= other.mant;
        let a: u128 = if wide {
            self.mant as u128 * 0x80_0000
        } else {
            self.mant as u128 * 0x100_0000
        };
        let exp: i32 = if wide {
            self.exp - other.exp - 23
        } else {
            self.exp - other.exp - 24
        };
        let q: u128 = nearest(a, b);
        proof {
            lemma_pow2_24();
            let s: nat = if wide {
                23
            } else {
                24
            };
            let k = (exp + 149) as nat;
            let pa = pow2((self.exp + 149) as nat);
            let pb = pow2((other.exp + 149) as nat);
            let pk = pow2(k);
            let ps = pow2(s);
            vstd::arithmetic::power2::lemma_pow2_adds((self.exp + 149) as nat, 149);
            vstd::arithmetic::power2::lemma_pow2_adds((other.exp + 149) as nat, k);
            vstd::arithmetic::power2::lemma_pow2_adds(s, ((other.exp + 149) as nat + k) as nat);
            assert(pa * one() == ps * (pb * pk));
            assert(a == self.mant * ps);
            assert(n * b == a * (d * pk)) by (nonlinear_arith)
                requires
                    n == (self.mant * pa) * one(),
                    d == b * pb,
                    a == self.mant * ps,
                    pa * one() == ps * (pb * pk),
            ;
            lemma_single(n, d, a as nat, b as nat, k);
            assert(0x80_0000 <= q <= 0x100_0000) by {
                vstd::arithmetic::div_mod::lemma_div_is_ordered(
                    (0x80_0000 * b) as int,
                    a as int,
                    b as int,
                );
                vstd::arithmetic::div_mod::lemma_div_by_multiple(0x80_0000, b as int);
                vstd::arithmetic::mul::lemma_mul_is_commutative(0x100_0000, b as int);
                vstd::arithmetic::div_mod::lemma_multiply_divide_lt(
                    a as int,
                    b as int,
                    0x100_0000,
                );
            }
        }
        Self::normalized(q as u64, exp)
    }

    /// The product of two numbers.
    pub fn mul(self, other: Single) -> (res: Single)
        requires
            self.normal(-60, 60),
            other.normal(-60, 60),
        ensures
            res.units() == single(self.units() * other.units(), one()),
            res.normal(self.exp + other.exp, self.exp + other.exp + 26),
    {
        proof {
            let x = self.mant as int;
            let y = other.mant as int;
            assert(0x80_0000 * 0x80_0000 <= x * y < 0x100_0000 * 0x100_0000) by (nonlinear_arith)
                requires
                    0x80_0000 <= x < 0x100_0000,
                    0x80_0000 <= y < 0x100_0000,
            ;
        }
        let t: u128 = self.mant as u128 * other.mant as u128;
        let (mant, shift) = round_off(t);
        let exp: i32 = self.exp + other.exp + shift as i32;
        proof {
            let j = (self.exp + other.exp + 149) as nat;
            let pa = pow2((self.exp + 149) as nat);
            let pb = pow2((other.exp + 149) as nat);
            vstd::arithmetic::power2::lemma_pow2_pos(149);
            vstd::arithmetic::power2::lemma_pow2_adds((self.exp + 149) as nat, (other.exp + 149) as nat);
            vstd::arithmetic::power2::lemma_pow2_adds(j, 149);
            let n = t as nat * pow2(j);
            assert(self.units() * other.units() == n * one()) by (nonlinear_arith)
                requires
                    self.units() == self.mant as nat * pa,
                    other.units() == other.mant as nat * pb,
                    t as nat == self.mant as nat * other.mant as nat,
                    n == t as nat * pow2(j),
                    pa * pb == pow2(j) * one(),
            ;
            lemma_single_scaled(n, 1, one());
            lemma_single_shifted(t as nat, j);
            lemma_excess(t as nat);
            vstd::arithmetic::power2::lemma2_to64();
            vstd::arithmetic::power2::lemma2_to64_rest();
            if shift >= 25 {
                if 48 < 23 + shift {
                    vstd::arithmetic::power2::lemma_pow2_strictly_increases(48, (23 + shift) as nat);
                }
            }
            if shift == 0 {
                assert(t < pow2(24));
            }
        }
        Self::normalized(mant, exp)
    }

    /// The whole part of a number, and the rest of it as `m * 2^e`. Both are exact.
    pub fn parts(self) -> (res: (u128, u64, i32))
        requires
            self.mant == 0 && self.exp == 0 || self.normal(-100, 100),
        ensures
            res.0 == self.units() / one(),
            res.1 as nat * pow2((res.2 + 149) as nat) == self.units() % one(),
            res.1 < 0x100_0000,
            -100 <= res.2 <= 0,
            res.1 < pow2((-res.2) as nat),
            res.2 == 0 || res.2 == self.exp,
    {
        if self.exp >= 0 {
            let p = two_to(self.exp as u32);
            proof {
                vstd::arithmetic::power2::lemma_pow2_adds(self.exp as nat, 149);
                vstd::arithmetic::power2::lemma_pow2_pos(149);
                let w = self.mant as nat * pow2(self.exp as nat);
                assert(self.units() == w * one()) by (nonlinear_arith)
                    requires
                        self.units() == self.mant as nat * (pow2(self.exp as nat) * one()),
                        w == self.mant as nat * pow2(self.exp as nat),
                ;
                vstd::arithmetic::div_mod::lemma_div_by_multiple(w as int, one() as int);
                vstd::arithmetic::div_mod::lemma_mod_multiples_basic(w as int, one() as int);
                assert(0 * pow2(149) == 0);
                lemma_pow2_24();
                assert(w < 0x4000_0000_0000_0000_0000_0000_0000_0000) by {
                    lemma_pow2_126();
                    vstd::arithmetic::power2::lemma_pow2_adds(24, self.exp as nat);
                    vstd::arithmetic::power2::lemma_pow2_strictly_increases(
                        (24 + self.exp) as nat,
                        126,
                    );
                    assert(w < 0x100_0000 * p) by (nonlinear_arith)
                        requires
                            w == self.mant as nat * p,
                            self.mant < 0x100_0000,
                            p > 0,
                    ;
                }
            }
            (self.mant as u128 * p, 0, 0)
        } else {
            let p = two_to((-self.exp) as u32);
            proof {
                let c = pow2((self.exp + 149) as nat);
                vstd::arithmetic::power2::lemma_pow2_pos((self.exp + 149) as nat);
                vstd::arithmetic::power2::lemma_pow2_adds(
                    (self.exp + 149) as nat,
                    (-self.exp) as nat,
                );
                let m = self.mant as int;
                vstd::arithmetic::mul::lemma_mul_is_commutative(m, c as int);
                vstd::arithmetic::div_mod::lemma_div_multiples_vanish_quotient(
                    c as int,
                    m,
                    p as int,
                );
                vstd::arithmetic::div_mod::lemma_truncate_middle(m, c as int, p as int);
                vstd::arithmetic::mul::lemma_mul_is_commutative(m % p as int, c as int);
                vstd::arithmetic::div_mod::lemma_mod_decreases(self.mant as nat, p as nat);
            }
            let whole: u128 = self.mant as u128 / p;
            let rest: u128 = self.mant as u128 % p;
            (whole, rest as u64, self.exp)
        }
    }

    /// The bit pattern of a number.
    pub fn to_bits(self) -> (bits: u32)
        requires
            self.mant == 0 || self.normal(-149, 104),
        ensures
            bits < INFINITY,
            self.mant != 0 ==> units_of(bits) == self.units(),
            self.mant == 0 ==> bits == 0 && units_of(bits) == 0,
    {
        if self.mant == 0 {
            assert(0 * pow2(0) == 0);
            return 0;
        }
        let k: u32 = (self.exp + 149) as u32;
        let bits: u32 = self.mant as u32 + k * 0x80_0000;
        assert(bits / 0x80_0000 == k + 1);
        bits
    }
}

/// The bit pattern of infinity: those below it are the finite numbers that are not negative.
pub const INFINITY: u32 = 0x7f80_0000;

/// The bit pattern of the sign.
pub const SIGN: u32 = 0x8000_0000;

/// The number with the given bit pattern, in units of 2^-149, where it is finite and has no sign.
pub open spec fn units_of(bits: u32) -> nat {
    let k: nat = if bits < 0x80_0000 {
        0
    } else {
        (bits / 0x80_0000 - 1) as nat
    };
    (bits - k * 0x80_0000) as nat * pow2(k)
}

/// The digits of the number with the given bit pattern, and the power of two that they are
/// multiples of, in units of [`one`].
pub(crate) fn split_bits(bits: u32) -> (res: (u64, u32))
    requires
        bits < INFINITY,
    ensures
        res.0 as nat * pow2(res.1 as nat) == units_of(bits),
        res.0 < 0x100_0000,
        res.1 <= 253,
        bits <= 0x3f80_0000 ==> res.1 <= 126,
{
    let k: u32 = if bits < 0x80_0000 {
        0
    } else {
        bits / 0x80_0000 - 1
    };
    ((bits - k * 0x80_0000) as u64, k)
}

/// Patterns are ordered as the numbers are.
pub proof fn lemma_units_ordered(a: u32, b: u32)
    requires
        a < b < INFINITY,
    ensures
        units_of(a) < units_of(b),
{
    let j: nat = if a < 0x80_0000 {
        0
    } else {
        (a / 0x80_0000 - 1) as nat
    };
    let k: nat = if b < 0x80_0000 {
        0
    } else {
        (b / 0x80_0000 - 1) as nat
    };
    let x = (a - j * 0x80_0000) as nat;
    let y = (b - k * 0x80_0000) as nat;
    vstd::arithmetic::power2::lemma_pow2_pos(j);
    if j == k {
        assert(x * pow2(j) < y * pow2(j)) by (nonlinear_arith)
            requires
                x < y,
                pow2(j) > 0,
        ;
    } else {
        assert(x < 0x100_0000 && y >= 0x80_0000);
        lemma_pow2_24();
        vstd::arithmetic::power2::lemma_pow2_adds(24, j);
        vstd::arithmetic::power2::lemma_pow2_adds(23, k);
        if 24 + j < 23 + k {
            vstd::arithmetic::power2::lemma_pow2_strictly_increases(24 + j, 23 + k);
        }
        assert(x * pow2(j) < 0x100_0000 * pow2(j)) by (nonlinear_arith)
            requires
                x < 0x100_0000,
                pow2(j) > 0,
        ;
        assert(0x80_0000 * pow2(k) <= y * pow2(k)) by (nonlinear_arith)
            requires
                y >= 0x80_0000,
        ;
    }
}

/// Rounding to a whole number: no other whole number is nearer, and where two are equally near,
/// the even one is taken.
pub proof fn law_nearest_whole(n: nat, d: nat, other: nat)
    requires
        d > 0,
    ensures
        half_even(n, d) * d <= n ==> n - half_even(n, d) * d <= other * d - n || other * d <= half_even(
            n,
            d,
        ) * d,
        half_even(n, d) * d >= n ==> half_even(n, d) * d - n <= n - other * d || other * d >= half_even(
            n,
            d,
        ) * d,
        2 * (half_even(n, d) * d) == 2 * n + d || 2 * (half_even(n, d) * d) + d == 2 * n ==> half_even(
            n,
            d,
        ) % 2 == 0,
{
    let q = n / d;
    let h = half_even(n, d);
    lemma_half_even_near(n, d);
    vstd::arithmetic::div_mod::lemma_fundamental_div_mod(n as int, d as int);
    assert(q * d == d * q) by (nonlinear_arith);
    assert((q + 1) * d == d * q + d) by (nonlinear_arith);
    assert(other > h ==> other * d >= h * d + d) by (nonlinear_arith)
        requires
            d > 0,
    ;
    assert(other < h ==> other * d + d <= h * d) by (nonlinear_arith)
        requires
            d > 0,
    ;
    assert(other == h ==> other * d == h * d);
}

/// Rounding to single precision: the result has at most 24 binary digits, is off by no more than
/// one part in 2^24 where the number has that many, and is the number itself where the number can
/// be written so; larger numbers do not become smaller ones.
pub proof fn law_single_precision(n: nat, d: nat, more: nat, t: nat, j: nat)
    requires
        d > 0,
        t < 0x100_0000,
    ensures
        exists|k: nat|
            single(n, d) % #[trigger] pow2(k) == 0 && single(n, d) <= 0x100_0000 * pow2(k),
        n >= 0x80_0000 * d ==> 0xff_ffff * n <= 0x100_0000 * (single(n, d) * d) <= 0x100_0001 * n,
        single(n, d) <= single(n + more, d),
        single(t * pow2(j), 1) == t * pow2(j),
{
    lemma_single_ordered(n, n + more, d);
    lemma_single_exact(t, j);
    if n >= 0x80_0000 * d {
        lemma_single_near(n, d);
    }
    let k = excess(n / d);
    let p = pow2(k);
    let h = half_even(n, d * p);
    lemma_pow2_24();
    lemma_excess(n / d);
    vstd::arithmetic::power2::lemma_pow2_pos(k);
    vstd::arithmetic::power2::lemma_pow2_adds(24, k);
    vstd::arithmetic::div_mod::lemma_fundamental_div_mod(n as int, d as int);
    let e = d * p;
    assert(e > 0 && n < 0x100_0000 * e) by (nonlinear_arith)
        requires
            e == d * p,
            n < d * (n / d) + d,
            n / d + 1 <= 0x100_0000 * p,
            d > 0,
            p > 0,
    ;
    lemma_half_even_near(n, e);
    assert(h <= 0x100_0000) by (nonlinear_arith)
        requires
            2 * (h * e) <= 2 * n + e,
            n < 0x100_0000 * e,
            e > 0,
    ;
    vstd::arithmetic::div_mod::lemma_mod_multiples_basic(h as int, p as int);
    assert(h * p <= 0x100_0000 * p) by (nonlinear_arith)
        requires
            h <= 0x100_0000,
    ;
    assert(single(n, d) % pow2(k) == 0);
}

/// What a bit pattern stands for: zero, one, and each next pattern the next number; eight million
/// patterns further on stands twice the number.
pub proof fn law_bit_patterns(bits: u32)
    requires
        bits < INFINITY,
    ensures
        units_of(0) == 0,
        units_of(0x3f80_0000) == one(),
        bits < 0x80_0000 ==> units_of(bits) == bits,
        bits + 1 < INFINITY ==> units_of(bits) < units_of((bits + 1) as u32),
        0x80_0000 <= bits && bits + 0x80_0000 < INFINITY ==> units_of((bits + 0x80_0000) as u32) == 2
            * units_of(bits),
{
    lemma_pow2_24();
    vstd::arithmetic::power2::lemma_pow2_adds(23, 126);
    if bits + 1 < INFINITY {
        lemma_units_ordered(bits, (bits + 1) as u32);
    }
    assert(0 * pow2(0) == 0);
    if bits < 0x80_0000 {
        assert(bits as nat * 1 == bits);
    } else if bits + 0x80_0000 < INFINITY {
        let k = (bits / 0x80_0000 - 1) as nat;
        let m = (bits - k * 0x80_0000) as nat;
        let next = (bits + 0x80_0000) as u32;
        assert(next / 0x80_0000 == bits / 0x80_0000 + 1);
        vstd::arithmetic::power2::lemma_pow2_unfold(k + 1);
        assert(m * (2 * pow2(k)) == 2 * (m * pow2(k))) by (nonlinear_arith);
    }
}

/// What is rounded to single precision, and is at most one, has a bit pattern.
pub(crate) proof fn lemma_has_pattern(n: nat, d: nat) -> (bits: u32)
    requires
        d > 0,
        single(n, d) <= one(),
    ensures
        bits <= 0x3f80_0000,
        units_of(bits) == single(n, d),
{
    let q = n / d;
    let k = excess(q);
    let p = pow2(k);
    let e = d * p;
    let h = half_even(n, e);
    lemma_pow2_24();
    lemma_excess(q);
    vstd::arithmetic::power2::lemma_pow2_pos(k);
    vstd::arithmetic::power2::lemma_pow2_adds(23, k);
    vstd::arithmetic::power2::lemma_pow2_adds(24, k);
    vstd::arithmetic::div_mod::lemma_fundamental_div_mod(n as int, d as int);
    assert(e > 0 && n < 0x100_0000 * e) by (nonlinear_arith)
        requires
            e == d * p,
            n < d * q + d,
            q + 1 <= 0x100_0000 * p,
            d > 0,
            p > 0,
    ;
    lemma_half_even_near(n, e);
    assert(h <= 0x100_0000) by (nonlinear_arith)
        requires
            2 * (h * e) <= 2 * n + e,
            n < 0x100_0000 * e,
            e > 0,
    ;
    if k > 0 {
        assert(n >= 0x80_0000 * e) by (nonlinear_arith)
            requires
                e == d * p,
                0x80_0000 * p <= q,
                d * q <= n,
                d > 0,
        ;
        assert(h >= 0x80_0000) by (nonlinear_arith)
            requires
                2 * n <= 2 * (h * e) + e,
                n >= 0x80_0000 * e,
                e > 0,
        ;
        assert(0x80_0000 * p <= h * p) by (nonlinear_arith)
            requires
                h >= 0x80_0000,
        ;
        if k > 126 {
            vstd::arithmetic::power2::lemma_pow2_strictly_increases(149, 23 + k);
        }
    }
    let bits: u32 = if h == 0x100_0000 {
        (0x80_0000 + (k + 1) * 0x80_0000) as u32
    } else {
        (h + k * 0x80_0000) as u32
    };
    if h == 0x100_0000 {
        assert(bits / 0x80_0000 - 1 == k + 1);
        vstd::arithmetic::power2::lemma_pow2_unfold(k + 1);
        assert(0x80_0000 * (2 * p) == 0x100_0000 * p);
        assert((bits - (k + 1) * 0x80_0000) as nat == 0x80_0000);
    } else if k > 0 || h >= 0x80_0000 {
        assert(bits / 0x80_0000 - 1 == k);
        assert((bits - k * 0x80_0000) as nat == h);
    }
    assert(units_of(bits) == h * p);
    vstd::arithmetic::power2::lemma_pow2_adds(23, 126);
    assert(units_of(0x3f80_0000) == one());
    if bits > 0x3f80_0000 {
        lemma_units_ordered(0x3f80_0000, bits);
    }
    bits
}

} // verus!
