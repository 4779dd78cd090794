//! Changing the sample rate of a sound.
use crate::single::{one, round_off, single, two_to, Single};
use vstd::arithmetic::power2::pow2;
use vstd::prelude::*;

verus! {

/// How many samples go out for each that comes in, in units of [`one`].
pub open spec fn rate_ratio(input_rate: u32, output_rate: u32) -> nat {
    single(single(output_rate as nat * one(), 1) * one(), single(input_rate as nat * one(), 1))
}

/// How many samples go out for `len` that come in: at least one.
pub open spec fn resampled_len(len: nat, ratio: nat) -> nat {
    let n = single(single(len * one(), 1) * ratio, one()) / one();
    if n == 0 {
        1
    } else {
        n
    }
}

/// Where the sample that goes out at `index` lies among those that came in, in units of [`one`].
pub open spec fn source_position(index: nat, ratio: nat) -> nat {
    single(single(index * one(), 1) * one(), ratio)
}

/// A number that may be negative, rounded to single precision.
pub open spec fn rounded(n: int) -> int {
    if n >= 0 {
        single(n as nat, 1) as int
    } else {
        -single((-n) as nat, 1)
    }
}

/// The sample that a number is cast to: held to the range of samples, its fraction cut off.
pub open spec fn cast_sample(n: int) -> int {
    if n >= 32768 * one() {
        32767
    } else if n >= 0 {
        n / one() as int
    } else if n > -32768 * one() {
        -((-n) / one() as int)
    } else {
        -32768
    }
}

/// The sample at `fraction` of the way from `left` to `right`: the step is rounded to single
/// precision, and so is the sum.
pub open spec fn interpolated(left: int, right: int, fraction: nat) -> int {
    let step = rounded((right - left) * fraction);
    cast_sample(rounded(left * one() + step))
}

/// The sample between those around a position; behind the last sample, the last sample.
pub open spec fn sample_at(samples: Seq<i16>, position: nat) -> i16 {
    let left = position / one();
    let right = if left + 1 < samples.len() {
        left + 1
    } else {
        (samples.len() - 1) as nat
    };
    interpolated(samples[left as int] as int, samples[right as int] as int, position % one()) as i16
}

/// Whether the samples go out as they came in.
pub open spec fn passes_through(len: nat, input_rate: u32, output_rate: u32) -> bool {
    len == 0 || input_rate == 0 || output_rate == 0 || input_rate == output_rate
}

/// The samples at another rate.
pub open spec fn resampled(samples: Seq<i16>, input_rate: u32, output_rate: u32) -> Seq<i16> {
    if passes_through(samples.len(), input_rate, output_rate) {
        samples
    } else {
        let ratio = rate_ratio(input_rate, output_rate);
        Seq::new(
            resampled_len(samples.len(), ratio),
            |i: int| sample_at(samples, source_position(i as nat, ratio)),
        )
    }
}

/// Whether `len` samples can be brought to another rate: no position lies behind the last sample,
/// and the samples that go out fit in memory. A position may be rounded up past the last sample
/// where the ratio of the rates is large.
pub open spec fn resamplable(len: nat, input_rate: u32, output_rate: u32) -> bool {
    passes_through(len, input_rate, output_rate) || {
        let ratio = rate_ratio(input_rate, output_rate);
        &&& resampled_len(len, ratio) <= isize::MAX / 2
        &&& forall|i: nat|
            i < resampled_len(len, ratio) ==> #[trigger] source_position(i, ratio) / one() < len
    }
}

proof fn lemma_power_of_two_below(a: nat, b: nat)
    requires
        pow2(a) < pow2(b),
    ensures
        a < b,
{
    if b < a {
        vstd::arithmetic::power2::lemma_pow2_strictly_increases(b, a);
    }
}

/// `size` times the fraction `mant * 2^exp`, in single precision: `res.0 * 2^res.1`.
fn scaled_step(size: u64, mant: u64, exp: i32) -> (res: (u64, i32))
    requires
        size <= 65535,
        mant < 0x100_0000,
        -60 <= exp <= 0,
        mant < pow2((-exp) as nat),
    ensures
        -60 <= res.1 <= 0,
        res.0 <= 0x1_0000 * pow2((-res.1) as nat),
        res.0 <= 0x100_0000,
        res.0 as nat * pow2((res.1 + 149) as nat) == single(
            size as nat * (mant as nat * pow2((exp + 149) as nat)),
            1,
        ),
{
    proof {
        assert(size * mant <= 65535 * 0xff_ffff) by (nonlinear_arith)
            requires
                size <= 65535,
                mant <= 0xff_ffff,
        ;
    }
    let t: u64 = size * mant;
    let (pm, s) = round_off(t as u128);
    proof {
        let q = pow2((-exp) as nat);
        let j = (exp + 149) as nat;
        crate::single::lemma_pow2_24();
        crate::single::lemma_excess(t as nat);
        vstd::arithmetic::power2::lemma2_to64();
        vstd::arithmetic::power2::lemma_pow2_adds(16, (-exp) as nat);
        assert(t < 0x1_0000 * q) by (nonlinear_arith)
            requires
                t == size * mant,
                size <= 65535,
                mant < q,
        ;
        if s > 0 {
            lemma_power_of_two_below((23 + s) as nat, (16 + (-exp)) as nat);
        }
        let pe = exp + s;
        let p = pow2((-pe) as nat);
        let ps = pow2(s as nat);
        vstd::arithmetic::power2::lemma_pow2_adds((-pe) as nat, s as nat);
        vstd::arithmetic::power2::lemma_pow2_pos(s as nat);
        assert(t as nat / ps < 0x1_0000 * p) by {
            assert(0x1_0000 * (p * ps) == ps * (0x1_0000 * p)) by (nonlinear_arith);
            vstd::arithmetic::div_mod::lemma_multiply_divide_lt(
                t as int,
                ps as int,
                (0x1_0000 * p) as int,
            );
        }
        crate::single::lemma_single_shifted(t as nat, j);
        assert(size as nat * (mant as nat * pow2(j)) == t as nat * pow2(j)) by (nonlinear_arith)
            requires
                t as nat == size as nat * mant as nat,
        ;
    }
    (pm, exp + s as i32)
}

/// The whole part of `sum * 2^exp`, rounded to single precision before.
fn rounded_whole(sum: u128, exp: i32) -> (whole: u128)
    requires
        -60 <= exp <= 0,
        sum < 0x2_0000 * pow2((-exp) as nat),
    ensures
        whole == single(sum as nat * pow2((exp + 149) as nat), 1) / one(),
{
    proof {
        vstd::arithmetic::power2::lemma2_to64();
        vstd::arithmetic::power2::lemma2_to64_rest();
        if exp > -60 {
            vstd::arithmetic::power2::lemma_pow2_strictly_increases((-exp) as nat, 60);
        }
        assert(sum < 0x2_0000 * 0x1000_0000_0000_0000);
    }
    let (mant, shift) = round_off(sum);
    let e: i32 = exp + shift as i32;
    proof {
        crate::single::lemma_excess(sum as nat);
        vstd::arithmetic::power2::lemma_pow2_adds(17, (-exp) as nat);
        if shift > 0 {
            lemma_power_of_two_below((23 + shift) as nat, (17 + (-exp)) as nat);
        }
    }
    let p: u128 = two_to((-e) as u32);
    proof {
        let v = pow2((e + 149) as nat);
        vstd::arithmetic::power2::lemma_pow2_pos((e + 149) as nat);
        vstd::arithmetic::power2::lemma_pow2_adds((-e) as nat, (e + 149) as nat);
        crate::single::lemma_single_shifted(sum as nat, (exp + 149) as nat);
        vstd::arithmetic::mul::lemma_mul_is_commutative(mant as int, v as int);
        vstd::arithmetic::mul::lemma_mul_is_commutative(p as int, v as int);
        vstd::arithmetic::div_mod::lemma_div_multiples_vanish_quotient(
            v as int,
            mant as int,
            p as int,
        );
    }
    mant as u128 / p
}

/// The exact sum of a sample and a step, in units of 2^-149.
proof fn lemma_sum(left: int, base: int, step: int, total: int, down: bool, p: nat, u: nat)
    requires
        one() == p * u,
        base == left * p,
        total == if down {
            base - step
        } else {
            base + step
        },
    ensures
        left * one() + (if down {
            -(step * u)
        } else {
            step * u
        }) == total * u,
{
    assert(left * (p * u) == base * u) by (nonlinear_arith)
        requires
            base == left * p,
    ;
    assert((base - step) * u == base * u - step * u) by (nonlinear_arith);
    assert((base + step) * u == base * u + step * u) by (nonlinear_arith);
}

/// The sample at `mant * 2^exp` of the way from `left` to `right`.
fn interpolate(left: i16, right: i16, mant: u64, exp: i32) -> (res: i16)
    requires
        mant < 0x100_0000,
        -60 <= exp <= 0,
        mant < pow2((-exp) as nat),
    ensures
        res == interpolated(left as int, right as int, mant as nat * pow2((exp + 149) as nat)),
{
    let down = right < left;
    let size: u64 = if down {
        (left as i32 - right as i32) as u64
    } else {
        (right as i32 - left as i32) as u64
    };
    let (pm, pe) = scaled_step(size, mant, exp);
    let p: u128 = two_to((-pe) as u32);
    proof {
        vstd::arithmetic::power2::lemma2_to64();
        vstd::arithmetic::power2::lemma2_to64_rest();
        if pe > -60 {
            vstd::arithmetic::power2::lemma_pow2_strictly_increases((-pe) as nat, 60);
        }
        assert(-32768 * p <= left * p <= 32767 * p) by (nonlinear_arith)
            requires
                -32768 <= left <= 32767,
                0 < p,
        ;
    }
    let base: i128 = left as i128 * p as i128;
    let total: i128 = if down {
        base - pm as i128
    } else {
        base + pm as i128
    };
    let negative = total < 0;
    let sum: u128 = if negative {
        (-total) as u128
    } else {
        total as u128
    };
    let whole: u128 = rounded_whole(sum, pe);
    proof {
        let fraction = mant as nat * pow2((exp + 149) as nat);
        let u = pow2((pe + 149) as nat);
        vstd::arithmetic::power2::lemma_pow2_pos((pe + 149) as nat);
        vstd::arithmetic::power2::lemma_pow2_adds((-pe) as nat, (pe + 149) as nat);
        let step = pm * u;
        let d = right - left;
        assert(d * fraction == if down {
            -(size * fraction)
        } else {
            size * fraction
        }) by (nonlinear_arith)
            requires
                size == if down {
                    -d
                } else {
                    d
                },
        ;
        assert(size * fraction >= 0) by (nonlinear_arith)
            requires
                size >= 0,
                fraction >= 0,
        ;
        if size * fraction == 0 {
            crate::single::lemma_single_exact(0, 0);
        }
        assert(rounded(d * fraction) == if down {
            -step
        } else {
            step
        });
        let exact = left * one() + rounded(d * fraction);
        lemma_sum(left as int, base as int, pm as int, total as int, down, p as nat, u);
        assert(exact == total * u);
        assert(negative == (exact < 0)) by (nonlinear_arith)
            requires
                exact == total * u,
                u > 0,
                negative == (total < 0),
        ;
        assert(negative ==> -exact == sum * u) by (nonlinear_arith)
            requires
                exact == total * u,
                negative ==> sum == -total,
        ;
        lemma_cast(single(sum as nat * u, 1), whole as nat);
    }
    if negative {
        if whole >= 32768 {
            i16::MIN
        } else {
            -(whole as i16)
        }
    } else {
        if whole >= 32767 {
            i16::MAX
        } else {
            whole as i16
        }
    }
}

/// The cast of a number and that of its negative, by the whole part of the number.
proof fn lemma_cast(n: nat, whole: nat)
    requires
        whole == n / one(),
    ensures
        cast_sample(n as int) == if whole >= 32767 {
            32767
        } else {
            whole as int
        },
        cast_sample(-n) == if whole >= 32768 {
            -32768
        } else {
            -whole
        },
{
    let o = one() as int;
    vstd::arithmetic::power2::lemma_pow2_pos(149);
    vstd::arithmetic::div_mod::lemma_fundamental_div_mod(n as int, o);
    assert(n >= 32768 * o <==> whole >= 32768) by (nonlinear_arith)
        requires
            n == o * whole + n % (o as nat),
            0 <= n % (o as nat) < o,
            o > 0,
    ;
    if n == 0 {
        vstd::arithmetic::div_mod::lemma_div_of0(o);
    }
}

/// The ratio of two rates.
fn ratio_of(input_rate: u32, output_rate: u32) -> (ratio: Single)
    requires
        input_rate > 0,
        output_rate > 0,
    ensures
        ratio.units() == rate_ratio(input_rate, output_rate),
        ratio.normal(-57, 11),
{
    Single::from_int(output_rate as u64).div(Single::from_int(input_rate as u64))
}

/// How many samples go out.
fn output_len(len: usize, ratio: Single) -> (n: u128)
    requires
        len > 0,
        ratio.normal(-57, 11),
    ensures
        n == resampled_len(len as nat, ratio.units()),
{
    let product = Single::from_int(len as u64).mul(ratio);
    let whole = product.parts().0;
    if whole == 0 {
        1
    } else {
        whole
    }
}

/// Where the sample that goes out at `index` lies.
fn position_of(index: u64, ratio: Single) -> (position: Single)
    requires
        ratio.normal(-57, 11),
    ensures
        position.units() == source_position(index as nat, ratio.units()),
        position.mant == 0 && position.exp == 0 || position.normal(-58, 77),
{
    Single::from_int(index).div(ratio)
}

/// A later sample lies no earlier.
pub proof fn law_positions_ordered(i: nat, j: nat, ratio: nat)
    requires
        i <= j,
        ratio > 0,
    ensures
        source_position(i, ratio) <= source_position(j, ratio),
{
    let o = one();
    assert(i * o <= j * o) by (nonlinear_arith)
        requires
            i <= j,
    ;
    crate::single::lemma_single_ordered(i * o, j * o, 1);
    let a = single(i * o, 1);
    let b = single(j * o, 1);
    assert(a * o <= b * o) by (nonlinear_arith)
        requires
            a <= b,
    ;
    crate::single::lemma_single_ordered(a * o, b * o, ratio);
}

/// Whether `len` samples can be brought from one rate to another.
pub fn can_resample(len: usize, input_rate: u32, output_rate: u32) -> (possible: bool)
    ensures
        possible == resamplable(len as nat, input_rate, output_rate),
{
    if len == 0 || input_rate == 0 || output_rate == 0 || input_rate == output_rate {
        return true;
    }
    let ratio = ratio_of(input_rate, output_rate);
    let n = output_len(len, ratio);
    if n > (isize::MAX / 2) as u128 {
        return false;
    }
    let last: u64 = (n - 1) as u64;
    let whole = position_of(last, ratio).parts().0;
    proof {
        let r = ratio.units();
        let o = one();
        vstd::arithmetic::power2::lemma_pow2_pos(149);
        vstd::arithmetic::power2::lemma_pow2_pos((ratio.exp + 149) as nat);
        assert(r > 0) by (nonlinear_arith)
            requires
                r == ratio.mant as nat * pow2((ratio.exp + 149) as nat),
                ratio.mant > 0,
                pow2((ratio.exp + 149) as nat) > 0,
        ;
        assert(source_position(last as nat, r) / o == whole);
        assert forall|i: nat| i <= last implies #[trigger] source_position(i, r) / o <= whole by {
            law_positions_ordered(i, last as nat, r);
            vstd::arithmetic::div_mod::lemma_div_is_ordered(
                source_position(i, r) as int,
                source_position(last as nat, r) as int,
                o as int,
            );
        }
    }
    whole < len as u128
}

/// The samples at another rate, by linear interpolation.
pub fn resample_i16_mono(samples: &[i16], input_rate: u32, output_rate: u32) -> (output: Vec<i16>)
    requires
        resamplable(samples@.len(), input_rate, output_rate),
    ensures
        output@ == resampled(samples@, input_rate, output_rate),
{
    if samples.len() == 0 || input_rate == 0 || output_rate == 0 || input_rate == output_rate {
        return vstd::slice::slice_to_vec(samples);
    }
    let ratio = ratio_of(input_rate, output_rate);
    let ghost r = ratio.units();
    let n: usize = output_len(samples.len(), ratio) as usize;
    let mut output: Vec<i16> = Vec::new();
    for index in 0..n
        invariant
            samples@.len() > 0,
            ratio.normal(-57, 11),
            r == ratio.units(),
            r == rate_ratio(input_rate, output_rate),
            n == resampled_len(samples@.len(), r),
            !passes_through(samples@.len(), input_rate, output_rate),
            resamplable(samples@.len(), input_rate, output_rate),
            output@ == resampled(samples@, input_rate, output_rate).take(index as int),
    {
        let position = position_of(index as u64, ratio);
        let (whole, mant, exp) = position.parts();
        assert(source_position(index as nat, r) / one() < samples@.len());
        assert(whole < samples.len());
        let left: usize = whole as usize;
        let right: usize = if samples.len() - left > 1 {
            left + 1
        } else {
            samples.len() - 1
        };
        let sample = interpolate(samples[left], samples[right], mant, exp);
        output.push(sample);
        assert(output@ =~= resampled(samples@, input_rate, output_rate).take(index + 1));
    }
    assert(resampled(samples@, input_rate, output_rate).take(n as int) =~= resampled(
        samples@,
        input_rate,
        output_rate,
    ));
    output
}

/// Samples that are at the wanted rate already are left as they are.
pub proof fn law_same_rate_unchanged(samples: Seq<i16>, rate: u32)
    ensures
        resamplable(samples.len(), rate, rate),
        resampled(samples, rate, rate) == samples,
{
}

/// A sound that does not change keeps its value at every rate.
pub proof fn law_constant_kept(samples: Seq<i16>, value: i16, input_rate: u32, output_rate: u32)
    requires
        resamplable(samples.len(), input_rate, output_rate),
        forall|i: int| 0 <= i < samples.len() ==> samples[i] == value,
    ensures
        forall|i: int|
            0 <= i < resampled(samples, input_rate, output_rate).len() ==> #[trigger] resampled(
                samples,
                input_rate,
                output_rate,
            )[i] == value,
{
    let out = resampled(samples, input_rate, output_rate);
    if !passes_through(samples.len(), input_rate, output_rate) {
        let ratio = rate_ratio(input_rate, output_rate);
        assert forall|i: int| 0 <= i < out.len() implies #[trigger] out[i] == value by {
            let position = source_position(i as nat, ratio);
            assert(position / one() < samples.len());
            lemma_no_step(value as int, position % one());
            let left = position / one();
            vstd::arithmetic::power2::lemma_pow2_pos(149);
            assert(left >= 0) by {
                vstd::arithmetic::div_mod::lemma_div_pos_is_pos(position as int, one() as int);
            }
            assert(samples[left as int] == value);
            assert(left + 1 < samples.len() ==> samples[left as int + 1] == value);
            assert(samples[samples.len() - 1] == value);
            assert(sample_at(samples, position) == value);
        }
    }
}

/// Between two samples of the same value there is no other.
proof fn lemma_no_step(value: int, fraction: nat)
    requires
        -32768 <= value <= 32767,
    ensures
        interpolated(value, value, fraction) == value,
{
    let o = one();
    vstd::arithmetic::power2::lemma_pow2_pos(149);
    assert((value - value) * fraction == 0);
    crate::single::lemma_single_exact(0, 149);
    assert(0 * pow2(149) == 0);
    assert(rounded(0) == 0);
    if value >= 0 {
        crate::single::lemma_single_exact(value as nat, 149);
        assert(value * o >= 0) by (nonlinear_arith)
            requires
                value >= 0,
        ;
        vstd::arithmetic::div_mod::lemma_div_by_multiple(value, o as int);
        assert(value * o < 32768 * o) by (nonlinear_arith)
            requires
                value < 32768,
                o > 0,
        ;
    } else {
        let size = (-value) as nat;
        crate::single::lemma_single_exact(size, 149);
        assert(value * o == -(size * o)) by (nonlinear_arith)
            requires
                size == -value,
        ;
        assert(size * o > 0) by (nonlinear_arith)
            requires
                size > 0,
                o > 0,
        ;
        vstd::arithmetic::div_mod::lemma_div_by_multiple(size as int, o as int);
        if value > -32768 {
            assert(size * o < 32768 * o) by (nonlinear_arith)
                requires
                    size < 32768,
                    o > 0,
            ;
        }
    }
}

// ---------------------------------------------------------------------------
// Ordinary sound

/// The most samples, in and out, for which resampling is promised.
pub const ORDINARY: u32 = 1_000_000;

/// How near the ratio of the rates comes: each rate, and their quotient, is off by no more than
/// one part in 2^24.
proof fn lemma_ratio_near(input_rate: u32, output_rate: u32)
    requires
        input_rate > 0,
        output_rate > 0,
    ensures
        ({
            let a = single(output_rate as nat * one(), 1);
            let b = single(input_rate as nat * one(), 1);
            let r = rate_ratio(input_rate, output_rate);
            &&& a > 0 && b > 0 && r > 0
            &&& 0xff_ffff * (output_rate * one()) <= 0x100_0000 * a <= 0x100_0001 * (output_rate
                * one())
            &&& 0xff_ffff * (input_rate * one()) <= 0x100_0000 * b <= 0x100_0001 * (input_rate
                * one())
            &&& 0xff_ffff * (a * one()) <= 0x100_0000 * (r * b) <= 0x100_0001 * (a * one())
            &&& r >= 0x80_0000
            &&& r <= 0x4_0000_0000 * one()
        }),
{
    let o = one();
    let x = output_rate as nat;
    let y = input_rate as nat;
    let a = single(x * o, 1);
    let b = single(y * o, 1);
    let r = rate_ratio(input_rate, output_rate);
    crate::single::lemma_pow2_24();
    vstd::arithmetic::power2::lemma2_to64();
    vstd::arithmetic::power2::lemma_pow2_adds(117, 32);
    vstd::arithmetic::power2::lemma_pow2_adds(58, 59);
    vstd::arithmetic::power2::lemma2_to64_rest();
    let small = pow2(117);
    assert(o == small * 0x1_0000_0000);
    assert(small >= 0x100_0000_0000);
    assert(x * o >= o) by (nonlinear_arith)
        requires
            x >= 1,
    ;
    assert(y * o >= o) by (nonlinear_arith)
        requires
            y >= 1,
    ;
    crate::single::lemma_single_near(x * o, 1);
    crate::single::lemma_single_near(y * o, 1);
    assert(a * 1 == a && b * 1 == b);
    // The rates are below 2^32, and so the ratio lies between 2^-34 and 2^34.
    assert(x * o <= 0xffff_ffff * o) by (nonlinear_arith)
        requires
            x <= 0xffff_ffff,
    ;
    assert(y * o <= 0xffff_ffff * o) by (nonlinear_arith)
        requires
            y <= 0xffff_ffff,
    ;
    assert(2 * a >= o && 2 * b >= o);
    assert(b <= 0x1_0000_0100 * o && a <= 0x1_0000_0100 * o);
    assert(a * o >= 0x80_0000 * b) by (nonlinear_arith)
        requires
            2 * a >= o,
            b <= 0x1_0000_0100 * o,
            o == small * 0x1_0000_0000,
            small >= 0x100_0000_0000,
    ;
    crate::single::lemma_single_near(a * o, b);
    assert(r >= 0x80_0000) by (nonlinear_arith)
        requires
            0xff_ffff * (a * o) <= 0x100_0000 * (r * b),
            2 * a >= o,
            b <= 0x1_0000_0100 * o,
            o == small * 0x1_0000_0000,
            small >= 0x100_0000_0000,
            b > 0,
    ;
    assert(r <= 0x4_0000_0000 * o) by (nonlinear_arith)
        requires
            0x100_0000 * (r * b) <= 0x100_0001 * (a * o),
            a <= 0x1_0000_0100 * o,
            2 * b >= o,
            o > 0,
    ;
}

/// How near the exact length comes to what the rounded ratio asks for.
proof fn lemma_product_near(len: nat, ratio: nat)
    requires
        0 < len <= ORDINARY,
        ratio >= 0x80_0000,
    ensures
        ({
            let p = single(single(len * one(), 1) * ratio, one());
            0xff_ffff * (len * ratio) <= 0x100_0000 * p <= 0x100_0001 * (len * ratio)
        }),
{
    let o = one();
    let x = len * ratio;
    crate::single::lemma_single_exact(len, 149);
    vstd::arithmetic::power2::lemma_pow2_pos(149);
    assert((len * o) * ratio == x * o) by (nonlinear_arith)
        requires
            x == len * ratio,
    ;
    assert(x >= 0x80_0000) by (nonlinear_arith)
        requires
            x == len * ratio,
            len >= 1,
            ratio >= 0x80_0000,
    ;
    assert(x * o >= 0x80_0000 * o) by (nonlinear_arith)
        requires
            x >= 0x80_0000,
    ;
    let p = single(x * o, o);
    crate::single::lemma_single_near(x * o, o);
    assert(0xff_ffff * x <= 0x100_0000 * p) by (nonlinear_arith)
        requires
            0xff_ffff * (x * o) <= 0x100_0000 * (p * o),
            o > 0,
    ;
    assert(0x100_0000 * p <= 0x100_0001 * x) by (nonlinear_arith)
        requires
            0x100_0000 * (p * o) <= 0x100_0001 * (x * o),
            o > 0,
    ;
}

/// No position of an ordinary sound lies behind its last sample.
proof fn lemma_position_inside(len: nat, ratio: nat, i: nat)
    requires
        0 < len <= ORDINARY,
        0x80_0000 <= ratio <= 0x4_0000_0000 * one(),
        i < resampled_len(len, ratio) <= 2 * ORDINARY,
    ensures
        source_position(i, ratio) / one() < len,
{
    let o = one();
    let n = resampled_len(len, ratio);
    let p = single(single(len * o, 1) * ratio, o);
    let x = len * ratio;
    vstd::arithmetic::power2::lemma_pow2_pos(149);
    crate::single::lemma_single_exact(i, 149);
    let position = source_position(i, ratio);
    assert(position == single((i * o) * o, ratio));
    if i == 0 {
        assert((0 * o) * o == 0);
        crate::single::lemma_pow2_24();
        assert(0nat / ratio == 0) by {
            vstd::arithmetic::div_mod::lemma_div_of0(ratio as int);
        }
        assert(0nat % ratio == 0) by {
            vstd::arithmetic::div_mod::lemma_small_mod(0, ratio);
        }
        assert(ratio * 1 == ratio);
        assert(position == 0);
        assert(0nat / o == 0) by {
            vstd::arithmetic::div_mod::lemma_div_of0(o as int);
        }
    } else {
        lemma_product_near(len, ratio);
        vstd::arithmetic::div_mod::lemma_fundamental_div_mod(p as int, o as int);
        let y = i * o;
        assert(n == p / o);
        assert(o * (p / o) == n * o) by (nonlinear_arith)
            requires
                n == p / o,
        ;
        assert(y + o <= n * o) by (nonlinear_arith)
            requires
                i + 1 <= n,
                y == i * o,
        ;
        assert(n * o <= 2_000_000 * o) by (nonlinear_arith)
            requires
                n <= 2_000_000,
        ;
        assert(n * o <= p < n * o + o);
        // The quotient has all its digits.
        vstd::arithmetic::power2::lemma2_to64();
        vstd::arithmetic::power2::lemma_pow2_adds(85, 64);
        vstd::arithmetic::power2::lemma_pow2_pos(85);
        assert(o >= 0x1_0000_0000_0000_0000) by (nonlinear_arith)
            requires
                o == pow2(85) * 0x1_0000_0000_0000_0000,
                pow2(85) >= 1,
        ;
        assert(y * o >= 0x80_0000 * ratio) by (nonlinear_arith)
            requires
                y == i * o,
                i >= 1,
                ratio <= 0x4_0000_0000 * o,
                o >= 0x1_0000_0000_0000_0000,
        ;
        crate::single::lemma_single_near(y * o, ratio);
        if position >= len * o {
            assert(x * o <= position * ratio) by (nonlinear_arith)
                requires
                    position >= len * o,
                    x == len * ratio,
            ;
            assert(0x100_0000 * x <= 0x100_0001 * y) by (nonlinear_arith)
                requires
                    0x100_0000 * (position * ratio) <= 0x100_0001 * (y * o),
                    x * o <= position * ratio,
                    o > 0,
            ;
            assert(false);
        }
        assert(position / o < len) by {
            vstd::arithmetic::div_mod::lemma_fundamental_div_mod(position as int, o as int);
            assert(position / o < len) by (nonlinear_arith)
                requires
                    o * (position / o) <= position,
                    position < len * o,
                    o > 0,
            ;
        }
    }
}

/// At most a million samples can be brought to any rate at which they are at most a million again.
pub proof fn law_ordinary_resamplable(len: nat, input_rate: u32, output_rate: u32)
    requires
        len <= ORDINARY,
        resampled_len(len, rate_ratio(input_rate, output_rate)) <= ORDINARY,
    ensures
        resamplable(len, input_rate, output_rate),
{
    if !passes_through(len, input_rate, output_rate) {
        let ratio = rate_ratio(input_rate, output_rate);
        lemma_ratio_near(input_rate, output_rate);
        assert forall|i: nat| i < resampled_len(len, ratio) implies #[trigger] source_position(
            i,
            ratio,
        ) / one() < len by {
            lemma_position_inside(len, ratio, i);
        }
    }
}

/// The length, times the rate that comes in, is near the number of samples times the rate that
/// goes out.
proof fn lemma_product_of_rates(len: nat, input_rate: u32, output_rate: u32)
    requires
        0 < len <= ORDINARY,
        input_rate > 0,
        output_rate > 0,
    ensures
        ({
            let p = single(
                single(len * one(), 1) * rate_ratio(input_rate, output_rate),
                one(),
            );
            let z = p * input_rate;
            let w = (len * output_rate) * one();
            &&& 0xff_ffff * z * 0x1_0000_0000_0000 <= 0x100_0001 * w * 0x1_0000_0200_0001
            &&& 0xff_ffff * w * 0xffff_fe00_0001 <= 0x100_0001 * z * 0x1_0000_0000_0000
        }),
{
    let o = one() as int;
    let y = input_rate as int;
    let x = output_rate as int;
    let l = len as int;
    let a = single(output_rate as nat * one(), 1) as int;
    let b = single(input_rate as nat * one(), 1) as int;
    let r = rate_ratio(input_rate, output_rate) as int;
    let p = single(single(len * one(), 1) * r as nat, one()) as int;
    lemma_ratio_near(input_rate, output_rate);
    lemma_product_near(len, r as nat);
    vstd::arithmetic::power2::lemma_pow2_pos(149);
    let pb = p * b;
    let lrb = (l * r) * b;
    let la = l * (a * o);
    let w = (l * x) * o;
    let z = p * y;
    // One step after the other: the product, the quotient, and each of the rates.
    assert(0x100_0000 * pb <= 0x100_0001 * lrb && 0xff_ffff * lrb <= 0x100_0000 * pb)
        by (nonlinear_arith)
        requires
            0xff_ffff * (l * r) <= 0x100_0000 * p <= 0x100_0001 * (l * r),
            pb == p * b,
            lrb == (l * r) * b,
            b > 0,
    ;
    assert(0x100_0000 * lrb <= 0x100_0001 * la && 0xff_ffff * la <= 0x100_0000 * lrb)
        by (nonlinear_arith)
        requires
            0xff_ffff * (a * o) <= 0x100_0000 * (r * b) <= 0x100_0001 * (a * o),
            lrb == (l * r) * b,
            la == l * (a * o),
            l > 0,
    ;
    let wo = w * o;
    assert(0x100_0000 * la <= 0x100_0001 * wo && 0xff_ffff * wo <= 0x100_0000 * la)
        by (nonlinear_arith)
        requires
            0xff_ffff * (x * o) <= 0x100_0000 * a <= 0x100_0001 * (x * o),
            la == l * (a * o),
            w == (l * x) * o,
            wo == w * o,
            l > 0,
            o > 0,
    ;
    let zo = z * o;
    assert(0xff_ffff * zo <= 0x100_0000 * pb && 0x100_0000 * pb <= 0x100_0001 * zo)
        by (nonlinear_arith)
        requires
            0xff_ffff * (y * o) <= 0x100_0000 * b <= 0x100_0001 * (y * o),
            pb == p * b,
            z == p * y,
            zo == z * o,
            p >= 0,
    ;
    assert(0xff_ffff * zo * 0x1_0000_0000_0000 <= 0x100_0001 * wo * 0x1_0000_0200_0001);
    assert(0xff_ffff * wo * 0xffff_fe00_0001 <= 0x100_0001 * zo * 0x1_0000_0000_0000);
    assert(0xff_ffff * z * 0x1_0000_0000_0000 <= 0x100_0001 * w * 0x1_0000_0200_0001)
        by (nonlinear_arith)
        requires
            0xff_ffff * zo * 0x1_0000_0000_0000 <= 0x100_0001 * wo * 0x1_0000_0200_0001,
            zo == z * o,
            wo == w * o,
            o > 0,
    ;
    assert(0xff_ffff * w * 0xffff_fe00_0001 <= 0x100_0001 * z * 0x1_0000_0000_0000)
        by (nonlinear_arith)
        requires
            0xff_ffff * wo * 0xffff_fe00_0001 <= 0x100_0001 * zo * 0x1_0000_0000_0000,
            zo == z * o,
            wo == w * o,
            o > 0,
    ;
}

/// Where the rates ask for at most a million samples, they get as many as the rates ask for,
/// give or take two.
proof fn lemma_length_near(len: nat, input_rate: u32, output_rate: u32)
    requires
        0 < len <= ORDINARY,
        input_rate > 0,
        output_rate > 0,
        len * output_rate <= ORDINARY * input_rate,
    ensures
        ({
            let n = resampled_len(len, rate_ratio(input_rate, output_rate));
            &&& n * input_rate <= len * output_rate + 2 * input_rate
            &&& len * output_rate <= n * input_rate + 2 * input_rate
            &&& n <= ORDINARY + 2
        }),
{
    let o = one() as int;
    let y = input_rate as int;
    let lx = len * output_rate;
    let r = rate_ratio(input_rate, output_rate);
    let p = single(single(len * one(), 1) * r, one()) as int;
    let n = resampled_len(len, r) as int;
    lemma_product_of_rates(len, input_rate, output_rate);
    vstd::arithmetic::power2::lemma_pow2_pos(149);
    vstd::arithmetic::div_mod::lemma_fundamental_div_mod(p, o);
    let q = p / o;
    let z = p * y;
    let w = lx * o;
    let i = y * o;
    let nq = q * i;
    assert(q >= 0) by {
        vstd::arithmetic::div_mod::lemma_div_pos_is_pos(p, o);
    }
    assert(nq <= z < nq + i) by (nonlinear_arith)
        requires
            o * q <= p < o * q + o,
            nq == q * i,
            i == y * o,
            z == p * y,
            y > 0,
    ;
    assert(w <= 1_000_000 * i) by (nonlinear_arith)
        requires
            lx <= 1_000_000 * y,
            w == lx * o,
            i == y * o,
            o > 0,
    ;
    assert(w >= 0 && i > 0) by (nonlinear_arith)
        requires
            lx >= 0,
            w == lx * o,
            i == y * o,
            o > 0,
            y > 0,
    ;
    assert(nq <= w + i && w <= nq + 2 * i);
    let ni = n * i;
    assert(ni <= w + 2 * i && w <= ni + 2 * i) by {
        if q == 0 {
            assert(n * i == i) by (nonlinear_arith)
                requires
                    n == 1,
            ;
            assert(nq == 0) by (nonlinear_arith)
                requires
                    q == 0,
                    nq == q * i,
            ;
        }
    }
    assert(n * y <= lx + 2 * y && lx <= n * y + 2 * y) by (nonlinear_arith)
        requires
            ni <= w + 2 * i,
            w <= ni + 2 * i,
            ni == n * i,
            w == lx * o,
            i == y * o,
            o > 0,
    ;
    assert(n <= 1_000_002) by (nonlinear_arith)
        requires
            n * y <= lx + 2 * y,
            lx <= 1_000_000 * y,
            y > 0,
    ;
}

/// A sound of at most a million samples, for which the rates ask for at most a million again, is
/// resampled, to as many samples as the rates ask for, give or take two.
pub proof fn law_ordinary_sound_resampled(samples: Seq<i16>, input_rate: u32, output_rate: u32)
    requires
        samples.len() <= ORDINARY,
        input_rate > 0,
        output_rate > 0,
        samples.len() * output_rate <= ORDINARY * input_rate,
    ensures
        resamplable(samples.len(), input_rate, output_rate),
        resampled(samples, input_rate, output_rate).len() * input_rate <= samples.len()
            * output_rate + 2 * input_rate,
        samples.len() * output_rate <= resampled(samples, input_rate, output_rate).len()
            * input_rate + 2 * input_rate,
{
    let len = samples.len();
    if !passes_through(len, input_rate, output_rate) {
        let ratio = rate_ratio(input_rate, output_rate);
        lemma_ratio_near(input_rate, output_rate);
        lemma_length_near(len, input_rate, output_rate);
        assert forall|i: nat| i < resampled_len(len, ratio) implies #[trigger] source_position(
            i,
            ratio,
        ) / one() < len by {
            lemma_position_inside(len, ratio, i);
        }
        assert(resampled(samples, input_rate, output_rate).len() == resampled_len(len, ratio));
    } else if len == 0 {
        assert(0 * input_rate == 0 && 0 * output_rate == 0);
    }
}

// ---------------------------------------------------------------------------
// No overshoot

/// Rounding does not carry a number past a sample.
proof fn lemma_rounded_between(n: int, low: int, high: int)
    requires
        -32768 <= low <= high <= 32767,
        low * one() <= n <= high * one(),
    ensures
        low * one() <= rounded(n) <= high * one(),
{
    let o = one() as int;
    vstd::arithmetic::power2::lemma_pow2_pos(149);
    if n >= 0 {
        assert(high >= 0) by (nonlinear_arith)
            requires
                0 <= n <= high * o,
                o > 0,
        ;
        crate::single::lemma_single_exact(high as nat, 149);
        crate::single::lemma_single_ordered(n as nat, high as nat * one(), 1);
        if low >= 0 {
            crate::single::lemma_single_exact(low as nat, 149);
            assert(low * o >= 0) by (nonlinear_arith)
                requires
                    low >= 0,
                    o > 0,
            ;
            crate::single::lemma_single_ordered(low as nat * one(), n as nat, 1);
        } else {
            assert(low * o <= 0) by (nonlinear_arith)
                requires
                    low < 0,
                    o > 0,
            ;
        }
    } else {
        assert(low < 0) by (nonlinear_arith)
            requires
                low * o <= n < 0,
                o > 0,
        ;
        let m = (-n) as nat;
        let l = (-low) as nat;
        assert(l * o == -(low * o)) by (nonlinear_arith)
            requires
                l == -low,
        ;
        crate::single::lemma_single_exact(l, 149);
        crate::single::lemma_single_ordered(m, l * one(), 1);
        if high < 0 {
            let h = (-high) as nat;
            assert(h * o == -(high * o)) by (nonlinear_arith)
                requires
                    h == -high,
            ;
            crate::single::lemma_single_exact(h, 149);
            crate::single::lemma_single_ordered(h * one(), m, 1);
        } else {
            assert(high * o >= 0) by (nonlinear_arith)
                requires
                    high >= 0,
                    o > 0,
            ;
        }
    }
}

/// Nor does cutting off the fraction.
proof fn lemma_cast_between(n: int, low: int, high: int)
    requires
        -32768 <= low <= high <= 32767,
        low * one() <= n <= high * one(),
    ensures
        low <= cast_sample(n) <= high,
{
    let o = one() as int;
    vstd::arithmetic::power2::lemma_pow2_pos(149);
    assert(high * o < 32768 * o) by (nonlinear_arith)
        requires
            high < 32768,
            o > 0,
    ;
    if n >= 0 {
        vstd::arithmetic::div_mod::lemma_fundamental_div_mod(n, o);
        let q = n / o;
        assert(0 <= q <= high && low <= q) by (nonlinear_arith)
            requires
                o * q <= n < o * q + o,
                low * o <= n <= high * o,
                0 <= n,
                o > 0,
        ;
    } else {
        vstd::arithmetic::div_mod::lemma_fundamental_div_mod(-n, o);
        let q = (-n) / o;
        assert(0 <= q && -q <= high && low <= -q) by (nonlinear_arith)
            requires
                o * q <= -n < o * q + o,
                low * o <= n <= high * o,
                n < 0,
                o > 0,
        ;
        assert(n <= -32768 * o ==> low == -32768) by (nonlinear_arith)
            requires
                low * o <= n,
                low >= -32768,
                o > 0,
        ;
    }
}

/// A part of the way from one sample to another does not lead past either.
proof fn lemma_sum_between(left: int, right: int, fraction: nat, low: int, high: int)
    requires
        -32768 <= low <= left <= high <= 32767,
        low <= right <= high,
        fraction < one(),
    ensures
        low * one() <= left * one() + rounded((right - left) * fraction) <= high * one(),
{
    let o = one() as int;
    let f = fraction as int;
    vstd::arithmetic::power2::lemma_pow2_pos(149);
    let step = rounded((right - left) * f);
    if right >= left {
        let d = (right - left) as nat;
        assert(0 <= d * f <= d * o) by (nonlinear_arith)
            requires
                0 <= f <= o,
        ;
        crate::single::lemma_single_exact(d, 149);
        crate::single::lemma_single_ordered((d * f) as nat, d * one(), 1);
        assert(0 <= step <= d * o);
        assert(left * o + d * o == right * o) by (nonlinear_arith)
            requires
                d == right - left,
        ;
    } else {
        let d = (left - right) as nat;
        assert(0 <= d * f <= d * o) by (nonlinear_arith)
            requires
                0 <= f <= o,
        ;
        assert((right - left) * f == -(d * f)) by (nonlinear_arith)
            requires
                d == left - right,
        ;
        crate::single::lemma_single_exact(d, 149);
        crate::single::lemma_single_exact(0, 149);
        crate::single::lemma_single_ordered((d * f) as nat, d * one(), 1);
        assert(0 * pow2(149) == 0);
        assert(-(d * o) <= step <= 0);
        assert(left * o - d * o == right * o) by (nonlinear_arith)
            requires
                d == left - right,
        ;
    }
    assert(low * o <= left * o <= high * o && low * o <= right * o <= high * o) by (nonlinear_arith)
        requires
            low <= left <= high,
            low <= right <= high,
            o > 0,
    ;
}

/// What lies between two samples does not lie outside them.
proof fn lemma_between(left: int, right: int, fraction: nat, low: int, high: int)
    requires
        -32768 <= low <= left <= high <= 32767,
        low <= right <= high,
        fraction < one(),
    ensures
        low <= interpolated(left, right, fraction) <= high,
{
    let sum = left * one() + rounded((right - left) * fraction);
    lemma_sum_between(left, right, fraction, low, high);
    lemma_rounded_between(sum, low, high);
    lemma_cast_between(rounded(sum), low, high);
}

/// Resampling does not overshoot: between which bounds the samples lie, the resampled ones lie
/// too.
pub proof fn law_no_overshoot(
    samples: Seq<i16>,
    input_rate: u32,
    output_rate: u32,
    low: i16,
    high: i16,
)
    requires
        resamplable(samples.len(), input_rate, output_rate),
        forall|i: int| 0 <= i < samples.len() ==> low <= #[trigger] samples[i] <= high,
    ensures
        forall|i: int|
            0 <= i < resampled(samples, input_rate, output_rate).len() ==> low
                <= #[trigger] resampled(samples, input_rate, output_rate)[i] <= high,
{
    let out = resampled(samples, input_rate, output_rate);
    if !passes_through(samples.len(), input_rate, output_rate) {
        let ratio = rate_ratio(input_rate, output_rate);
        assert forall|i: int| 0 <= i < out.len() implies low <= #[trigger] out[i] <= high by {
            let position = source_position(i as nat, ratio);
            vstd::arithmetic::power2::lemma_pow2_pos(149);
            assert(position / one() < samples.len());
            let left = position / one();
            assert(left >= 0) by {
                vstd::arithmetic::div_mod::lemma_div_pos_is_pos(position as int, one() as int);
            }
            vstd::arithmetic::div_mod::lemma_mod_bound(position as int, one() as int);
            let right = if left + 1 < samples.len() {
                left + 1
            } else {
                (samples.len() - 1) as nat
            };
            assert(low <= samples[left as int] <= high);
            assert(low <= samples[right as int] <= high);
            lemma_between(
                samples[left as int] as int,
                samples[right as int] as int,
                position % one(),
                low as int,
                high as int,
            );
        }
    }
}

// ---------------------------------------------------------------------------
// The line through the samples

/// The point of the straight line from sample to sample at `position`, both in units of [`one`];
/// behind the last sample the line stays level.
pub open spec fn line_at(samples: Seq<i16>, position: nat) -> int {
    let k = (position / one()) as int;
    let next = if k + 1 < samples.len() {
        k + 1
    } else {
        samples.len() - 1
    };
    samples[k] * (one() - position % one()) + samples[next] * (position % one())
}

/// Rounding a number that may be negative changes it by no more than one part in 2^24.
proof fn lemma_rounded_near(n: int)
    ensures
        n >= 0 ==> rounded(n) >= 0,
        n <= 0 ==> rounded(n) <= 0,
        n >= 0 ==> -n <= 0x100_0000 * (rounded(n) - n) <= n,
        n < 0 ==> n <= 0x100_0000 * (rounded(n) - n) <= -n,
{
    let m = if n >= 0 {
        n as nat
    } else {
        (-n) as nat
    };
    if m >= 0x80_0000 {
        crate::single::lemma_single_near(m, 1);
        assert(single(m, 1) * 1 == single(m, 1));
    } else {
        vstd::arithmetic::power2::lemma2_to64();
        crate::single::lemma_single_exact(m, 0);
        assert(m * pow2(0) == m);
    }
}

/// Cutting off the fraction brings a number nearer to zero, by less than one.
proof fn lemma_cast_near(n: int)
    requires
        -32768 * one() <= n <= 32767 * one(),
    ensures
        n >= 0 ==> 0 <= cast_sample(n) * one() <= n < cast_sample(n) * one() + one(),
        n < 0 ==> cast_sample(n) * one() - one() < n <= cast_sample(n) * one() <= 0,
{
    let o = one() as int;
    vstd::arithmetic::power2::lemma_pow2_pos(149);
    if n >= 0 {
        vstd::arithmetic::div_mod::lemma_fundamental_div_mod(n, o);
        let q = n / o;
        vstd::arithmetic::div_mod::lemma_div_pos_is_pos(n, o);
        assert(o * q == q * o && q * o >= 0) by (nonlinear_arith)
            requires
                q >= 0,
                o > 0,
        ;
    } else {
        vstd::arithmetic::div_mod::lemma_fundamental_div_mod(-n, o);
        let q = (-n) / o;
        vstd::arithmetic::div_mod::lemma_div_pos_is_pos(-n, o);
        assert(o * q == q * o && q * o >= 0 && (-q) * o == -(q * o)) by (nonlinear_arith)
            requires
                q >= 0,
                o > 0,
        ;
    }
}

/// The sample at a part of the way from one sample to another is the point of the line between
/// them, its fraction cut off, but for what rounding changes: less than a hundredth.
proof fn lemma_interpolated_near(left: int, right: int, fraction: nat)
    requires
        -32768 <= left <= 32767,
        -32768 <= right <= 32767,
        fraction < one(),
    ensures
        ({
            let line = left * (one() - fraction) + right * fraction;
            let v = interpolated(left, right, fraction) * one();
            &&& line >= 0 ==> 100 * (v - line) <= one() && 100 * (line - v) <= 101 * one()
            &&& line < 0 ==> 100 * (line - v) <= one() && 100 * (v - line) <= 101 * one()
        }),
{
    let o = one() as int;
    let f = fraction as int;
    let d = right - left;
    let line = left * (o - f) + right * f;
    let low = if left <= right {
        left
    } else {
        right
    };
    let high = if left <= right {
        right
    } else {
        left
    };
    vstd::arithmetic::power2::lemma_pow2_pos(149);
    let exact = d * f;
    let step = rounded(exact);
    let sum = left * o + step;
    lemma_rounded_near(exact);
    lemma_sum_between(left, right, fraction, low, high);
    lemma_rounded_near(sum);
    lemma_rounded_between(sum, low, high);
    assert(-32768 * o <= low * o && high * o <= 32767 * o) by (nonlinear_arith)
        requires
            -32768 <= low,
            high <= 32767,
            o > 0,
    ;
    lemma_cast_near(rounded(sum));
    assert(line == left * o + exact) by (nonlinear_arith)
        requires
            line == left * (o - f) + right * f,
            exact == d * f,
            d == right - left,
    ;
    assert(-65535 * o <= exact <= 65535 * o) by (nonlinear_arith)
        requires
            exact == d * f,
            -65535 <= d <= 65535,
            0 <= f <= o,
    ;
    let t = rounded(sum);
    assert(0x100_0000 * (t - line) <= 98303 * o && 0x100_0000 * (line - t) <= 98303 * o);
}

/// How near a position comes to where the rates put it.
proof fn lemma_position_near(index: nat, input_rate: u32, output_rate: u32)
    requires
        input_rate > 0,
        output_rate > 0,
    ensures
        ({
            let z = source_position(index, rate_ratio(input_rate, output_rate)) * output_rate;
            let w = index * input_rate * one();
            0x1f_ffff * w <= 0x20_0000 * z <= 0x20_0001 * w
        }),
{
    let o = one() as int;
    let i = index as int;
    let x = output_rate as int;
    let y = input_rate as int;
    let a = single(output_rate as nat * one(), 1) as int;
    let b = single(input_rate as nat * one(), 1) as int;
    let r = rate_ratio(input_rate, output_rate) as int;
    let s = single(index * one(), 1) as int;
    let p = source_position(index, r as nat) as int;
    vstd::arithmetic::power2::lemma_pow2_pos(149);
    lemma_ratio_near(input_rate, output_rate);
    if i == 0 {
        crate::single::lemma_single_exact(0, 149);
        assert(0 * one() == 0);
        assert(s == 0);
        assert(0 * o == 0);
        crate::single::lemma_pow2_24();
        vstd::arithmetic::div_mod::lemma_div_of0(r);
        vstd::arithmetic::div_mod::lemma_small_mod(0, r as nat);
        vstd::arithmetic::power2::lemma2_to64();
        assert(r * 1 == r);
        assert(p == 0);
        assert(p * x == 0 && i * y * o == 0) by (nonlinear_arith)
            requires
                p == 0,
                i == 0,
        ;
    } else {
        vstd::arithmetic::power2::lemma2_to64();
        vstd::arithmetic::power2::lemma_pow2_adds(85, 64);
        vstd::arithmetic::power2::lemma_pow2_pos(85);
        assert(o >= 0x1_0000_0000_0000_0000) by (nonlinear_arith)
            requires
                o == pow2(85) * 0x1_0000_0000_0000_0000,
                pow2(85) >= 1,
        ;
        assert(i * o >= o) by (nonlinear_arith)
            requires
                i >= 1,
                o > 0,
        ;
        crate::single::lemma_single_near(index * one(), 1);
        assert(s * 1 == s);
        assert(2 * s >= o);
        assert(s * o >= 0x80_0000 * r) by (nonlinear_arith)
            requires
                2 * s >= o,
                r <= 0x4_0000_0000 * o,
                o >= 0x1_0000_0000_0000_0000,
        ;
        crate::single::lemma_single_near((s * o) as nat, r as nat);
        lemma_chain(i, s, y, b, x, a, r, p, o);
    }
}

/// Five numbers, each off by no more than one part in 2^24: the product is off by no more than one
/// in 2^21.
proof fn lemma_chain(
    i: int,
    s: int,
    y: int,
    b: int,
    x: int,
    a: int,
    r: int,
    p: int,
    o: int,
)
    requires
        o > 0 && i > 0 && y > 0 && x > 0 && s > 0 && b > 0 && a > 0 && r > 0 && p >= 0,
        0xff_ffff * (i * o) <= 0x100_0000 * s <= 0x100_0001 * (i * o),
        0xff_ffff * (y * o) <= 0x100_0000 * b <= 0x100_0001 * (y * o),
        0xff_ffff * (x * o) <= 0x100_0000 * a <= 0x100_0001 * (x * o),
        0xff_ffff * (a * o) <= 0x100_0000 * (r * b) <= 0x100_0001 * (a * o),
        0xff_ffff * (s * o) <= 0x100_0000 * (p * r) <= 0x100_0001 * (s * o),
    ensures
        0x1f_ffff * (i * y * o) <= 0x20_0000 * (p * x) <= 0x20_0001 * (i * y * o),
{
    let z = p * x;
    let w = i * y * o;
    let oo = o * o;
    let prb = (p * r) * b;
    let sob = (s * o) * b;
    let pao = p * (a * o);
    let zz = z * oo;
    let syoo = (s * y) * oo;
    let ww = w * oo;
    assert(oo > 0) by (nonlinear_arith)
        requires
            oo == o * o,
            o > 0,
    ;
    assert(0xff_ffff * sob <= 0x100_0000 * prb <= 0x100_0001 * sob) by (nonlinear_arith)
        requires
            0xff_ffff * (s * o) <= 0x100_0000 * (p * r) <= 0x100_0001 * (s * o),
            prb == (p * r) * b,
            sob == (s * o) * b,
            b > 0,
    ;
    assert(0xff_ffff * pao <= 0x100_0000 * prb <= 0x100_0001 * pao) by (nonlinear_arith)
        requires
            0xff_ffff * (a * o) <= 0x100_0000 * (r * b) <= 0x100_0001 * (a * o),
            prb == (p * r) * b,
            pao == p * (a * o),
            p >= 0,
    ;
    let po = p * o;
    assert(po >= 0) by (nonlinear_arith)
        requires
            po == p * o,
            p >= 0,
            o > 0,
    ;
    assert(pao == po * a && zz == po * (x * o)) by (nonlinear_arith)
        requires
            pao == p * (a * o),
            po == p * o,
            zz == z * oo,
            z == p * x,
            oo == o * o,
    ;
    assert(0xff_ffff * zz <= 0x100_0000 * pao <= 0x100_0001 * zz) by (nonlinear_arith)
        requires
            0xff_ffff * (x * o) <= 0x100_0000 * a <= 0x100_0001 * (x * o),
            pao == po * a,
            zz == po * (x * o),
            po >= 0,
    ;
    let so = s * o;
    assert(so > 0 && sob == so * b && syoo == so * (y * o)) by (nonlinear_arith)
        requires
            so == s * o,
            s > 0,
            o > 0,
            sob == (s * o) * b,
            syoo == (s * y) * oo,
            oo == o * o,
    ;
    assert(0xff_ffff * syoo <= 0x100_0000 * sob <= 0x100_0001 * syoo) by (nonlinear_arith)
        requires
            0xff_ffff * (y * o) <= 0x100_0000 * b <= 0x100_0001 * (y * o),
            sob == so * b,
            syoo == so * (y * o),
            so > 0,
    ;
    let yoo = y * oo;
    assert(yoo > 0 && syoo == s * yoo && ww == (i * o) * yoo) by (nonlinear_arith)
        requires
            yoo == y * oo,
            y > 0,
            oo > 0,
            syoo == (s * y) * oo,
            ww == w * oo,
            w == i * y * o,
    ;
    assert(0xff_ffff * ww <= 0x100_0000 * syoo <= 0x100_0001 * ww) by (nonlinear_arith)
        requires
            0xff_ffff * (i * o) <= 0x100_0000 * s <= 0x100_0001 * (i * o),
            syoo == s * yoo,
            ww == (i * o) * yoo,
            yoo > 0,
    ;
    assert(zz >= 0 && ww >= 0) by (nonlinear_arith)
        requires
            zz == po * (x * o),
            po >= 0,
            x > 0,
            o > 0,
            ww == (i * o) * yoo,
            i > 0,
            yoo > 0,
    ;
    assert(0x1f_ffff * ww <= 0x20_0000 * zz <= 0x20_0001 * ww);
    assert(0x1f_ffff * w <= 0x20_0000 * z <= 0x20_0001 * w) by (nonlinear_arith)
        requires
            0x1f_ffff * ww <= 0x20_0000 * zz <= 0x20_0001 * ww,
            zz == z * oo,
            ww == w * oo,
            oo > 0,
    ;
}

/// What goes out at another rate is the sound itself: the sample at `index` is the point of the
/// line through the samples that came in, its fraction cut off, at a position that is off by no
/// more than one part in two million from where the rates put it; rounding changes it by less than
/// a hundredth. At the position of a sample it is that sample.
pub proof fn law_resampled_is_the_line(
    samples: Seq<i16>,
    input_rate: u32,
    output_rate: u32,
    index: nat,
)
    requires
        resamplable(samples.len(), input_rate, output_rate),
        samples.len() > 0,
        input_rate > 0,
        output_rate > 0,
        input_rate != output_rate,
        index < resampled(samples, input_rate, output_rate).len(),
    ensures
        exists|position: nat|
            {
                let line = #[trigger] line_at(samples, position);
                let v = resampled(samples, input_rate, output_rate)[index as int] * one();
                let w = index * input_rate * one();
                &&& 0x1f_ffff * w <= 0x20_0000 * (position * output_rate) <= 0x20_0001 * w
                &&& position / one() < samples.len()
                &&& line >= 0 ==> 100 * (v - line) <= one() && 100 * (line - v) <= 101 * one()
                &&& line < 0 ==> 100 * (line - v) <= one() && 100 * (v - line) <= 101 * one()
                &&& position % one() == 0 ==> resampled(samples, input_rate, output_rate)[index as int]
                    == samples[(position / one()) as int]
            },
{
    let ratio = rate_ratio(input_rate, output_rate);
    let position = source_position(index, ratio);
    let o = one();
    vstd::arithmetic::power2::lemma_pow2_pos(149);
    lemma_position_near(index, input_rate, output_rate);
    assert(position / o < samples.len());
    vstd::arithmetic::div_mod::lemma_div_pos_is_pos(position as int, o as int);
    vstd::arithmetic::div_mod::lemma_mod_bound(position as int, o as int);
    let k = position / o;
    let next = if k + 1 < samples.len() {
        k + 1
    } else {
        (samples.len() - 1) as nat
    };
    let left = samples[k as int] as int;
    let right = samples[next as int] as int;
    let f = position % o;
    lemma_interpolated_near(left, right, f);
    let low = if left <= right {
        left
    } else {
        right
    };
    let high = if left <= right {
        right
    } else {
        left
    };
    lemma_between(left, right, f, low, high);
    if f == 0 {
        assert((right - left) * f == 0) by (nonlinear_arith)
            requires
                f == 0,
        ;
        assert((left - left) * f == 0);
        lemma_no_step(left, 0);
    }
    let v = resampled(samples, input_rate, output_rate)[index as int];
    assert(v == interpolated(left, right, f));
    let line = line_at(samples, position);
    assert(line == left * (o - f) + right * f);
}

/// However long it is, a sound lasts as long at another rate as it did: it has as many samples as
/// the rates ask for, give or take one sample and one part in two million.
pub proof fn law_resampled_lasts_as_long(samples: Seq<i16>, input_rate: u32, output_rate: u32)
    requires
        samples.len() > 0,
        input_rate > 0,
        output_rate > 0,
        input_rate != output_rate,
    ensures
        ({
            let n = resampled(samples, input_rate, output_rate).len() * input_rate;
            let asked = samples.len() * output_rate;
            &&& n > 0
            &&& 0x20_0000 * n <= 0x20_0001 * asked + 0x20_0000 * input_rate
            &&& 0x1f_ffff * asked <= 0x20_0000 * n + 0x20_0000 * input_rate
        }),
{
    let o = one() as int;
    let l = samples.len() as int;
    let x = output_rate as int;
    let y = input_rate as int;
    let a = single(output_rate as nat * one(), 1) as int;
    let b = single(input_rate as nat * one(), 1) as int;
    let r = rate_ratio(input_rate, output_rate) as int;
    let s = single(samples.len() * one(), 1) as int;
    let p = single((s * r) as nat, one()) as int;
    vstd::arithmetic::power2::lemma_pow2_pos(149);
    lemma_ratio_near(input_rate, output_rate);
    crate::single::lemma_single_exact(1, 149);
    assert(1 * one() == o);
    assert(l * o >= o) by (nonlinear_arith)
        requires
            l >= 1,
            o > 0,
    ;
    crate::single::lemma_single_ordered(one(), samples.len() * one(), 1);
    crate::single::lemma_pow2_24();
    vstd::arithmetic::power2::lemma2_to64();
    vstd::arithmetic::power2::lemma_pow2_adds(85, 64);
    vstd::arithmetic::power2::lemma_pow2_pos(85);
    assert(o >= 0x1_0000_0000_0000_0000) by (nonlinear_arith)
        requires
            o == pow2(85) * 0x1_0000_0000_0000_0000,
            pow2(85) >= 1,
    ;
    crate::single::lemma_single_near(samples.len() * one(), 1);
    assert(s * 1 == s);
    assert(s >= o);
    assert(s * r >= 0x80_0000 * o) by (nonlinear_arith)
        requires
            s >= o,
            r >= 0x80_0000,
            o > 0,
    ;
    crate::single::lemma_single_near((s * r) as nat, one());
    lemma_length_chain(l, s, y, b, x, a, r, p, o);
    vstd::arithmetic::div_mod::lemma_fundamental_div_mod(p, o);
    vstd::arithmetic::div_mod::lemma_div_pos_is_pos(p, o);
    let q = p / o;
    let n = resampled(samples, input_rate, output_rate).len() as int;
    assert(n == resampled_len(samples.len(), r as nat));
    assert(n == if q == 0 {
        1
    } else {
        q
    });
    let z = p * y;
    let w = (l * x) * o;
    let i = y * o;
    let ni = n * i;
    let qi = q * i;
    assert(qi <= z < qi + i && i > 0) by (nonlinear_arith)
        requires
            o * q <= p < o * q + o,
            qi == q * i,
            i == y * o,
            z == p * y,
            y > 0,
            o > 0,
    ;
    assert(ni <= z + i && z < ni + i) by {
        if q == 0 {
            assert(ni == i && qi == 0) by (nonlinear_arith)
                requires
                    n == 1,
                    ni == n * i,
                    q == 0,
                    qi == q * i,
            ;
        }
    }
    let ny = n * y;
    let lx = l * x;
    assert(z >= 0 && w >= 0) by (nonlinear_arith)
        requires
            z == p * y,
            p >= 0,
            y > 0,
            w == (l * x) * o,
            l > 0,
            x > 0,
            o > 0,
    ;
    assert(0x20_0000 * ni <= 0x20_0001 * w + 0x20_0000 * i);
    assert(0x1f_ffff * w <= 0x20_0000 * ni + 0x20_0000 * i);
    assert(ny > 0) by (nonlinear_arith)
        requires
            ny == n * y,
            n > 0,
            y > 0,
    ;
    assert(0x20_0000 * ny <= 0x20_0001 * lx + 0x20_0000 * y) by (nonlinear_arith)
        requires
            0x20_0000 * ni <= 0x20_0001 * w + 0x20_0000 * i,
            ni == n * i,
            ny == n * y,
            w == lx * o,
            i == y * o,
            o > 0,
    ;
    assert(0x1f_ffff * lx <= 0x20_0000 * ny + 0x20_0000 * y) by (nonlinear_arith)
        requires
            0x1f_ffff * w <= 0x20_0000 * ni + 0x20_0000 * i,
            ni == n * i,
            ny == n * y,
            w == lx * o,
            i == y * o,
            o > 0,
    ;
}

/// The same of the number of samples.
proof fn lemma_length_chain(
    l: int,
    s: int,
    y: int,
    b: int,
    x: int,
    a: int,
    r: int,
    p: int,
    o: int,
)
    requires
        o > 0 && l > 0 && y > 0 && x > 0 && s > 0 && b > 0 && a > 0 && r > 0 && p >= 0,
        0xff_ffff * (l * o) <= 0x100_0000 * s <= 0x100_0001 * (l * o),
        0xff_ffff * (y * o) <= 0x100_0000 * b <= 0x100_0001 * (y * o),
        0xff_ffff * (x * o) <= 0x100_0000 * a <= 0x100_0001 * (x * o),
        0xff_ffff * (a * o) <= 0x100_0000 * (r * b) <= 0x100_0001 * (a * o),
        0xff_ffff * (s * r) <= 0x100_0000 * (p * o) <= 0x100_0001 * (s * r),
    ensures
        0x1f_ffff * ((l * x) * o) <= 0x20_0000 * (p * y) <= 0x20_0001 * ((l * x) * o),
{
    let z = p * y;
    let w = (l * x) * o;
    let oo = o * o;
    let pob = (p * o) * b;
    let srb = (s * r) * b;
    let sao = s * (a * o);
    let so = s * o;
    let po = p * o;
    let zz = z * oo;
    let sxoo = (s * x) * oo;
    let ww = w * oo;
    let xoo = x * oo;
    assert(oo > 0 && so > 0 && po >= 0) by (nonlinear_arith)
        requires
            oo == o * o,
            so == s * o,
            po == p * o,
            o > 0,
            s > 0,
            p >= 0,
    ;
    assert(0xff_ffff * srb <= 0x100_0000 * pob <= 0x100_0001 * srb) by (nonlinear_arith)
        requires
            0xff_ffff * (s * r) <= 0x100_0000 * (p * o) <= 0x100_0001 * (s * r),
            pob == (p * o) * b,
            srb == (s * r) * b,
            b > 0,
    ;
    assert(0xff_ffff * sao <= 0x100_0000 * srb <= 0x100_0001 * sao) by (nonlinear_arith)
        requires
            0xff_ffff * (a * o) <= 0x100_0000 * (r * b) <= 0x100_0001 * (a * o),
            srb == (s * r) * b,
            sao == s * (a * o),
            s > 0,
    ;
    assert(sao == so * a && sxoo == so * (x * o) && pob == po * b && zz == po * (y * o))
        by (nonlinear_arith)
        requires
            sao == s * (a * o),
            so == s * o,
            sxoo == (s * x) * oo,
            oo == o * o,
            pob == (p * o) * b,
            po == p * o,
            zz == z * oo,
            z == p * y,
    ;
    assert(0xff_ffff * sxoo <= 0x100_0000 * sao <= 0x100_0001 * sxoo) by (nonlinear_arith)
        requires
            0xff_ffff * (x * o) <= 0x100_0000 * a <= 0x100_0001 * (x * o),
            sao == so * a,
            sxoo == so * (x * o),
            so > 0,
    ;
    assert(0xff_ffff * zz <= 0x100_0000 * pob <= 0x100_0001 * zz) by (nonlinear_arith)
        requires
            0xff_ffff * (y * o) <= 0x100_0000 * b <= 0x100_0001 * (y * o),
            pob == po * b,
            zz == po * (y * o),
            po >= 0,
    ;
    assert(xoo > 0 && sxoo == s * xoo && ww == (l * o) * xoo) by (nonlinear_arith)
        requires
            xoo == x * oo,
            x > 0,
            oo > 0,
            sxoo == (s * x) * oo,
            ww == w * oo,
            w == (l * x) * o,
    ;
    assert(0xff_ffff * ww <= 0x100_0000 * sxoo <= 0x100_0001 * ww) by (nonlinear_arith)
        requires
            0xff_ffff * (l * o) <= 0x100_0000 * s <= 0x100_0001 * (l * o),
            sxoo == s * xoo,
            ww == (l * o) * xoo,
            xoo > 0,
    ;
    assert(zz >= 0 && ww >= 0) by (nonlinear_arith)
        requires
            zz == po * (y * o),
            po >= 0,
            y > 0,
            o > 0,
            ww == (l * o) * xoo,
            l > 0,
            xoo > 0,
    ;
    assert(0x1f_ffff * ww <= 0x20_0000 * zz <= 0x20_0001 * ww);
    assert(0x1f_ffff * w <= 0x20_0000 * z <= 0x20_0001 * w) by (nonlinear_arith)
        requires
            0x1f_ffff * ww <= 0x20_0000 * zz <= 0x20_0001 * ww,
            zz == z * oo,
            ww == w * oo,
            oo > 0,
    ;
}

/// A sound can be brought to another rate exactly where no position lies behind its last sample and
/// what goes out fits in memory, however long it is.
pub proof fn law_when_resamplable(len: nat, input_rate: u32, output_rate: u32)
    ensures
        len == 0 || input_rate == 0 || output_rate == 0 || input_rate == output_rate ==> resamplable(
            len,
            input_rate,
            output_rate,
        ),
        ({
            let ratio = rate_ratio(input_rate, output_rate);
            resampled_len(len, ratio) <= isize::MAX / 2 && (forall|i: nat|
                i < resampled_len(len, ratio) ==> #[trigger] source_position(i, ratio) / one() < len)
                ==> resamplable(len, input_rate, output_rate)
        }),
{
}

} // verus!
