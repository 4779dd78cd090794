//! Loudness, and sound in single precision. Numbers in single precision are given by their bit
//! patterns.
use crate::single::{one, round_off, single, split_bits, two_to, units_of, Single, INFINITY, SIGN};
use vstd::arithmetic::power2::pow2;
use vstd::prelude::*;

verus! {

/// The bit pattern of one.
pub const ONE: u32 = 0x3f80_0000;

// ---------------------------------------------------------------------------
// Comparing

/// Whether the pattern stands for no number.
pub open spec fn is_nan(bits: u32) -> bool {
    bits % SIGN > INFINITY
}

/// An integer that is ordered as the numbers are; the two zeros have the same.
pub open spec fn rank(bits: u32) -> int {
    if bits < SIGN {
        bits as int
    } else {
        SIGN - bits
    }
}

/// Whether the one number is at least the other; never where one of them is no number.
pub open spec fn at_least(a: u32, b: u32) -> bool {
    !is_nan(a) && !is_nan(b) && rank(a) >= rank(b)
}

/// Whether the one number is above the other; never where one of them is no number.
pub open spec fn above(a: u32, b: u32) -> bool {
    !is_nan(a) && !is_nan(b) && rank(a) > rank(b)
}

/// Among the finite numbers without a sign the rank is the order of the numbers themselves.
pub proof fn law_rank_is_order(a: u32, b: u32)
    requires
        a < INFINITY,
        b < INFINITY,
    ensures
        at_least(a, b) <==> units_of(a) >= units_of(b),
        above(a, b) <==> units_of(a) > units_of(b),
{
    if a < b {
        crate::single::lemma_units_ordered(a, b);
    } else if b < a {
        crate::single::lemma_units_ordered(b, a);
    }
}

/// Whether the pattern stands for no number.
pub fn nan(bits: u32) -> (res: bool)
    ensures
        res == is_nan(bits),
{
    bits % SIGN > INFINITY
}

fn rank_of(bits: u32) -> (r: i64)
    ensures
        r == rank(bits),
{
    if bits < SIGN {
        bits as i64
    } else {
        SIGN as i64 - bits as i64
    }
}

/// Whether the one number is at least the other.
pub fn reaches(a: u32, b: u32) -> (res: bool)
    ensures
        res == at_least(a, b),
{
    !nan(a) && !nan(b) && rank_of(a) >= rank_of(b)
}

/// Whether the one number is above the other.
pub fn exceeds(a: u32, b: u32) -> (res: bool)
    ensures
        res == above(a, b),
{
    !nan(a) && !nan(b) && rank_of(a) > rank_of(b)
}

/// A number held to a range; what is no number stays as it is.
pub open spec fn clamped(x: u32, low: u32, high: u32) -> u32 {
    if above(low, x) {
        low
    } else if above(x, high) {
        high
    } else {
        x
    }
}

/// A number held to a range.
pub fn clamp_level(x: u32, low: u32, high: u32) -> (res: u32)
    requires
        at_least(high, low),
    ensures
        res == clamped(x, low, high),
{
    if exceeds(low, x) {
        low
    } else if exceeds(x, high) {
        high
    } else {
        x
    }
}

// ---------------------------------------------------------------------------
// Loudness

/// How far a sample lies from silence.
pub open spec fn amplitude(sample: i16) -> nat {
    if sample < 0 {
        (-sample) as nat
    } else {
        sample as nat
    }
}

/// The largest amplitude among the samples.
pub open spec fn peak(samples: Seq<i16>) -> nat
    decreases samples.len(),
{
    if samples.len() == 0 {
        0
    } else {
        let rest = peak(samples.drop_last());
        let last = amplitude(samples.last());
        if last > rest {
            last
        } else {
            rest
        }
    }
}

/// The level of an amplitude: its part of the largest positive sample, at most one; in units of
/// [`one`].
pub open spec fn level_units(amplitude: nat) -> nat {
    let part = single(amplitude * one(), 32767);
    if part > one() {
        one()
    } else {
        part
    }
}

/// An amplitude as a part of the largest positive sample.
fn part_of_full(amplitude: u32) -> (part: Single)
    requires
        amplitude <= 32768,
    ensures
        part.units() == single(amplitude as nat * one(), 32767),
        amplitude == 0 ==> part.mant == 0 && part.exp == 0,
        amplitude > 0 ==> part.normal(-60, 60),
{
    let part = Single::from_int(amplitude as u64).div(Single::from_int(32767));
    proof {
        crate::single::lemma_single_exact(amplitude as nat, 149);
        crate::single::lemma_single_exact(32767, 149);
        vstd::arithmetic::power2::lemma_pow2_pos(149);
        crate::single::lemma_single_scaled(amplitude as nat * one(), 32767, one());
    }
    part
}

/// The level of the samples, as a bit pattern: that of the loudest of them.
pub open spec fn audio_level(samples: Seq<i16>) -> u32 {
    choose|bits: u32| bits <= ONE && units_of(bits) == level_units(peak(samples))
}

/// The level of the samples: that of the loudest of them.
pub fn audio_level_i16(samples: &[i16]) -> (level: u32)
    ensures
        level == audio_level(samples@),
        level <= ONE,
        units_of(level) == level_units(peak(samples@)),
{
    let mut top: u32 = 0;
    for i in 0..samples.len()
        invariant
            top == peak(samples@.take(i as int)),
            top <= 32768,
    {
        let sample = samples[i];
        let size: u32 = if sample < 0 {
            (-(sample as i32)) as u32
        } else {
            sample as u32
        };
        assert(samples@.take(i + 1).drop_last() =~= samples@.take(i as int));
        if size > top {
            top = size;
        }
    }
    assert(samples@.take(samples@.len() as int) =~= samples@);
    let bits = part_of_full(top).to_bits();
    proof {
        lemma_one();
        if bits > ONE {
            crate::single::lemma_units_ordered(ONE, bits);
        } else if bits < ONE {
            crate::single::lemma_units_ordered(bits, ONE);
        }
    }
    let level: u32 = if bits > ONE {
        ONE
    } else {
        bits
    };
    proof {
        let other = audio_level(samples@);
        if level < other {
            crate::single::lemma_units_ordered(level, other);
        } else if other < level {
            crate::single::lemma_units_ordered(other, level);
        }
    }
    level
}

pub(crate) proof fn lemma_one()
    ensures
        units_of(ONE) == one(),
{
    crate::single::lemma_pow2_24();
    vstd::arithmetic::power2::lemma_pow2_adds(23, 126);
}

/// No sample is louder than the level of the samples, and one of them is as loud, unless there
/// is none.
pub proof fn law_level_is_loudest(samples: Seq<i16>)
    ensures
        forall|i: int|
            0 <= i < samples.len() ==> level_units(#[trigger] amplitude(samples[i])) <= level_units(
                peak(samples),
            ),
        samples.len() > 0 ==> exists|i: int|
            0 <= i < samples.len() && #[trigger] amplitude(samples[i]) == peak(samples),
{
    lemma_peak(samples);
    assert forall|i: int| 0 <= i < samples.len() implies level_units(
        #[trigger] amplitude(samples[i]),
    ) <= level_units(peak(samples)) by {
        let a = amplitude(samples[i]);
        let b = peak(samples);
        let o = one();
        assert(a * o <= b * o) by (nonlinear_arith)
            requires
                a <= b,
        ;
        crate::single::lemma_single_ordered(a * o, b * o, 32767);
    }
}

proof fn lemma_peak(samples: Seq<i16>)
    ensures
        forall|i: int| 0 <= i < samples.len() ==> #[trigger] amplitude(samples[i]) <= peak(samples),
        samples.len() > 0 ==> exists|i: int|
            0 <= i < samples.len() && #[trigger] amplitude(samples[i]) == peak(samples),
    decreases samples.len(),
{
    if samples.len() > 0 {
        let rest = samples.drop_last();
        lemma_peak(rest);
        assert(forall|i: int| 0 <= i < rest.len() ==> rest[i] == samples[i]);
        let last = samples.len() - 1;
        assert(amplitude(samples[last]) == amplitude(samples.last()));
        if amplitude(samples.last()) <= peak(rest) && rest.len() > 0 {
            let i = choose|i: int|
                0 <= i < rest.len() && #[trigger] amplitude(rest[i]) == peak(rest);
            assert(amplitude(samples[i]) == peak(samples));
        }
    }
}

// ---------------------------------------------------------------------------
// Sound in single precision

/// The sample for a sound pressure between minus one and one; what lies outside is held to that
/// range, and what is no number is silence.
pub open spec fn sample_of_bits(bits: u32) -> int {
    let size = bits % SIGN;
    if size > INFINITY {
        0
    } else {
        let units = if size >= ONE {
            one()
        } else {
            units_of(size)
        };
        let whole = single(units * 32767, 1) / one();
        if bits < SIGN {
            whole as int
        } else {
            -whole
        }
    }
}

/// The sample for a sound pressure.
pub fn sample_from_bits(bits: u32) -> (sample: i16)
    ensures
        sample == sample_of_bits(bits),
{
    let mut size: u32 = bits % SIGN;
    if size > INFINITY {
        return 0;
    }
    proof {
        lemma_one();
    }
    if size > ONE {
        size = ONE;
    }
    let (mant, k) = split_bits(size);
    let t: u64 = mant * 32767;
    let (m, s) = round_off(t as u128);
    proof {
        crate::single::lemma_pow2_24();
        crate::single::lemma_excess(t as nat);
        vstd::arithmetic::power2::lemma2_to64();
        vstd::arithmetic::power2::lemma2_to64_rest();
        if s > 0 && 23 + s >= 39 {
            if 39 < 23 + s {
                vstd::arithmetic::power2::lemma_pow2_strictly_increases(39, (23 + s) as nat);
            }
        }
        crate::single::lemma_single_shifted(t as nat, k as nat);
        let p = pow2(k as nat);
        assert((mant as nat * p) * 32767 == t as nat * p) by (nonlinear_arith)
            requires
                t as nat == mant as nat * 32767,
        ;
    }
    // The pressure is at most one, so that the whole part lies in the upper digits.
    let down: u32 = 149 - (s + k);
    let ghost v = pow2((s + k) as nat);
    proof {
        vstd::arithmetic::power2::lemma_pow2_pos((s + k) as nat);
        vstd::arithmetic::power2::lemma_pow2_adds(down as nat, (s + k) as nat);
        let d = pow2(down as nat);
        vstd::arithmetic::power2::lemma_pow2_pos(down as nat);
        vstd::arithmetic::mul::lemma_mul_is_commutative(m as int, v as int);
        vstd::arithmetic::mul::lemma_mul_is_commutative(d as int, v as int);
        vstd::arithmetic::div_mod::lemma_div_multiples_vanish_quotient(
            v as int,
            m as int,
            d as int,
        );
        assert(single(units_of(size) * 32767, 1) / one() == m as nat / d);
        if down >= 25 {
            if down > 25 {
                vstd::arithmetic::power2::lemma_pow2_strictly_increases(25, down as nat);
            }
            vstd::arithmetic::div_mod::lemma_basic_div(m as int, d as int);
        }
    }
    if down >= 25 {
        return 0;
    }
    let whole: u128 = m as u128 / two_to(down);
    proof {
        // At one the whole part is that of the largest sample; below it is no larger.
        let u = units_of(size);
        if size < ONE {
            crate::single::lemma_units_ordered(size, ONE);
        }
        assert(u * 32767 <= 32767 * one());
        crate::single::lemma_single_ordered(u * 32767, 32767 * one(), 1);
        crate::single::lemma_single_exact(32767, 149);
        vstd::arithmetic::power2::lemma_pow2_pos(149);
        vstd::arithmetic::div_mod::lemma_div_is_ordered(
            single(u * 32767, 1) as int,
            (32767 * one()) as int,
            one() as int,
        );
        vstd::arithmetic::div_mod::lemma_div_by_multiple(32767, one() as int);
    }
    if bits < SIGN {
        whole as i16
    } else {
        -(whole as i16)
    }
}

/// The sound pressure of a sample: its part of the largest positive sample, as a bit pattern.
pub fn sample_to_bits(sample: i16) -> (bits: u32)
    ensures
        sample >= 0 ==> bits < INFINITY && units_of(bits) == single(sample as nat * one(), 32767),
        sample < 0 ==> SIGN <= bits < SIGN + INFINITY && units_of((bits - SIGN) as u32) == single(
            (-sample) as nat * one(),
            32767,
        ),
{
    if sample >= 0 {
        part_of_full(sample as u32).to_bits()
    } else {
        SIGN + part_of_full((-(sample as i32)) as u32).to_bits()
    }
}

/// Numbers, with a sign or without, are compared as what they stand for; nothing is at least or
/// above what is no number, nor the other way round; and infinity is at least every number.
pub proof fn law_numbers_compared(a: u32, b: u32)
    ensures
        a % SIGN < INFINITY && b % SIGN < INFINITY ==> (at_least(a, b)
            <==> crate::fixed::signed_units(a) >= crate::fixed::signed_units(b)) && (above(a, b)
            <==> crate::fixed::signed_units(a) > crate::fixed::signed_units(b)),
        a % SIGN > INFINITY || b % SIGN > INFINITY ==> !at_least(a, b) && !above(a, b),
        a == INFINITY && b % SIGN <= INFINITY ==> at_least(a, b),
        b == SIGN + INFINITY && a % SIGN <= INFINITY ==> at_least(a, b),
{
    if a % SIGN < INFINITY && b % SIGN < INFINITY {
        let x = a % SIGN;
        let y = b % SIGN;
        crate::single::law_bit_patterns(0);
        if x < y {
            crate::single::lemma_units_ordered(x, y);
        } else if y < x {
            crate::single::lemma_units_ordered(y, x);
        }
        if x > 0 {
            crate::single::lemma_units_ordered(0, x);
        }
        if y > 0 {
            crate::single::lemma_units_ordered(0, y);
        }
    }
}

/// A number held to a range lies in it, is not changed where it lay in it before, and is one of
/// the ends otherwise.
pub proof fn law_held_to_range(x: u32, low: u32, high: u32)
    requires
        at_least(high, low),
        !is_nan(x),
    ensures
        at_least(clamped(x, low, high), low),
        at_least(high, clamped(x, low, high)),
        at_least(x, low) && at_least(high, x) ==> clamped(x, low, high) == x,
        above(low, x) ==> clamped(x, low, high) == low,
        above(x, high) ==> clamped(x, low, high) == high,
{
}

/// The peak of the samples is the distance from silence that none of them exceeds and one of them
/// has; without samples it is nothing.
pub proof fn law_peak(samples: Seq<i16>)
    ensures
        forall|i: int|
            0 <= i < samples.len() ==> -peak(samples) <= #[trigger] samples[i] <= peak(samples),
        samples.len() > 0 ==> exists|i: int|
            0 <= i < samples.len() && (#[trigger] samples[i] == peak(samples) || samples[i] == -peak(
                samples,
            )),
        samples.len() == 0 ==> peak(samples) == 0,
{
    lemma_peak(samples);
    assert forall|i: int| 0 <= i < samples.len() implies -peak(samples) <= #[trigger] samples[i]
        <= peak(samples) by {
        assert(amplitude(samples[i]) <= peak(samples));
    }
    if samples.len() > 0 {
        let i = choose|i: int| 0 <= i < samples.len() && #[trigger] amplitude(samples[i]) == peak(
            samples,
        );
        assert(samples[i] == peak(samples) || samples[i] == -peak(samples));
    }
}

/// The level is the peak as a part of the largest positive sample, to one part in 2^24: zero for
/// silence, one for the largest sample and for the one beyond it.
pub proof fn law_level_is_the_peak(samples: Seq<i16>)
    ensures
        audio_level(samples) <= ONE,
        peak(samples) == 0 ==> audio_level(samples) == 0,
        peak(samples) >= 32767 ==> audio_level(samples) == ONE,
        peak(samples) <= 32767 ==> 0xff_ffff * (peak(samples) * one()) <= 0x100_0000 * (units_of(
            audio_level(samples),
        ) * 32767) <= 0x100_0001 * (peak(samples) * one()),
{
    let m = peak(samples);
    let o = one();
    let part = single(m * o, 32767);
    law_peak(samples);
    lemma_one();
    vstd::arithmetic::power2::lemma_pow2_pos(149);
    crate::single::lemma_pow2_24();
    crate::single::law_bit_patterns(0);
    crate::single::lemma_single_scaled(o, 1, 32767);
    crate::single::lemma_single_exact(1, 149);
    assert(1 * o == o);
    assert(single(32767 * o, 32767) == o) by {
        assert(o * 32767 == 32767 * o);
        assert(1 * 32767 == 32767nat);
    }
    let units = level_units(m);
    let bits: u32 = if part <= o {
        crate::single::lemma_has_pattern(m * o, 32767)
    } else {
        ONE
    };
    assert(bits <= ONE && units_of(bits) == units);
    let level = audio_level(samples);
    assert(level <= ONE && units_of(level) == units);
    if m == 0 {
        assert(0 * o == 0);
        assert(0nat / 32767 == 0);
        assert(part == 0);
        if level > 0 {
            crate::single::lemma_units_ordered(0, level);
        }
    } else {
        vstd::arithmetic::power2::lemma2_to64();
        vstd::arithmetic::power2::lemma_pow2_adds(85, 64);
        vstd::arithmetic::power2::lemma_pow2_pos(85);
        assert(o >= 0x1_0000_0000_0000_0000) by (nonlinear_arith)
            requires
                o == pow2(85) * 0x1_0000_0000_0000_0000,
                pow2(85) >= 1,
        ;
        assert(m * o >= o) by (nonlinear_arith)
            requires
                m >= 1,
        ;
        crate::single::lemma_single_near(m * o, 32767);
        if m >= 32767 {
            assert(m * o >= 32767 * o) by (nonlinear_arith)
                requires
                    m >= 32767,
            ;
            crate::single::lemma_single_ordered(32767 * o, m * o, 32767);
            assert(units == o);
            if level < ONE {
                crate::single::lemma_units_ordered(level, ONE);
            }
        } else {
            assert(m * o <= 32767 * o) by (nonlinear_arith)
                requires
                    m <= 32767,
            ;
            crate::single::lemma_single_ordered(m * o, 32767 * o, 32767);
        }
    }
}

/// What is louder has no lower level.
pub proof fn law_louder_is_not_lower(quiet: Seq<i16>, loud: Seq<i16>)
    requires
        peak(quiet) <= peak(loud),
    ensures
        at_least(audio_level(loud), audio_level(quiet)),
{
    let a = peak(quiet);
    let b = peak(loud);
    let o = one();
    assert(a * o <= b * o) by (nonlinear_arith)
        requires
            a <= b,
    ;
    crate::single::lemma_single_ordered(a * o, b * o, 32767);
    lemma_level_units(quiet);
    lemma_level_units(loud);
    if audio_level(loud) < audio_level(quiet) {
        crate::single::lemma_units_ordered(audio_level(loud), audio_level(quiet));
    }
}

/// The level of the samples has a bit pattern.
proof fn lemma_level_units(samples: Seq<i16>)
    ensures
        audio_level(samples) <= ONE,
        units_of(audio_level(samples)) == level_units(peak(samples)),
{
    let m = peak(samples);
    lemma_one();
    let bits: u32 = if single(m * one(), 32767) <= one() {
        crate::single::lemma_has_pattern(m * one(), 32767)
    } else {
        ONE
    };
    assert(bits <= ONE && units_of(bits) == level_units(m));
}

/// A sound pressure between minus one and one becomes its part of the largest sample, the fraction
/// cut off, but for what rounding changes: less than a hundredth. What lies outside becomes the
/// largest sample, or the one as far on the other side, what is no number silence, and the opposite
/// pressure the opposite sample.
pub proof fn law_sample_of_pressure(bits: u32)
    ensures
        -32767 <= sample_of_bits(bits) <= 32767,
        bits % SIGN > INFINITY ==> sample_of_bits(bits) == 0,
        ONE <= bits <= INFINITY ==> sample_of_bits(bits) == 32767,
        bits < SIGN && bits <= INFINITY ==> sample_of_bits((bits + SIGN) as u32) == -sample_of_bits(
            bits,
        ),
        bits < ONE ==> ({
            let exact = units_of(bits) * 32767;
            let v = sample_of_bits(bits) * one();
            0 <= v && 100 * (v - exact) <= one() && 100 * (exact - v) <= 101 * one()
        }),
{
    let o = one();
    let size = bits % SIGN;
    lemma_one();
    vstd::arithmetic::power2::lemma_pow2_pos(149);
    crate::single::lemma_single_exact(32767, 149);
    assert(o * 32767 == 32767 * o);
    vstd::arithmetic::div_mod::lemma_div_by_multiple(32767, o as int);
    if size <= INFINITY {
        let units = if size >= ONE {
            o
        } else {
            units_of(size)
        };
        if size < ONE {
            crate::single::lemma_units_ordered(size, ONE);
        }
        let exact = units * 32767;
        let rounded = single(exact, 1);
        assert(exact <= 32767 * o);
        crate::single::lemma_single_ordered(exact, 32767 * o, 1);
        let whole = rounded / o;
        vstd::arithmetic::div_mod::lemma_div_is_ordered(
            rounded as int,
            (32767 * o) as int,
            o as int,
        );
        vstd::arithmetic::div_mod::lemma_div_pos_is_pos(rounded as int, o as int);
        vstd::arithmetic::div_mod::lemma_fundamental_div_mod(rounded as int, o as int);
        assert(o * whole == whole * o) by (nonlinear_arith);
        if exact >= 0x80_0000 {
            crate::single::lemma_single_near(exact, 1);
            assert(rounded * 1 == rounded);
        } else {
            crate::single::lemma_pow2_24();
            crate::single::lemma_single_exact(exact, 0);
            assert(exact * 1 == exact);
        }
    }
    if bits < SIGN {
        assert(((bits + SIGN) as u32) % SIGN == bits);
    }
}

} // verus!
