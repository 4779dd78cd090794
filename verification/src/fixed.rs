//! Numbers in single precision, written with a fixed number of decimals.
use crate::level::ONE;
use crate::single::{
    half_even, nearest, one, round_off, single, split_bits, two_to, units_of, INFINITY, SIGN,
};
use crate::text::{decimal_chars, string_of};
use vstd::arithmetic::power2::pow2;
use vstd::prelude::*;

verus! {

/// Ten to the power of `places`.
pub open spec fn ten_to(places: nat) -> nat
    decreases places,
{
    if places == 0 {
        1
    } else {
        10 * ten_to((places - 1) as nat)
    }
}

/// The last `width` digits of `n`.
pub open spec fn last_digits(n: nat, width: nat) -> Seq<char>
    decreases width,
{
    if width == 0 {
        seq![]
    } else {
        last_digits(n / 10, (width - 1) as nat).push(crate::text::digit(n % 10))
    }
}

/// A whole number of steps, of which [`ten_to`]`(places)` make up one, in decimal.
pub open spec fn with_point(n: nat, places: nat) -> Seq<char> {
    let whole = crate::text::decimal(n / ten_to(places));
    if places == 0 {
        whole
    } else {
        whole + seq!['.'] + last_digits(n, places)
    }
}

/// A number, given in units of [`one`], with the given number of decimals: the nearest one that
/// can be written so, and of two that are equally near the one with the even last digit.
pub open spec fn fixed(units: nat, places: nat) -> Seq<char> {
    with_point(half_even(units * ten_to(places), one()), places)
}

/// The number with the given bit pattern, with the given number of decimals.
pub open spec fn fixed_text(bits: u32, places: nat) -> Seq<char> {
    let size = bits % SIGN;
    if size > INFINITY {
        "NaN"@
    } else {
        let digits = if size == INFINITY {
            "inf"@
        } else {
            fixed(units_of(size), places)
        };
        if bits >= SIGN {
            seq!['-'] + digits
        } else {
            digits
        }
    }
}

proof fn lemma_ten_to()
    ensures
        ten_to(0) == 1,
        ten_to(1) == 10,
        ten_to(2) == 100,
        ten_to(3) == 1000,
{
    reveal_with_fuel(ten_to, 4);
}

/// The last digits of a number.
fn last_digit_chars(n: u128, width: u32) -> (chars: Vec<char>)
    ensures
        chars@ == last_digits(n as nat, width as nat),
    decreases width,
{
    if width == 0 {
        return Vec::new();
    }
    let mut chars: Vec<char> = last_digit_chars(n / 10, width - 1);
    let d: u8 = (n % 10) as u8;
    chars.push((48u8 + d) as char);
    assert(chars@ =~= last_digits(n as nat, width as nat));
    chars
}

/// A whole number of steps in decimal.
fn with_point_chars(n: u128, scale: u128, places: u32) -> (chars: Vec<char>)
    requires
        scale == ten_to(places as nat),
        scale > 0,
    ensures
        chars@ == with_point(n as nat, places as nat),
{
    let mut chars: Vec<char> = decimal_chars(n / scale);
    if places > 0 {
        chars.push('.');
        let mut rest = last_digit_chars(n, places);
        chars.append(&mut rest);
        assert(chars@ =~= with_point(n as nat, places as nat));
    }
    chars
}

/// A whole number shows no steps behind its point.
proof fn lemma_no_steps(whole: nat, places: nat)
    ensures
        last_digits(whole * ten_to(places), places) == last_digits(0, places),
        (whole * ten_to(places)) / ten_to(places) == whole,
    decreases places,
{
    let t = ten_to(places);
    lemma_ten_to_positive(places);
    vstd::arithmetic::div_mod::lemma_div_by_multiple(whole as int, t as int);
    if places > 0 {
        let p = (places - 1) as nat;
        let n = whole * t;
        let m = whole * ten_to(p);
        assert(n == 10 * m) by (nonlinear_arith)
            requires
                n == whole * t,
                t == 10 * ten_to(p),
                m == whole * ten_to(p),
        ;
        lemma_no_steps(whole, p);
        assert(n / 10 == m);
        assert(n % 10 == 0);
    }
}

proof fn lemma_ten_to_positive(places: nat)
    ensures
        ten_to(places) > 0,
    decreases places,
{
    if places > 0 {
        lemma_ten_to_positive((places - 1) as nat);
    }
}

/// The number `mant * 2^k`, in units of [`one`], with the given number of decimals.
fn fixed_chars(mant: u64, k: u32, places: u32) -> (chars: Vec<char>)
    requires
        mant <= 0x100_0000,
        k <= 253,
        mant < 0x100_0000 || k <= 149,
        places <= 3,
    ensures
        chars@ == fixed(mant as nat * pow2(k as nat), places as nat),
{
    let scale: u128 = if places == 0 {
        1
    } else if places == 1 {
        10
    } else if places == 2 {
        100
    } else {
        1000
    };
    let ghost t = ten_to(places as nat);
    let ghost m = mant as nat;
    let ghost units = m * pow2(k as nat);
    proof {
        lemma_ten_to();
        crate::single::lemma_pow2_24();
        vstd::arithmetic::power2::lemma_pow2_pos(149);
        vstd::arithmetic::power2::lemma_pow2_pos(k as nat);
    }
    if k >= 149 {
        let up: u32 = k - 149;
        let p: u128 = two_to(up);
        proof {
            vstd::arithmetic::power2::lemma_pow2_adds(149, up as nat);
            if up < 104 {
                vstd::arithmetic::power2::lemma_pow2_strictly_increases(up as nat, 104);
            }
            vstd::arithmetic::power2::lemma2_to64();
            vstd::arithmetic::power2::lemma2_to64_rest();
            vstd::arithmetic::power2::lemma_pow2_adds(52, 52);
            assert(mant < 0x100_0000 ==> mant * p <= 0xff_ffff * p) by (nonlinear_arith);
            assert(up == 0 ==> p == 1);
        }
        let whole: u128 = mant as u128 * p;
        proof {
            let w = whole as nat;
            let o = one();
            assert(units == w * o) by (nonlinear_arith)
                requires
                    units == m * pow2(k as nat),
                    pow2(k as nat) == o * p as nat,
                    w == m * p as nat,
            ;
            assert((w * o) * t == (w * t) * o) by (nonlinear_arith);
            vstd::arithmetic::div_mod::lemma_div_by_multiple((w * t) as int, o as int);
            vstd::arithmetic::div_mod::lemma_mod_multiples_basic((w * t) as int, o as int);
            assert(half_even(units * t, o) == w * t);
            lemma_no_steps(w, places as nat);
        }
        let mut chars: Vec<char> = decimal_chars(whole);
        if places > 0 {
            chars.push('.');
            let mut rest = last_digit_chars(0, places);
            chars.append(&mut rest);
        }
        assert(chars@ =~= fixed(units, places as nat));
        return chars;
    }
    let down: u32 = 149 - k;
    let ghost d = pow2(down as nat);
    let steps: u128 = mant as u128 * scale;
    proof {
        vstd::arithmetic::power2::lemma_pow2_adds(down as nat, k as nat);
        vstd::arithmetic::power2::lemma_pow2_pos(down as nat);
        let q = pow2(k as nat);
        assert((units * t) * d == (m * t) * (d * q)) by (nonlinear_arith)
            requires
                units == m * q,
        ;
        crate::single::lemma_half_even_ratio(units * t, one(), m * t, d);
        assert(m * t <= 0x100_0000 * 1000) by (nonlinear_arith)
            requires
                m <= 0x100_0000,
                t <= 1000,
        ;
        assert(steps == m * t);
    }
    if down > 126 {
        proof {
            crate::single::lemma_pow2_126();
            vstd::arithmetic::power2::lemma_pow2_strictly_increases(126, down as nat);
            vstd::arithmetic::div_mod::lemma_basic_div((m * t) as int, d as int);
            vstd::arithmetic::div_mod::lemma_small_mod(m * t, d);
        }
        return with_point_chars(0, scale, places);
    }
    let n: u128 = nearest(steps, two_to(down));
    with_point_chars(n, scale, places)
}

/// The number with the given bit pattern, with the given number of decimals.
pub fn format_fixed(bits: u32, places: u32) -> (text: String)
    requires
        places <= 3,
    ensures
        text@ == fixed_text(bits, places as nat),
{
    let size: u32 = bits % SIGN;
    if size > INFINITY {
        return "NaN".to_string();
    }
    let mut text = String::new();
    if bits >= SIGN {
        text.push('-');
    }
    if size == INFINITY {
        text.append("inf");
    } else {
        let (mant, k) = split_bits(size);
        text.append(string_of(&fixed_chars(mant, k, places)).as_str());
    }
    assert(text@ =~= fixed_text(bits, places as nat));
    text
}

/// A level between zero and one, in per cent without decimals.
pub open spec fn percent_text(level: u32) -> Seq<char> {
    fixed(single(units_of(level) * 100, 1), 0).push('%')
}

/// A level in per cent.
pub fn format_percent(level: u32) -> (text: String)
    requires
        level <= ONE,
    ensures
        text@ == percent_text(level),
{
    let (mant, k) = split_bits(level);
    let t: u64 = mant * 100;
    let (m, s) = round_off(t as u128);
    proof {
        crate::single::lemma_pow2_24();
        crate::single::lemma_excess(t as nat);
        vstd::arithmetic::power2::lemma2_to64();
        if s > 8 {
            vstd::arithmetic::power2::lemma_pow2_strictly_increases(31, (23 + s) as nat);
        }
        crate::single::lemma_single_shifted(t as nat, k as nat);
        let p = pow2(k as nat);
        assert((mant as nat * p) * 100 == t as nat * p) by (nonlinear_arith)
            requires
                t as nat == mant as nat * 100,
        ;
    }
    let mut text = string_of(&fixed_chars(m, s + k, 0));
    text.push('%');
    text
}

/// Whether the character can stand in a number with decimals.
pub open spec fn is_number_char(c: char) -> bool {
    crate::text::is_digit(c) || c == '.' || c == '-' || c == 'N' || c == 'a' || c == 'i' || c == 'n'
        || c == 'f'
}

proof fn lemma_last_digits(n: nat, width: nat)
    ensures
        forall|c: char| #[trigger] last_digits(n, width).contains(c) ==> crate::text::is_digit(c),
    decreases width,
{
    if width > 0 {
        let rest = last_digits(n / 10, (width - 1) as nat);
        let text = last_digits(n, width);
        lemma_last_digits(n / 10, (width - 1) as nat);
        assert forall|c: char| #[trigger] text.contains(c) implies crate::text::is_digit(c) by {
            let i = choose|i: int| 0 <= i < text.len() && text[i] == c;
            if i < rest.len() {
                assert(rest[i] == c);
                assert(rest.contains(c));
            }
        }
    }
}

/// A number with decimals is made of digits, a point and a sign, or says that it is none.
pub proof fn lemma_fixed_chars(bits: u32, places: nat)
    ensures
        forall|c: char| #[trigger] fixed_text(bits, places).contains(c) ==> is_number_char(c),
{
    reveal_strlit("NaN");
    reveal_strlit("inf");
    let size = bits % SIGN;
    let text = fixed_text(bits, places);
    let n = half_even(units_of(size) * ten_to(places), one());
    let whole = crate::text::decimal(n / ten_to(places));
    let steps = last_digits(n, places);
    crate::text::lemma_unsigned_decimal(n / ten_to(places), n / ten_to(places));
    lemma_last_digits(n, places);
    assert forall|c: char| #[trigger] text.contains(c) implies is_number_char(c) by {
        let i = choose|i: int| 0 <= i < text.len() && text[i] == c;
        if size < INFINITY {
            let j = if bits >= SIGN {
                i - 1
            } else {
                i
            };
            if 0 <= j < whole.len() {
                assert(whole[j] == c);
                assert(whole.contains(c));
            } else if j > whole.len() {
                assert(steps[j - whole.len() - 1] == c);
                assert(steps.contains(c));
            }
        }
    }
}

// ---------------------------------------------------------------------------
// What the decimals stand for

/// The number that digits stand for, as a fraction; there may be a point among them.
pub open spec fn written(text: Seq<char>) -> (nat, nat) {
    let p = crate::text::find(text, '.') as int;
    if p < text.len() {
        (
            crate::text::number(text.take(p) + text.skip(p + 1)),
            ten_to((text.len() - p - 1) as nat),
        )
    } else {
        (crate::text::number(text), 1)
    }
}

/// Whether the bit pattern is that of the single-precision number nearest to what the text says,
/// ties to even; the text is made of digits, with or without a point among them and a minus sign
/// before them.
pub open spec fn is_nearest(bits: u32, text: Seq<char>) -> bool {
    let negative = text.len() > 0 && text[0] == '-';
    let digits = if negative {
        text.drop_first()
    } else {
        text
    };
    let (n, d) = written(digits);
    &&& bits % SIGN < INFINITY
    &&& bits >= SIGN <==> negative
    &&& units_of(bits % SIGN) == single(n * one(), d)
}

/// The number with the given bit pattern, in units of [`one`], where it is finite.
pub open spec fn signed_units(bits: u32) -> int {
    if bits < SIGN {
        units_of(bits) as int
    } else {
        -units_of((bits - SIGN) as u32)
    }
}

/// Whether the numbers differ by at most 6 in ten thousand.
pub open spec fn is_close(a: u32, b: u32) -> bool {
    let difference = signed_units(a) - signed_units(b);
    -6 * one() <= 10_000 * difference <= 6 * one()
}

/// The last digits of a number stand for its remainder.
proof fn lemma_last_digits_number(head: Seq<char>, n: nat, width: nat)
    ensures
        last_digits(n, width).len() == width,
        crate::text::number(head + last_digits(n, width)) == crate::text::number(head) * ten_to(
            width,
        ) + n % ten_to(width),
    decreases width,
{
    let text = head + last_digits(n, width);
    lemma_ten_to_positive(width);
    if width == 0 {
        assert(text =~= head);
        assert(n % 1 == 0);
        assert(crate::text::number(head) * 1 == crate::text::number(head));
    } else {
        let w = (width - 1) as nat;
        let m = ten_to(w);
        let h = crate::text::number(head);
        lemma_last_digits_number(head, n / 10, w);
        lemma_ten_to_positive(w);
        assert(text.drop_last() =~= head + last_digits(n / 10, w));
        assert(text.last() == crate::text::digit(n % 10));
        vstd::arithmetic::div_mod::lemma_mod_breakdown(n as int, 10, m as int);
        assert((h * m) * 10 == h * (10 * m)) by (nonlinear_arith);
    }
}

/// What is written with a point is the number of steps, of which so many make up one.
proof fn lemma_written(n: nat, places: nat)
    requires
        places > 0,
    ensures
        written(with_point(n, places)) == (n, ten_to(places)),
        with_point(n, places).len() > 0,
        with_point(n, places)[0] != '-',
{
    let t = ten_to(places);
    let whole = crate::text::decimal(n / t);
    let steps = last_digits(n, places);
    let text = with_point(n, places);
    let p = whole.len() as int;
    lemma_ten_to_positive(places);
    crate::text::lemma_decimal(n / t);
    lemma_last_digits_number(whole, n, places);
    assert forall|i: int| 0 <= i < p implies text[i] != '.' && text[i] != '-' by {
        assert(text[i] == whole[i]);
        assert(crate::text::is_digit(whole[i]));
    }
    crate::text::lemma_find_is(text, '.', p);
    assert(text.take(p) =~= whole);
    assert(text.skip(p + 1) =~= steps);
    vstd::arithmetic::div_mod::lemma_fundamental_div_mod(n as int, t as int);
    vstd::arithmetic::mul::lemma_mul_is_commutative(t as int, (n / t) as int);
}

/// A number between zero and one, written with three decimals and read back as the nearest number,
/// is between zero and one and close to what it was.
pub proof fn lemma_three_decimals(bits: u32, back: u32)
    requires
        bits <= ONE || bits == SIGN,
        is_nearest(back, fixed_text(bits, 3)),
    ensures
        back <= ONE || back == SIGN,
        is_close(back, bits),
        units_of(back % SIGN) == single(
            half_even(units_of(bits % SIGN) * 1000, one()) * one(),
            1000,
        ),
{
    let o = one();
    let size = bits % SIGN;
    let u = units_of(size);
    let n = half_even(u * 1000, o);
    let v = single(n * o, 1000);
    let digits = with_point(n, 3);
    lemma_ten_to();
    lemma_written(n, 3);
    crate::level::lemma_one();
    crate::single::lemma_pow2_24();
    vstd::arithmetic::power2::lemma_pow2_pos(149);
    assert(0 * pow2(0) == 0);
    if bits == SIGN {
        assert(fixed_text(bits, 3).drop_first() =~= digits);
    } else {
        assert(fixed_text(bits, 3) =~= digits);
        if size < ONE {
            crate::single::lemma_units_ordered(size, ONE);
        }
    }
    assert(u <= o);
    assert(units_of(back % SIGN) == v);
    // The steps are within a half of the number, and the number read back within a hair of them.
    crate::single::lemma_half_even_near(u * 1000, o);
    crate::single::lemma_half_even_ordered(u * 1000, 1000 * o, o);
    vstd::arithmetic::div_mod::lemma_div_by_multiple(1000, o as int);
    vstd::arithmetic::div_mod::lemma_mod_multiples_basic(1000, o as int);
    assert(half_even(1000 * o, o) == 1000);
    assert(n * o <= 1000 * o) by (nonlinear_arith)
        requires
            n <= 1000,
    ;
    crate::single::lemma_single_ordered(n * o, 1000 * o, 1000);
    crate::single::lemma_single_scaled(o, 1, 1000);
    crate::single::lemma_single_exact(1, 149);
    assert(single(1000 * o, 1000) == o);
    assert(v <= o);
    if n == 0 {
        assert(0 * o == 0);
        assert(0nat / 1000 == 0);
        assert(v == 0);
    } else {
        vstd::arithmetic::power2::lemma2_to64();
        vstd::arithmetic::power2::lemma_pow2_adds(85, 64);
        vstd::arithmetic::power2::lemma_pow2_pos(85);
        assert(o >= 0x1_0000_0000_0000_0000) by (nonlinear_arith)
            requires
                o == pow2(85) * 0x1_0000_0000_0000_0000,
                pow2(85) >= 1,
        ;
        assert(n * o >= o) by (nonlinear_arith)
            requires
                n >= 1,
        ;
        crate::single::lemma_single_near(n * o, 1000);
    }
    if bits == SIGN {
        assert(n == 0);
        if back != SIGN {
            crate::single::lemma_units_ordered(0, back % SIGN);
        }
    } else if back > ONE {
        crate::single::lemma_units_ordered(ONE, back);
    }
}

/// A number with decimals has as many of them as asked for, and is the nearest one that can be
/// written so; of two that are equally near it is the one with the even last digit.
pub proof fn law_decimals_nearest(units: nat, places: nat)
    requires
        places > 0,
    ensures
        ({
            let text = fixed(units, places);
            let (n, d) = written(text);
            &&& d == ten_to(places)
            &&& text.len() > places + 1
            &&& text[text.len() - places - 1] == '.'
            &&& text.take(text.len() - places - 1) == crate::text::decimal(n / d)
            &&& 2 * (n * one()) <= 2 * (units * d) + one()
            &&& 2 * (units * d) <= 2 * (n * one()) + one()
            &&& 2 * (n * one()) == 2 * (units * d) + one() || 2 * (n * one()) + one() == 2 * (units
                * d) ==> n % 2 == 0
        }),
{
    let n = half_even(units * ten_to(places), one());
    vstd::arithmetic::power2::lemma_pow2_pos(149);
    crate::single::law_nearest_whole(units * ten_to(places), one(), 0);
    crate::single::lemma_half_even_near(units * ten_to(places), one());
    lemma_written(n, places);
    let whole = crate::text::decimal(n / ten_to(places));
    crate::text::lemma_decimal(n / ten_to(places));
    lemma_last_digits_number(whole, n, places);
    let text = fixed(units, places);
    assert(text.len() == whole.len() + 1 + places);
    assert(text[whole.len() as int] == '.');
    assert(text.take(whole.len() as int) =~= whole);
}

/// How many steps make up one: ten for each place.
pub proof fn law_steps(places: nat)
    ensures
        ten_to(0) == 1,
        ten_to(places + 1) == 10 * ten_to(places),
{
}

/// A level in per cent is a whole number and the sign behind it; the number is within a half of
/// the level, and a hair.
pub proof fn law_percent(level: u32)
    requires
        level <= ONE,
    ensures
        ({
            let text = percent_text(level);
            let n = crate::text::number(text.drop_last());
            &&& text.last() == '%'
            &&& text.drop_last() == crate::text::decimal(n)
            &&& 100 * (n * one()) <= 100 * (units_of(level) * 100) + 51 * one()
            &&& 100 * (units_of(level) * 100) <= 100 * (n * one()) + 51 * one()
        }),
{
    let o = one();
    let exact = units_of(level) * 100;
    let rounded = single(exact, 1);
    vstd::arithmetic::power2::lemma_pow2_pos(149);
    lemma_ten_to();
    crate::level::lemma_one();
    if level < ONE {
        crate::single::lemma_units_ordered(level, ONE);
    }
    assert(exact <= 100 * o);
    if exact >= 0x80_0000 {
        crate::single::lemma_single_near(exact, 1);
        assert(rounded * 1 == rounded);
    } else {
        crate::single::lemma_pow2_24();
        crate::single::lemma_single_exact(exact, 0);
        assert(exact * 1 == exact);
    }
    let n = half_even(rounded * 1, o);
    assert(rounded * 1 == rounded);
    crate::single::lemma_half_even_near(rounded, o);
    assert(n / 1 == n);
    crate::text::lemma_decimal(n);
    assert(percent_text(level).drop_last() =~= crate::text::decimal(n));
}

/// A negative number is the positive one with a minus sign before it.
pub proof fn law_sign_written(bits: u32, places: nat)
    requires
        bits <= INFINITY,
    ensures
        fixed_text((bits + SIGN) as u32, places) == seq!['-'] + fixed_text(bits, places),
        bits < INFINITY ==> fixed_text(bits, places) == fixed(units_of(bits), places),
        bits == INFINITY ==> fixed_text(bits, places) == "inf"@,
{
    assert(((bits + SIGN) as u32) % SIGN == bits);
}

/// What is no number is written so, with a sign or without.
pub proof fn law_no_number_written(bits: u32, places: nat)
    requires
        crate::level::is_nan(bits),
    ensures
        fixed_text(bits, places) == "NaN"@,
{
}

} // verus!
