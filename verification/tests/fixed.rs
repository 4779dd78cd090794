use saying::fixed::{format_fixed, format_percent};
use saying::level::{audio_level_i16, ONE};

fn check(bits: u32) {
    let x = f32::from_bits(bits);
    assert_eq!(format_fixed(bits, 0), format!("{:.0}", x));
    assert_eq!(format_fixed(bits, 1), format!("{:.1}", x));
    assert_eq!(format_fixed(bits, 2), format!("{:.2}", x));
    assert_eq!(format_fixed(bits, 3), format!("{:.3}", x));
}

#[test]
fn decimals_agree_with_the_machine() {
    let mut state: u64 = 11;
    for _ in 0..3000 {
        state = state.wrapping_mul(6364136223846793005).wrapping_add(1442695040888963407);
        check((state >> 32) as u32);
        check(0x3a000000 + ((state >> 32) as u32 & 0x0fffffff));
    }
}

#[test]
fn ties_go_to_the_even_digit() {
    for n in -2000i32..2000 {
        check((n as f32 / 8.0).to_bits());
        check((n as f32 / 16.0).to_bits());
    }
    assert_eq!(format_fixed(0.125f32.to_bits(), 2), "0.12");
    assert_eq!(format_fixed(0.375f32.to_bits(), 2), "0.38");
    assert_eq!(format_fixed(2.5f32.to_bits(), 0), "2");
}

#[test]
fn the_ends_of_the_range() {
    for x in [0.0f32, -0.0, 1.0, f32::MAX, f32::MIN, f32::MIN_POSITIVE, 1e-45, 0.9995, 16777216.0] {
        check(x.to_bits());
    }
    check(f32::INFINITY.to_bits());
    check(f32::NEG_INFINITY.to_bits());
    check(f32::NAN.to_bits());
    assert_eq!(format_fixed((-0.0f32).to_bits(), 3), "-0.000");
}

#[test]
fn levels_in_per_cent() {
    for sample in 0..=i16::MAX {
        let level = audio_level_i16(&[sample]);
        let expected = format!("{:.0}%", f32::from_bits(level) * 100.0);
        assert_eq!(format_percent(level), expected);
    }
    assert_eq!(format_percent(ONE), "100%");
    assert_eq!(format_percent(0), "0%");
}
