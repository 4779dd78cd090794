use saying::level::{
    audio_level_i16, clamp_level, exceeds, nan, reaches, sample_from_bits, sample_to_bits, ONE,
};

fn odd_patterns() -> Vec<u32> {
    let mut patterns = vec![
        0, 1, 0x7fffff, 0x800000, 0x3f800000, 0x3f7fffff, 0x3f800001, 0x7f7fffff, 0x7f800000,
        0x7f800001, 0x7fc00000, 0x7fffffff, 0x3effffff, 0x38000100, 0x2f000000,
    ];
    let mut state: u64 = 3;
    for _ in 0..2000 {
        state = state.wrapping_mul(6364136223846793005).wrapping_add(1442695040888963407);
        patterns.push((state >> 33) as u32);
        patterns.push(0x30000000 + ((state >> 33) as u32 & 0x0fffffff));
    }
    let negative: Vec<u32> = patterns.iter().map(|bits| bits | 0x80000000).collect();
    patterns.extend(negative);
    patterns
}

#[test]
fn one_is_one() {
    assert_eq!(ONE, 1.0f32.to_bits());
}

#[test]
fn comparisons_agree_with_the_machine() {
    let patterns = odd_patterns();
    for (i, a) in patterns.iter().enumerate() {
        for b in patterns.iter().skip(i % 37).step_by(37) {
            let (x, y) = (f32::from_bits(*a), f32::from_bits(*b));
            assert_eq!(reaches(*a, *b), x >= y);
            assert_eq!(exceeds(*a, *b), x > y);
            assert_eq!(nan(*a), x.is_nan());
        }
    }
}

#[test]
fn clamping_agrees_with_the_machine() {
    for bits in odd_patterns() {
        let clamped = clamp_level(bits, 0, ONE);
        assert_eq!(clamped, f32::from_bits(bits).clamp(0.0, 1.0).to_bits());
    }
}

#[test]
fn levels_agree_with_the_machine() {
    assert_eq!(audio_level_i16(&[]), 0);
    for sample in i16::MIN..=i16::MAX {
        let expected = ((sample as i32).unsigned_abs() as f32 / i16::MAX as f32).clamp(0.0, 1.0);
        assert_eq!(audio_level_i16(&[sample]), expected.to_bits());
    }
}

#[test]
fn the_loudest_sample_decides() {
    let quiet = audio_level_i16(&[1, -200, 3]);
    assert_eq!(quiet, audio_level_i16(&[200]));
    assert_eq!(quiet, (200.0f32 / 32767.0).to_bits());
    assert_eq!(audio_level_i16(&[5, i16::MIN]), ONE);
}

#[test]
fn pressures_become_samples_as_on_the_machine() {
    for bits in odd_patterns() {
        let expected = (f32::from_bits(bits).clamp(-1.0, 1.0) * i16::MAX as f32) as i16;
        assert_eq!(sample_from_bits(bits), expected, "{bits:x}");
    }
    for n in 0..=40000u32 {
        let x = n as f32 / 32767.0;
        let expected = (x.clamp(-1.0, 1.0) * i16::MAX as f32) as i16;
        assert_eq!(sample_from_bits(x.to_bits()), expected);
        assert_eq!(sample_from_bits((-x).to_bits()), -expected);
    }
}

#[test]
fn samples_become_pressures_as_on_the_machine() {
    for sample in i16::MIN..=i16::MAX {
        assert_eq!(sample_to_bits(sample), (sample as f32 / i16::MAX as f32).to_bits());
    }
}
