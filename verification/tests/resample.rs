use saying::resample::{can_resample, resample_i16_mono};

/// The same computation on the numbers of the machine; `None` where it would leave the samples.
fn reference(samples: &[i16], input_rate: u32, output_rate: u32) -> Option<Vec<i16>> {
    if samples.is_empty() || input_rate == 0 || output_rate == 0 || input_rate == output_rate {
        return Some(samples.to_vec());
    }
    let ratio = output_rate as f32 / input_rate as f32;
    let output_len = ((samples.len() as f32) * ratio).max(1.0) as usize;
    let mut output = Vec::new();
    for index in 0..output_len {
        let source_pos = index as f32 / ratio;
        let left_index = source_pos.floor() as usize;
        let right_index = (left_index + 1).min(samples.len() - 1);
        let fraction = source_pos - left_index as f32;
        if left_index >= samples.len() {
            return None;
        }
        let left = samples[left_index] as f32;
        let right = samples[right_index] as f32;
        let interpolated = left + (right - left) * fraction;
        output.push(interpolated.clamp(i16::MIN as f32, i16::MAX as f32) as i16);
    }
    Some(output)
}

fn noise(seed: u64, len: usize) -> Vec<i16> {
    let mut state = seed;
    (0..len)
        .map(|_| {
            state = state.wrapping_mul(6364136223846793005).wrapping_add(1442695040888963407);
            (state >> 40) as i16
        })
        .collect()
}

#[test]
fn resampling_agrees_with_the_machine() {
    let rates = [1, 2, 3, 7, 8000, 11025, 16000, 22050, 32000, 44100, 48000, 88200, 96000, 192000];
    for (i, input) in rates.iter().enumerate() {
        for (j, output) in rates.iter().enumerate() {
            for len in [1usize, 2, 3, 17, 100] {
                if output / input * len as u32 > 100_000 {
                    continue;
                }
                let samples = noise((i * 100 + j) as u64 + len as u64, len);
                let expected = reference(&samples, *input, *output);
                assert_eq!(can_resample(len, *input, *output), expected.is_some());
                if let Some(expected) = expected {
                    assert_eq!(resample_i16_mono(&samples, *input, *output), expected);
                }
            }
        }
    }
}

#[test]
fn usual_buffers_are_resampled() {
    for (input, output) in [(44100, 48000), (48000, 44100), (16000, 48000), (48000, 8000)] {
        for len in [441usize, 480, 512, 960, 1024, 2048] {
            let samples = noise(len as u64, len);
            assert!(can_resample(len, input, output));
            assert_eq!(
                Some(resample_i16_mono(&samples, input, output)),
                reference(&samples, input, output)
            );
        }
    }
}

#[test]
fn unusual_rates_agree_with_the_machine() {
    let mut state: u64 = 7;
    for _ in 0..300 {
        state = state.wrapping_mul(6364136223846793005).wrapping_add(1442695040888963407);
        let input = (state >> 33) as u32 >> (state % 20);
        state = state.wrapping_mul(6364136223846793005).wrapping_add(1442695040888963407);
        let output = (state >> 33) as u32 >> (state % 20);
        let len = 1 + (state >> 20) as usize % 60;
        if output as u64 * len as u64 > input as u64 * 20_000 {
            continue;
        }
        let samples = noise(state, len);
        let expected = reference(&samples, input, output);
        assert_eq!(can_resample(len, input, output), expected.is_some());
        if let Some(expected) = expected {
            assert_eq!(resample_i16_mono(&samples, input, output), expected);
        }
    }
}

#[test]
fn a_known_case() {
    assert_eq!(resample_i16_mono(&[0, 100], 1, 2), vec![0, 50, 100, 100]);
    assert_eq!(resample_i16_mono(&[0, -3], 2, 3), vec![0, -2, -3]);
    assert_eq!(resample_i16_mono(&[5, 6, 7, 8], 4, 1), vec![5]);
    assert_eq!(resample_i16_mono(&[9], 48000, 8000), vec![9]);
}

#[test]
fn what_needs_no_change_is_left() {
    let samples = noise(1, 30);
    assert_eq!(resample_i16_mono(&samples, 8000, 8000), samples);
    assert_eq!(resample_i16_mono(&samples, 0, 8000), samples);
    assert_eq!(resample_i16_mono(&samples, 8000, 0), samples);
    assert_eq!(resample_i16_mono(&[], 8000, 48000), Vec::<i16>::new());
}

#[test]
fn a_constant_sound_stays_constant() {
    for value in [0, 1, -1, 12345, i16::MIN, i16::MAX] {
        let out = resample_i16_mono(&[value; 50], 44100, 48000);
        assert_eq!(out, vec![value; 54]);
    }
}

#[test]
fn some_ratios_are_out_of_reach() {
    assert!(!can_resample(2000, 1, 48000));
    assert!(!can_resample(usize::MAX, 1, u32::MAX));
}

#[test]
fn ordinary_sound_can_be_resampled() {
    let rates = [1u32, 99, 8000, 11025, 22050, 44100, 48000, 96000, 192000, 4_000_000_000];
    for input in rates {
        for output in rates {
            for len in [0usize, 1, 2, 480, 2048, 65_537, 1_000_000] {
                if len as u64 * output as u64 > 1_000_000 * input as u64 {
                    continue;
                }
                assert!(can_resample(len, input, output), "{len} {input} {output}");
            }
        }
    }
}

#[test]
fn the_length_is_what_the_rates_ask_for() {
    for (input, output) in [(44100u32, 48000u32), (48000, 44100), (8000, 192000), (96000, 11025)] {
        for len in [1usize, 441, 1024, 4000] {
            let out = resample_i16_mono(&noise(3, len), input, output).len() as i64;
            let difference = out * input as i64 - len as i64 * output as i64;
            assert!(difference.abs() <= 2 * input as i64);
        }
    }
}

#[test]
fn resampling_does_not_overshoot() {
    let samples: Vec<i16> = noise(9, 500).iter().map(|s| s % 1000 - 7000).collect();
    for output in [8000, 44100, 48000, 96000] {
        for sample in resample_i16_mono(&samples, 22050, output) {
            assert!((-7999..=-6001).contains(&sample));
        }
    }
}
