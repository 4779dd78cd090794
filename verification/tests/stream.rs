use saying::level::sample_to_bits;
use saying::stream::{
    fill_output_buffer, mono_from_i16, mono_from_single, mono_from_u16, sample_to_u16,
};
use std::collections::VecDeque;

#[test]
fn the_first_channel_is_picked() {
    let data: Vec<i16> = (0..10).collect();
    assert_eq!(mono_from_i16(&data, 1), data);
    assert_eq!(mono_from_i16(&data, 2), vec![0, 2, 4, 6, 8]);
    assert_eq!(mono_from_i16(&data, 3), vec![0, 3, 6, 9]);
    assert_eq!(mono_from_i16(&data, 10), vec![0]);
    assert_eq!(mono_from_i16(&data, 11), vec![0]);
    assert_eq!(mono_from_i16(&[], 2), Vec::<i16>::new());
    for channels in 1..12 {
        let expected: Vec<i16> = data.chunks(channels).map(|frame| frame[0]).collect();
        assert_eq!(mono_from_i16(&data, channels), expected);
    }
}

#[test]
fn unsigned_samples_are_shifted() {
    assert_eq!(mono_from_u16(&[0, 1, 32768, 7, 65535, 9], 2), vec![-32768, 0, 32767]);
    for sample in i16::MIN..=i16::MAX {
        let value = sample_to_u16(sample);
        assert_eq!(value, (sample as i32 + 32768) as u16);
        assert_eq!(mono_from_u16(&[value], 1), vec![sample]);
    }
}

#[test]
fn pressures_are_scaled() {
    let data: Vec<u32> =
        [0.0f32, 9.0, 1.0, 9.0, -1.5, 9.0, 0.5, 9.0, f32::NAN].iter().map(|x| x.to_bits()).collect();
    assert_eq!(mono_from_single(&data, 2), vec![0, 32767, -32767, 16383, 0]);
}

#[test]
fn buffers_are_filled_frame_by_frame() {
    let mut queue: VecDeque<i16> = vec![10, -20, 30].into();
    let mut buffer = [7i16; 5];
    fill_output_buffer(&mut buffer, 2, &mut queue, |sample| sample);
    assert_eq!(buffer, [10, 10, -20, -20, 30]);
    assert!(queue.is_empty());
}

#[test]
fn an_empty_queue_is_silence() {
    let mut queue: VecDeque<i16> = vec![5].into();
    let mut buffer = [0u16; 6];
    fill_output_buffer(&mut buffer, 2, &mut queue, sample_to_u16);
    assert_eq!(buffer, [32773, 32773, 32768, 32768, 32768, 32768]);
    let mut empty: [u16; 0] = [];
    queue.push_back(1);
    fill_output_buffer(&mut empty, 2, &mut queue, sample_to_u16);
    assert_eq!(queue, vec![1]);
}

#[test]
fn buffers_in_a_row_play_in_order() {
    let mut queue: VecDeque<i16> = (1..=7).collect();
    let mut heard = Vec::new();
    for len in [2usize, 3, 4] {
        let mut buffer = vec![0i16; len];
        fill_output_buffer(&mut buffer, 1, &mut queue, |sample| sample);
        heard.extend(buffer);
    }
    assert_eq!(heard, vec![1, 2, 3, 4, 5, 6, 7, 0, 0]);
}

#[test]
fn samples_are_played_in_single_precision() {
    let mut queue: VecDeque<i16> = vec![i16::MAX, i16::MIN].into();
    let mut buffer = [0.0f32; 3];
    fill_output_buffer(&mut buffer, 1, &mut queue, |sample| f32::from_bits(sample_to_bits(sample)));
    assert_eq!(buffer, [1.0, -32768.0 / 32767.0, 0.0]);
}
