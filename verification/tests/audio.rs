use saying::audio::{build_audio_packet, bytes_to_i16_samples, parse_audio_packet};

#[test]
fn samples_are_little_endian() {
    assert_eq!(bytes_to_i16_samples(&[1, 0, 255, 255, 0, 128, 255, 127]), vec![1, -1, -32768, 32767]);
    assert_eq!(bytes_to_i16_samples(&[1, 2, 3]), vec![513]);
    assert_eq!(bytes_to_i16_samples(&[9]), Vec::<i16>::new());
    for sample in i16::MIN..=i16::MAX {
        assert_eq!(bytes_to_i16_samples(&sample.to_le_bytes()), vec![sample]);
    }
}

#[test]
fn audio_packet_has_its_form() {
    let packet = build_audio_packet("10.0.0.1", 48000, &[1, -2]);
    let mut expected = b"SAYING_AUDIO|1|10.0.0.1|48000|".to_vec();
    expected.extend_from_slice(&[1, 0, 254, 255]);
    assert_eq!(packet, expected);
}

#[test]
fn audio_packet_comes_back() {
    // Among the samples are bytes that look like separators.
    let samples = vec![0, 1, -1, 0x7c7c, i16::MIN, i16::MAX, 124, -124];
    for rate in [0, 1, 44100, u32::MAX] {
        let packet = build_audio_packet("名", rate, &samples);
        assert_eq!(parse_audio_packet(&packet), Some(("名".to_string(), rate, samples.clone())));
    }
    let silence = build_audio_packet("", 8000, &[]);
    assert_eq!(parse_audio_packet(&silence), Some((String::new(), 8000, vec![])));
}

#[test]
fn an_odd_byte_is_passed_over() {
    assert_eq!(
        parse_audio_packet(b"SAYING_AUDIO|1|a|+8000|\x01\x00\x07"),
        Some(("a".to_string(), 8000, vec![1]))
    );
}

#[test]
fn an_identity_with_a_separator_is_not_kept() {
    let packet = build_audio_packet("a|7", 8000, &[1]);
    assert_ne!(parse_audio_packet(&packet), Some(("a|7".to_string(), 8000, vec![1])));
}

#[test]
fn other_audio_packets_are_refused() {
    for payload in [
        &b""[..],
        b"SAYING_AUDIO|1|a|8000",
        b"SAYING_AUDIO|2|a|8000|",
        b"SAYING_AUDIO |1|a|8000|",
        b"SAYING_AUDIO|1|a||",
        b"SAYING_AUDIO|1|a|x|",
        b"SAYING_AUDIO|1|a| 8000|",
        b"SAYING_AUDIO|1|a|4294967296|",
        b"SAYING_AUDIO|1|\xff|8000|",
    ] {
        assert!(parse_audio_packet(payload).is_none());
    }
}
