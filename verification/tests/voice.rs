use saying::audio::build_audio_packet;
use saying::gate::MicGateConfig;
use saying::level::{audio_level_i16, ONE};
use saying::resample::resample_i16_mono;
use saying::voice::{
    listening_bands, playback_samples, rebuild_receiver_sockets, receiver_band, AudioMetrics,
    AudioService, Reception, DEFAULT_BAND_PORT,
};
use std::collections::HashMap;

const MS: u64 = 1_000_000;

fn service(output_rate: Option<u32>) -> AudioService {
    AudioService::new(
        "10.0.0.1".to_string(),
        output_rate,
        vec![42000],
        HashMap::from([(42000, true)]),
        MicGateConfig::default(),
        100,
    )
}

#[test]
fn a_new_service_is_quiet() {
    let service = service(Some(48000));
    assert!(!service.is_broadcasting());
    assert!(!service.is_loopback_enabled());
    assert!(service.is_receive_audio_enabled());
    assert_eq!(service.mic_level(), 0);
    assert_eq!(service.speaker_level(), 0);
    assert_eq!(service.local_voice_age(150), 50);
    assert_eq!(service.mic_gate_config(), MicGateConfig::default());
    assert!(service.playback_queue().is_empty());
}

#[test]
fn metrics_are_clamped() {
    let mut metrics = AudioMetrics::default();
    metrics.set_mic_level(2.0f32.to_bits());
    metrics.set_speaker_level((-1.0f32).to_bits());
    assert_eq!(metrics, AudioMetrics { mic_level_bits: ONE, speaker_level_bits: 0 });
}

#[test]
fn broadcasting_starts_and_stops() {
    let mut service = service(None);
    assert!(service.opens_input(true));
    assert!(!service.opens_input(false));
    service.start_broadcasting(false);
    assert!(!service.is_broadcasting());
    service.start_broadcasting(true);
    assert!(service.is_broadcasting());
    assert!(!service.opens_input(true));
    service.start_broadcasting(false);
    assert!(service.is_broadcasting());
    service.stop_broadcasting();
    assert!(!service.is_broadcasting());
}

#[test]
fn loud_sound_is_sent() {
    let mut service = service(None);
    let loud = vec![10000, -3];
    let captured = service.capture(&loud, 48000, 500);
    assert_eq!(captured.packet, Some(build_audio_packet("10.0.0.1", 48000, &loud)));
    assert!(captured.playable);
    assert_eq!(service.mic_level(), audio_level_i16(&loud));
    assert_eq!(service.speaker_level(), 0);
    assert_eq!(service.local_voice_age(700), 200);
    assert!(service.playback_queue().is_empty());
    // Silence is still sent for a while.
    assert!(service.capture(&[0], 48000, 500 + 180 * MS).packet.is_some());
    assert!(service.capture(&[0], 48000, 501 + 180 * MS).packet.is_none());
    assert_eq!(service.local_voice_age(700), 200);
    // Closed again: what would keep it open no longer passes.
    assert!(service.capture(&[4000], 48000, 502 + 180 * MS).packet.is_none());
}

#[test]
fn soft_sound_is_not_sent() {
    let mut service = service(None);
    let captured = service.capture(&[100], 48000, 500);
    assert!(captured.packet.is_none());
    assert!(captured.playable);
    assert_eq!(service.mic_level(), audio_level_i16(&[100]));
    assert_eq!(service.local_voice_age(700), 600);
}

#[test]
fn the_loopback_plays_what_is_sent() {
    let mut service = service(Some(44100));
    service.set_loopback_enabled(true);
    let loud: Vec<i16> = (0..100).map(|n| n * 300).collect();
    let captured = service.capture(&loud, 48000, 500);
    assert!(captured.playable);
    assert_eq!(*service.playback_queue(), resample_i16_mono(&loud, 48000, 44100));
    assert_eq!(service.speaker_level(), audio_level_i16(&loud));
    // Nothing is looped that is not sent.
    let before = service.playback_queue().len();
    service.capture(&[0], 48000, 500 + 200 * MS);
    assert_eq!(service.playback_queue().len(), before);
}

#[test]
fn a_loopback_that_cannot_be_played_is_reported() {
    let mut service = service(Some(48000));
    service.set_loopback_enabled(true);
    let loud = vec![20000i16; 2000];
    let captured = service.capture(&loud, 1, 500);
    assert!(captured.packet.is_some());
    assert!(!captured.playable);
    assert!(service.playback_queue().is_empty());
    assert_eq!(service.speaker_level(), audio_level_i16(&loud));
}

#[test]
fn received_sound_is_played() {
    let mut service = service(Some(48000));
    let sound = vec![1000, -2000, 3000];
    let packet = build_audio_packet("10.0.0.2", 48000, &sound);
    assert_eq!(service.audio_received(7, "10.0.0.2", &packet, 900), Reception::Played);
    assert_eq!(*service.playback_queue(), sound);
    assert_eq!(service.speaker_level(), audio_level_i16(&sound));
    let packet = build_audio_packet("10.0.0.3", 24000, &sound);
    assert_eq!(service.audio_received(7, "10.0.0.3", &packet, 950), Reception::Played);
    let mut expected = sound.clone();
    expected.extend(resample_i16_mono(&sound, 24000, 48000));
    assert_eq!(*service.playback_queue(), expected);
}

#[test]
fn speakers_are_remembered_for_half_a_second() {
    let mut service = service(None);
    let packet = build_audio_packet("10.0.0.2", 48000, &[1]);
    service.audio_received(7, "x", &packet, 1000);
    assert!(service.peer_is_speaking(7, "10.0.0.2", 1000 + 500 * MS));
    assert!(!service.peer_is_speaking(7, "10.0.0.2", 1001 + 500 * MS));
    assert!(!service.peer_is_speaking(8, "10.0.0.2", 1000));
    assert!(!service.peer_is_speaking(7, "10.0.0.3", 1000));
    service.audio_received(8, "x", &packet, 1000 + 400 * MS);
    service.audio_received(7, "x", &packet, 1000 + 600 * MS);
    assert!(service.peer_is_speaking(7, "10.0.0.2", 1000 + 1100 * MS));
    assert!(service.peer_is_speaking(8, "10.0.0.2", 1000 + 900 * MS));
    assert!(!service.peer_is_speaking(8, "10.0.0.2", 1001 + 900 * MS));
    assert_eq!(service.speaking().len(), 2);
}

#[test]
fn what_is_not_for_us_is_ignored() {
    let mut service = service(None);
    let own = build_audio_packet("10.0.0.1", 48000, &[1]);
    let other = build_audio_packet("10.0.0.2", 48000, &[1]);
    assert_eq!(service.audio_received(7, "10.0.0.9", &own, 1), Reception::Ignored);
    assert_eq!(service.audio_received(7, "10.0.0.1", &other, 1), Reception::Ignored);
    assert_eq!(service.audio_received(7, "10.0.0.9", b"noise", 1), Reception::Ignored);
    service.set_receive_audio_enabled(false);
    assert_eq!(service.audio_received(7, "10.0.0.9", &other, 1), Reception::Ignored);
    assert!(service.playback_queue().is_empty());
    assert!(service.speaking().is_empty());
}

#[test]
fn sound_that_cannot_be_played_is_reported() {
    let mut service = service(Some(48000));
    let packet = build_audio_packet("10.0.0.2", 1, &[20000; 2000]);
    assert_eq!(service.audio_received(7, "10.0.0.2", &packet, 5), Reception::Unplayable);
    assert!(service.playback_queue().is_empty());
    assert!(service.speaking().is_empty());
    assert_eq!(service.speaker_level(), audio_level_i16(&[20000]));
}

#[test]
fn switching_off_falls_silent() {
    let mut service = service(None);
    let packet = build_audio_packet("10.0.0.2", 48000, &[5, 6]);
    service.audio_received(7, "10.0.0.2", &packet, 5);
    service.capture(&[30000], 48000, 6);
    let mic = service.mic_level();
    service.set_receive_audio_enabled(true);
    assert_eq!(service.playback_queue().len(), 2);
    service.set_receive_audio_enabled(false);
    assert!(service.playback_queue().is_empty());
    assert_eq!(service.speaker_level(), 0);
    assert_eq!(service.mic_level(), mic);
    assert!(!service.is_receive_audio_enabled());
}

#[test]
fn packets_go_to_bands_with_the_microphone_on() {
    let mut service = AudioService::new(
        "10.0.0.1".to_string(),
        None,
        vec![1, 2, 3, 4],
        HashMap::from([(1, true), (2, false), (4, true), (9, true)]),
        MicGateConfig::default(),
        0,
    );
    assert_eq!(service.joined_bands(), [1, 2, 3, 4]);
    assert_eq!(service.broadcast_targets(), vec![1, 4]);
    service.switch_mic(3, true);
    service.switch_mic(4, false);
    service.forget_mic(1);
    assert_eq!(service.mic_on(1), None);
    assert_eq!(service.mic_on(3), Some(true));
    assert_eq!(service.mic_on(4), Some(false));
    assert_eq!(service.broadcast_targets(), vec![3]);
    service.set_bands(vec![]);
    assert_eq!(service.broadcast_targets(), Vec::<u16>::new());
}

#[test]
fn the_queue_is_played() {
    let mut service = service(None);
    let packet = build_audio_packet("10.0.0.2", 48000, &[5, 6, 7]);
    service.audio_received(7, "10.0.0.2", &packet, 1);
    let mut buffer = [0i16; 4];
    service.play(&mut buffer, 2, |sample| sample);
    assert_eq!(buffer, [5, 5, 6, 6]);
    assert_eq!(*service.playback_queue(), vec![7]);
    service.play(&mut buffer, 2, |sample| sample);
    assert_eq!(buffer, [7, 7, 0, 0]);
    assert!(service.playback_queue().is_empty());
}

#[test]
fn a_source_is_in_the_log_once() {
    let mut service = service(None);
    for n in 0..10 {
        let packet = build_audio_packet(&format!("10.0.0.{}", 2 + n % 2), 48000, &[1]);
        service.audio_received(7, "x", &packet, n);
    }
    let log = service.speaking();
    assert_eq!(log.len(), 2);
    assert_eq!((log[0].band, log[0].ip.as_str(), log[0].at), (7, "10.0.0.2", 8));
    assert_eq!((log[1].band, log[1].ip.as_str(), log[1].at), (7, "10.0.0.3", 9));
}

#[test]
fn the_setting_is_normalized() {
    let mut service = service(None);
    service.set_mic_gate_config(MicGateConfig {
        start_threshold: 0.1f32.to_bits(),
        stop_threshold: 0.2f32.to_bits(),
        hold_ms: 5000,
    });
    assert_eq!(
        service.mic_gate_config(),
        MicGateConfig {
            start_threshold: 0.1f32.to_bits(),
            stop_threshold: 0.1f32.to_bits(),
            hold_ms: 2000,
        }
    );
}

#[test]
fn playback_is_at_the_rate_of_the_device() {
    assert_eq!(playback_samples(&[1, 2], 8000, None), Some(vec![1, 2]));
    assert_eq!(playback_samples(&[1, 2], 8000, Some(8000)), Some(vec![1, 2]));
    assert_eq!(playback_samples(&[0, 100], 1, Some(2)), Some(vec![0, 50, 100, 100]));
    assert_eq!(playback_samples(&[0; 2000], 1, Some(48000)), None);
}

#[test]
fn sockets_are_rebuilt_when_the_bands_change() {
    let mut current = vec![];
    assert!(!rebuild_receiver_sockets(&[], &mut current));
    assert!(rebuild_receiver_sockets(&[1, 2], &mut current));
    assert_eq!(current, vec![1, 2]);
    assert!(!rebuild_receiver_sockets(&[1, 2], &mut current));
    assert!(rebuild_receiver_sockets(&[2, 1], &mut current));
    assert!(rebuild_receiver_sockets(&[2], &mut current));
    assert_eq!(DEFAULT_BAND_PORT, 42000);
}

#[test]
fn sockets_stand_for_the_bands_that_could_be_bound() {
    assert_eq!(listening_bands(&[1, 2, 3, 4], &[false, true, false, true]), vec![2, 4]);
    assert_eq!(listening_bands(&[1, 2], &[true, true]), vec![1, 2]);
    assert_eq!(listening_bands(&[1, 2], &[false, false]), Vec::<u16>::new());
    assert_eq!(listening_bands(&[], &[]), Vec::<u16>::new());
    assert_eq!(receiver_band(&[2, 4], 0), Some(2));
    assert_eq!(receiver_band(&[2, 4], 1), Some(4));
    assert_eq!(receiver_band(&[2, 4], 2), None);
}

#[test]
fn a_source_is_recorded_on_the_band_where_it_was_heard() {
    let mut service = service(None);
    // The first band could not be bound, so the first socket is that of the second band.
    let listening_on = listening_bands(&[5, 6], &[false, true]);
    let band = receiver_band(&listening_on, 0).unwrap();
    let packet = build_audio_packet("10.0.0.2", 48000, &[1]);
    service.audio_received(band, "10.0.0.2", &packet, 10);
    assert!(service.peer_is_speaking(6, "10.0.0.2", 10));
    assert!(!service.peer_is_speaking(5, "10.0.0.2", 10));
}

#[test]
fn one_user_hears_another() {
    let mut sender = service(None);
    let mut receiver = AudioService::new(
        "10.0.0.2".to_string(),
        None,
        vec![42000],
        HashMap::new(),
        MicGateConfig::default(),
        0,
    );
    let sound = vec![12000, -12000, 5];
    let packet = sender.capture(&sound, 16000, 1).packet.unwrap();
    assert_eq!(receiver.audio_received(42000, "10.0.0.1", &packet, 2), Reception::Played);
    assert_eq!(*receiver.playback_queue(), sound);
    assert!(receiver.peer_is_speaking(42000, "10.0.0.1", 3));
}
