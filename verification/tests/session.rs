use saying::audio::build_audio_packet;
use saying::bands::{insert_band, remove_band};
use saying::discovery::parse_band_discovery_packet;
use saying::gate::MicGateConfig;
use saying::service::{DiscoveryService, NetEvent};
use saying::session::Session;
use saying::voice::AudioService;
use std::collections::{HashMap, VecDeque};
use std::sync::atomic::{AtomicU64, Ordering};

const SECOND: u64 = 1_000_000_000;

static NEXT_ROUND: AtomicU64 = AtomicU64::new(0);

fn parts() -> (Session, AudioService, DiscoveryService) {
    let session = Session::new("me".to_string(), "10.0.0.1".to_string(), 0);
    let audio = AudioService::new(
        "10.0.0.1".to_string(),
        None,
        session.joined_bands().to_vec(),
        HashMap::from([(42000, true)]),
        MicGateConfig::default(),
        0,
    );
    let discovery = DiscoveryService::start(
        "10.0.0.1".to_string(),
        "me".to_string(),
        session.joined_bands().to_vec(),
    );
    (session, audio, discovery)
}

fn seen(ip: &str, name: &str) -> NetEvent {
    NetEvent::PeerSeen { ip: ip.to_string(), name: name.to_string() }
}

fn bands(ip: &str, name: &str, bands: &[u16]) -> NetEvent {
    NetEvent::BandSeen { ip: ip.to_string(), name: name.to_string(), bands: bands.to_vec() }
}

/// Puts something else into the status.
fn say(session: &mut Session, audio: &AudioService, text: &str) {
    let event = NetEvent::Status(text.to_string());
    session.ingest_network_events(vec![event].into(), audio, 0);
}

/// The bands that the service announces next.
fn announced(discovery: &mut DiscoveryService) -> Vec<u16> {
    let now = NEXT_ROUND.fetch_add(SECOND, Ordering::Relaxed);
    let packet = discovery.announce(now).unwrap().band_packet;
    parse_band_discovery_packet(packet.as_bytes()).unwrap().bands
}

#[test]
fn a_session_starts_on_one_band() {
    let (session, _, _) = parts();
    assert_eq!(session.joined_bands(), [42000]);
    assert_eq!(session.status(), "正在广播并扫描同一局域网的用户...");
    assert!(session.peers().is_empty());
    assert!(session.offered_bands().is_empty());
}

#[test]
fn bands_stay_in_order() {
    let mut list = vec![];
    for band in [5, 3, 9, 3, 0, 65535] {
        insert_band(&mut list, band);
    }
    assert_eq!(list, vec![0, 3, 5, 9, 65535]);
    remove_band(&mut list, 5);
    remove_band(&mut list, 6);
    assert_eq!(list, vec![0, 3, 9, 65535]);
}

#[test]
fn joining_tells_the_services() {
    let (mut session, mut audio, mut discovery) = parts();
    session.join_band(7, &mut audio, &mut discovery);
    assert_eq!(session.joined_bands(), [7, 42000]);
    assert_eq!(audio.joined_bands(), [7, 42000]);
    assert_eq!(announced(&mut discovery), [7, 42000]);
    assert_eq!(audio.mic_on(7), Some(true));
    assert_eq!(session.status(), "已加入频段 7");
    say(&mut session, &audio, "-");
    session.join_band(7, &mut audio, &mut discovery);
    assert_eq!(session.status(), "-");
    assert_eq!(session.joined_bands(), [7, 42000]);
}

#[test]
fn leaving_undoes_joining() {
    let (mut session, mut audio, mut discovery) = parts();
    session.join_band(50000, &mut audio, &mut discovery);
    session.leave_band(50000, &mut audio, &mut discovery);
    assert_eq!(session.joined_bands(), [42000]);
    assert_eq!(audio.joined_bands(), [42000]);
    assert_eq!(announced(&mut discovery), [42000]);
    assert_eq!(audio.mic_on(50000), None);
    assert_eq!(audio.mic_on(42000), Some(true));
    assert_eq!(session.status(), "已退出频段 50000");
    say(&mut session, &audio, "-");
    session.leave_band(50000, &mut audio, &mut discovery);
    assert_eq!(session.status(), "-");
}

#[test]
fn the_microphone_is_switched_on_a_joined_band() {
    let (mut session, mut audio, mut discovery) = parts();
    assert!(session.is_band_mic_enabled(42000, &audio));
    session.toggle_band_mic(42000, &mut audio);
    assert!(!session.is_band_mic_enabled(42000, &audio));
    assert_eq!(session.status(), "频段 42000 麦克风已禁用");
    assert!(audio.broadcast_targets().is_empty());
    session.toggle_band_mic(42000, &mut audio);
    assert!(session.is_band_mic_enabled(42000, &audio));
    assert_eq!(session.status(), "频段 42000 麦克风已启用");
    assert_eq!(audio.broadcast_targets(), vec![42000]);
    session.toggle_band_mic(9, &mut audio);
    assert_eq!(audio.mic_on(9), None);
    assert!(session.is_band_mic_enabled(9, &audio));
    session.leave_band(42000, &mut audio, &mut discovery);
    assert_eq!(audio.mic_on(42000), None);
}

#[test]
fn a_band_is_created_from_what_is_typed() {
    let (mut session, mut audio, mut discovery) = parts();
    session.set_new_band_text(" 8080\n".to_string());
    session.create_band(&mut audio, &mut discovery);
    assert_eq!(session.joined_bands(), [8080, 42000]);
    assert_eq!(session.status(), "已创建并加入频段 8080");
    assert_eq!(session.new_band_text(), "");
    say(&mut session, &audio, "-");
    for text in ["8080", "65536", "x", "", "-1"] {
        session.set_new_band_text(text.to_string());
        session.create_band(&mut audio, &mut discovery);
        assert_eq!(session.new_band_text(), "");
        assert_eq!(session.status(), "-");
        assert_eq!(announced(&mut discovery), [8080, 42000]);
    }
}

#[test]
fn users_are_listed() {
    let (mut session, audio, _) = parts();
    let events: VecDeque<NetEvent> = vec![
        seen("10.0.0.2", "  ann "),
        seen("10.0.0.3", " "),
        seen("10.0.0.2", ""),
        bands("10.0.0.3", "bob", &[5, 42000]),
        NetEvent::Status("hello".to_string()),
    ]
    .into();
    session.ingest_network_events(events, &audio, 100);
    assert_eq!(session.status(), "hello");
    assert_eq!(session.peers().len(), 2);
    assert_eq!(session.peers()[0].ip, "10.0.0.2");
    assert_eq!(session.peers()[0].name, "ann");
    assert_eq!(session.peers()[0].bands, Vec::<u16>::new());
    assert_eq!(session.peers()[0].last_seen, 100);
    assert_eq!(session.peers()[1].name, "bob");
    assert_eq!(session.peers()[1].bands, vec![5, 42000]);
    assert_eq!(session.offered_bands(), vec![5]);
    assert!(session.is_collapsed(5));
    assert!(!session.is_collapsed(42000));
    session.ingest_network_events(vec![seen("10.0.0.3", "")].into(), &audio, 200);
    assert_eq!(session.peers()[1].name, "bob");
    assert_eq!(session.peers()[1].bands, vec![5, 42000]);
    assert_eq!(session.peers()[1].last_seen, 200);
}

#[test]
fn a_user_without_a_name_gets_one() {
    let (mut session, audio, _) = parts();
    session.ingest_network_events(vec![seen("a", " "), bands("b", "", &[1])].into(), &audio, 1);
    assert_eq!(session.peers()[0].name, "未命名用户");
    assert_eq!(session.peers()[1].name, "未命名用户");
    assert_eq!(session.peers()[1].bands, vec![1]);
}

#[test]
fn what_is_out_of_date_goes() {
    let (mut session, audio, _) = parts();
    session.ingest_network_events(vec![bands("a", "a", &[1])].into(), &audio, SECOND);
    session.ingest_network_events(vec![bands("b", "b", &[2])].into(), &audio, 2 * SECOND);
    session.expand_band(2);
    // At most six seconds old.
    session.ingest_network_events(VecDeque::new(), &audio, 7 * SECOND);
    assert_eq!(session.peers().len(), 2);
    assert_eq!(session.offered_bands(), vec![1, 2]);
    // No second has passed since the last look.
    session.ingest_network_events(VecDeque::new(), &audio, 8 * SECOND - 1);
    assert_eq!(session.peers().len(), 2);
    session.ingest_network_events(VecDeque::new(), &audio, 8 * SECOND);
    assert_eq!(session.peers().len(), 1);
    assert_eq!(session.peers()[0].ip, "b");
    assert_eq!(session.offered_bands(), vec![2]);
    assert!(!session.is_collapsed(1));
    assert!(!session.is_collapsed(2));
    session.ingest_network_events(VecDeque::new(), &audio, 9 * SECOND);
    assert!(session.peers().is_empty());
    assert!(session.offered_bands().is_empty());
}

#[test]
fn joined_bands_are_not_on_offer() {
    let (mut session, mut audio, mut discovery) = parts();
    session.ingest_network_events(vec![bands("a", "a", &[1, 2, 42000])].into(), &audio, 1);
    assert_eq!(session.offered_bands(), vec![1, 2]);
    session.join_band(1, &mut audio, &mut discovery);
    assert_eq!(session.offered_bands(), vec![2]);
    session.ingest_network_events(vec![bands("a", "a", &[1, 2])].into(), &audio, 2);
    assert_eq!(session.offered_bands(), vec![2]);
    session.leave_band(1, &mut audio, &mut discovery);
    session.ingest_network_events(vec![bands("a", "a", &[1, 2])].into(), &audio, 3);
    assert_eq!(session.offered_bands(), vec![1, 2]);
}

#[test]
fn bands_are_folded_and_unfolded() {
    let (mut session, audio, _) = parts();
    session.ingest_network_events(vec![bands("a", "a", &[1])].into(), &audio, 1);
    assert!(session.is_collapsed(1));
    session.expand_band(1);
    assert!(!session.is_collapsed(1));
    // An old band is not folded again.
    session.ingest_network_events(vec![bands("a", "a", &[1])].into(), &audio, 2);
    assert!(!session.is_collapsed(1));
    session.collapse_band(1);
    assert!(session.is_collapsed(1));
}

#[test]
fn levels_are_taken_over() {
    let (mut session, mut audio, _) = parts();
    audio.capture(&[16384], 48000, 1);
    session.ingest_network_events(VecDeque::new(), &audio, 2);
    assert_eq!(session.mic_level(), (16384.0f32 / 32767.0).to_bits());
    assert_eq!(session.speaker_level(), 0);
    assert!(!session.local_is_speaking_on_band(42000, &audio));
    audio.start_broadcasting(true);
    assert!(session.local_is_speaking_on_band(42000, &audio));
    session.toggle_band_mic(42000, &mut audio);
    assert!(!session.local_is_speaking_on_band(42000, &audio));
    session.toggle_band_mic(42000, &mut audio);
    // 3932 is the largest sample below the threshold.
    audio.capture(&[3932], 48000, 3);
    session.ingest_network_events(VecDeque::new(), &audio, 4);
    assert!(!session.local_is_speaking_on_band(42000, &audio));
    audio.capture(&[3933], 48000, 5);
    session.ingest_network_events(VecDeque::new(), &audio, 6);
    assert!(session.local_is_speaking_on_band(42000, &audio));
}

#[test]
fn the_buttons_say_what_they_did() {
    let (mut session, mut audio, mut discovery) = parts();
    session.start_broadcasting(&mut audio, true);
    assert!(audio.is_broadcasting());
    assert_eq!(session.status(), "音频广播已开始，接收保持开启");
    session.stop_broadcasting(&mut audio);
    assert!(!audio.is_broadcasting());
    assert_eq!(session.status(), "音频广播已停止，接收仍保持开启");
    let packet = build_audio_packet("10.0.0.9", 8000, &[3]);
    audio.audio_received(42000, "10.0.0.9", &packet, 1);
    assert_eq!(audio.playback_queue().len(), 1);
    session.toggle_receiving(&mut audio);
    assert!(!audio.is_receive_audio_enabled());
    assert!(audio.playback_queue().is_empty());
    assert_eq!(session.status(), "已停止接收所有频道声音");
    session.toggle_receiving(&mut audio);
    assert!(audio.is_receive_audio_enabled());
    assert_eq!(session.status(), "已恢复接收所有频道声音");
    session.toggle_loopback(&mut audio);
    assert!(audio.is_loopback_enabled());
    assert_eq!(session.status(), "声音回环已开启");
    session.toggle_loopback(&mut audio);
    assert!(!audio.is_loopback_enabled());
    assert_eq!(session.status(), "声音回环已关闭");
    session.rename("you".to_string(), &mut discovery);
    assert_eq!(session.local_name(), "you");
    assert_eq!(discovery.announce(0).unwrap().name_packet, "SAYING_DISCOVERY|1|10.0.0.1|you");
}

#[test]
fn an_announcement_reaches_the_list() {
    let (_, _, mut ours) = parts();
    ours.set_local_name(" a|b ".to_string());
    let round = ours.announce(0).unwrap();
    let theirs = DiscoveryService::start("10.0.0.2".to_string(), "x".to_string(), vec![]);
    let mut session = Session::new("x".to_string(), "10.0.0.2".to_string(), 0);
    let (_, audio, _) = parts();
    let mut events = VecDeque::new();
    events.extend(theirs.name_packet_received(round.name_packet.as_bytes(), "10.0.0.1"));
    events.extend(theirs.band_packet_received(round.band_packet.as_bytes(), "10.0.0.1"));
    session.ingest_network_events(events, &audio, 5);
    assert_eq!(session.peers().len(), 1);
    assert_eq!(session.peers()[0].ip, "10.0.0.1");
    assert_eq!(session.peers()[0].name, "a_b");
    assert_eq!(session.peers()[0].bands, vec![42000]);
}
