use saying::audio::build_audio_packet;
use saying::gate::MicGateConfig;
use saying::launch::{plan_launch, start, Started};
use saying::preferences::DevicePreferences;
use saying::service::NetEvent;
use saying::view::{
    band_title, broadcast_label, gate_text, local_card, local_ip_text, loopback_label, mic_label,
    online_text, peer_cards, receive_label,
};

fn started() -> Started {
    let kept = DevicePreferences::default();
    start(plan_launch(false, &kept), Some("10.0.0.1".to_string()), "me".to_string(), &kept, None, 0)
}

fn bands(ip: &str, name: &str, bands: &[u16]) -> NetEvent {
    NetEvent::BandSeen { ip: ip.to_string(), name: name.to_string(), bands: bands.to_vec() }
}

#[test]
fn buttons_follow_the_state() {
    let mut s = started();
    assert_eq!(broadcast_label(&s.audio), "开始广播音频");
    assert_eq!(receive_label(&s.audio), "停止接收所有频道声音");
    assert_eq!(loopback_label(&s.audio), "声音回环: 关");
    assert_eq!(mic_label(&s.session, &s.audio, 42000), "禁用麦克风");
    s.audio.start_broadcasting(true);
    s.audio.set_receive_audio_enabled(false);
    s.audio.set_loopback_enabled(true);
    s.session.toggle_band_mic(42000, &mut s.audio);
    assert_eq!(broadcast_label(&s.audio), "重启广播音频");
    assert_eq!(receive_label(&s.audio), "恢复接收所有频道声音");
    assert_eq!(loopback_label(&s.audio), "声音回环: 开");
    assert_eq!(mic_label(&s.session, &s.audio, 42000), "启用麦克风");
}

#[test]
fn lines_are_composed() {
    let mut s = started();
    assert_eq!(local_ip_text(&s.session), "本机 IP: 10.0.0.1");
    assert_eq!(gate_text(MicGateConfig::default()), "当前: 起播 0.16, 停播 0.08, 保持 180ms");
    assert_eq!(band_title(42000, false), "音频频段: 42000");
    assert_eq!(band_title(7, true), "音频频段: 7 ▸");
    assert_eq!(online_text(&s.session), "已发现 0 个在线用户");
    let events = vec![bands("10.0.0.1", "me", &[]), bands("a", "a", &[]), bands("b", "b", &[])];
    s.session.ingest_network_events(events.into(), &s.audio, 1);
    assert_eq!(online_text(&s.session), "已发现 2 个在线用户");
}

#[test]
fn cards_show_who_is_on_a_band() {
    let mut s = started();
    let events = vec![
        bands("10.0.0.2", "ann", &[42000, 7]),
        bands("10.0.0.1", "me", &[42000]),
        bands("10.0.0.3", "bob", &[7]),
        bands("10.0.0.4", "eve", &[42000]),
    ];
    s.session.ingest_network_events(events.into(), &s.audio, 1_000_000);
    let packet = build_audio_packet("10.0.0.4", 8000, &[1]);
    s.audio.audio_received(42000, "10.0.0.4", &packet, 2_000_000);
    let cards = peer_cards(&s.session, &s.audio, 42000, 26_000_000);
    assert_eq!(cards.len(), 2);
    assert_eq!(cards[0].name, "ann");
    assert_eq!(cards[0].ip, "ip: 10.0.0.2");
    assert_eq!(cards[0].age, "25ms 前");
    assert!(!cards[0].speaking);
    assert_eq!(cards[1].name, "eve");
    assert!(cards[1].speaking);
    assert_eq!(peer_cards(&s.session, &s.audio, 7, 0).len(), 2);
    assert!(peer_cards(&s.session, &s.audio, 8, 0).is_empty());
    assert!(!peer_cards(&s.session, &s.audio, 42000, 502_000_001)[1].speaking);
}

#[test]
fn the_own_card_comes_first() {
    let mut s = started();
    s.audio.start_broadcasting(true);
    s.audio.capture(&[20000], 8000, 1_000_000_000);
    s.session.ingest_network_events(Vec::new().into(), &s.audio, 1_000_000_000);
    let card = local_card(&s.session, &s.audio, 42000, 3_500_000_000);
    assert_eq!(card.name, "me（本机）");
    assert_eq!(card.ip, "ip: 10.0.0.1");
    assert_eq!(card.age, "2.5s 前");
    assert!(card.speaking);
    s.audio.stop_broadcasting();
    assert!(!local_card(&s.session, &s.audio, 42000, 0).speaking);
}
