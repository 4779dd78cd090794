use saying::clock::{elapsed, MILLISECOND, SECOND};
use saying::service::{DiscoveryService, DiscoverySocket, NetEvent};

fn service() -> DiscoveryService {
    DiscoveryService::start("10.0.0.1".to_string(), "me".to_string(), vec![42000])
}

fn status(event: NetEvent) -> String {
    match event {
        NetEvent::Status(text) => text,
        other => panic!("{other:?}"),
    }
}

#[test]
fn the_clock_does_not_run_backwards() {
    assert_eq!(elapsed(3, 10), 7);
    assert_eq!(elapsed(10, 3), 0);
    assert_eq!(SECOND, 1000 * MILLISECOND);
}

#[test]
fn the_service_reports_itself() {
    assert_eq!(status(service().started()), "已启动发现服务，身份: me");
    assert_eq!(
        status(DiscoveryService::bind_failed(DiscoverySocket::Name, "x")),
        "名称发现 UDP 绑定失败: x"
    );
    assert_eq!(
        status(DiscoveryService::bind_failed(DiscoverySocket::Band, "x")),
        "频段发现 UDP 绑定失败: x"
    );
}

#[test]
fn failures_to_receive_are_reported_unless_it_was_only_late() {
    let late = DiscoveryService::receive_failed(DiscoverySocket::Name, true, "x");
    assert!(late.event.is_none());
    assert_eq!(late.pause_ms, 0);
    let name = DiscoveryService::receive_failed(DiscoverySocket::Name, false, "x");
    assert_eq!(status(name.event.unwrap()), "UDP 接收异常: x");
    assert_eq!(name.pause_ms, 500);
    let band = DiscoveryService::receive_failed(DiscoverySocket::Band, false, "x");
    assert_eq!(status(band.event.unwrap()), "频段接收异常: x");
    assert_eq!(band.pause_ms, 0);
}

#[test]
fn announcements_come_once_a_second() {
    let mut service = service();
    let first = service.announce(5).unwrap();
    assert_eq!(first.name_packet, "SAYING_DISCOVERY|1|10.0.0.1|me");
    assert_eq!(first.band_packet, "SAYING_BAND_DISCOVERY|1|10.0.0.1|me|42000");
    assert!(service.announce(5 + SECOND - 1).is_none());
    service.set_local_name("new|name".to_string());
    service.set_local_bands(vec![1, 2]);
    let second = service.announce(5 + SECOND).unwrap();
    assert_eq!(second.name_packet, "SAYING_DISCOVERY|1|10.0.0.1|new_name");
    assert_eq!(second.band_packet, "SAYING_BAND_DISCOVERY|1|10.0.0.1|new_name|1,2");
    assert!(service.announce(6 + SECOND).is_none());
}

#[test]
fn the_service_stops() {
    let mut service = service();
    assert!(service.is_running());
    service.stop();
    assert!(!service.is_running());
    assert_eq!(service.announce(0).unwrap().name_packet, "SAYING_DISCOVERY|1|10.0.0.1|me");
}

#[test]
fn peers_are_seen() {
    let service = service();
    match service.name_packet_received(b"SAYING_DISCOVERY|1|10.0.0.2|you", "10.0.0.9") {
        Some(NetEvent::PeerSeen { ip, name }) => {
            assert_eq!(ip, "10.0.0.2");
            assert_eq!(name, "you");
        }
        other => panic!("{other:?}"),
    }
    match service.name_packet_received(b"SAYING_DISCOVERY|1||you", "10.0.0.9") {
        Some(NetEvent::PeerSeen { ip, .. }) => assert_eq!(ip, "10.0.0.9"),
        other => panic!("{other:?}"),
    }
    match service.band_packet_received(b"SAYING_BAND_DISCOVERY|1|10.0.0.2|you|5,6", "x") {
        Some(NetEvent::BandSeen { ip, name, bands }) => {
            assert_eq!(ip, "10.0.0.2");
            assert_eq!(name, "you");
            assert_eq!(bands, vec![5, 6]);
        }
        other => panic!("{other:?}"),
    }
}

#[test]
fn own_announcements_tell_nothing() {
    let mut service = service();
    let own = service.announce(0).unwrap();
    assert!(service.name_packet_received(own.name_packet.as_bytes(), "10.0.0.5").is_none());
    assert!(service.band_packet_received(own.band_packet.as_bytes(), "10.0.0.5").is_none());
    assert!(service.name_packet_received(b"SAYING_DISCOVERY|1||me", "10.0.0.1").is_none());
    assert!(service.name_packet_received(b"nonsense", "10.0.0.2").is_none());
    assert!(service.band_packet_received(b"nonsense", "10.0.0.2").is_none());
}
