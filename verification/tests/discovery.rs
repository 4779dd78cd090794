use saying::discovery::{
    build_band_discovery_packet, build_discovery_packet, parse_band_discovery_packet,
    parse_discovery_packet, sanitize_component, BAND_DISCOVERY_PORT, DISCOVERY_PORT,
};

#[test]
fn ports_are_fixed() {
    assert_eq!(DISCOVERY_PORT, 42001);
    assert_eq!(BAND_DISCOVERY_PORT, 715);
}

#[test]
fn names_are_sanitized() {
    assert_eq!(sanitize_component(" a|b\nc "), "a_b c");
    assert_eq!(sanitize_component("\n\n"), "");
    assert_eq!(sanitize_component("|"), "_");
    assert_eq!(sanitize_component("名字\r\n"), "名字");
    let once = sanitize_component("\t x|y \n z\u{3000}");
    assert_eq!(sanitize_component(&once), once);
}

#[test]
fn name_packet_has_its_form() {
    assert_eq!(
        build_discovery_packet("192.168.0.7", " 阿|明\n"),
        "SAYING_DISCOVERY|1|192.168.0.7|阿_明"
    );
}

#[test]
fn name_packet_comes_back() {
    let packet = build_discovery_packet("10.0.0.1", "user@host");
    let read = parse_discovery_packet(packet.as_bytes()).unwrap();
    assert_eq!(read.ip, "10.0.0.1");
    assert_eq!(read.name, "user@host");
}

#[test]
fn name_packet_keeps_separators_behind_the_third() {
    let read = parse_discovery_packet(b"SAYING_DISCOVERY|1|ip|a|b|c").unwrap();
    assert_eq!(read.ip, "ip");
    assert_eq!(read.name, "a|b|c");
    let read = parse_discovery_packet(b"SAYING_DISCOVERY|1||").unwrap();
    assert_eq!(read.ip, "");
    assert_eq!(read.name, "");
}

#[test]
fn other_name_packets_are_refused() {
    for payload in [
        &b""[..],
        b"SAYING_DISCOVERY",
        b"SAYING_DISCOVERY|1|ip",
        b"SAYING_DISCOVERY|2|ip|name",
        b"saying_discovery|1|ip|name",
        b"SAYING_BAND_DISCOVERY|1|ip|name|1",
        b"SAYING_DISCOVERY|1|ip|na\xffme",
    ] {
        assert!(parse_discovery_packet(payload).is_none());
    }
}

#[test]
fn band_packet_has_its_form() {
    assert_eq!(
        build_band_discovery_packet("10.0.0.1", "n", &[42000, 1, 65535]),
        "SAYING_BAND_DISCOVERY|1|10.0.0.1|n|42000,1,65535"
    );
    assert_eq!(
        build_band_discovery_packet("10.0.0.1", "n", &[]),
        "SAYING_BAND_DISCOVERY|1|10.0.0.1|n|"
    );
}

#[test]
fn band_packet_comes_back() {
    for bands in [vec![], vec![42000], vec![7, 7, 0, 65535]] {
        let packet = build_band_discovery_packet("10.0.0.1", "a|b", &bands);
        let read = parse_band_discovery_packet(packet.as_bytes()).unwrap();
        assert_eq!(read.ip, "10.0.0.1");
        assert_eq!(read.name, "a_b");
        assert_eq!(read.bands, bands);
    }
}

#[test]
fn band_list_passes_over_what_is_no_band() {
    let read =
        parse_band_discovery_packet(b"SAYING_BAND_DISCOVERY|1|ip|n| 1 ,x,,65536,+2,-3|,4").unwrap();
    assert_eq!(read.bands, vec![1, 2, 4]);
}

#[test]
fn other_band_packets_are_refused() {
    for payload in [
        &b"SAYING_BAND_DISCOVERY|1|ip|name"[..],
        b"SAYING_BAND_DISCOVERY|0|ip|name|1",
        b"SAYING_DISCOVERY|1|ip|name|1",
        b"\xff",
    ] {
        assert!(parse_band_discovery_packet(payload).is_none());
    }
}

#[test]
fn no_packet_is_both() {
    for text in ["SAYING_DISCOVERY|1|a|b|c", "SAYING_BAND_DISCOVERY|1|a|b|c"] {
        let name = parse_discovery_packet(text.as_bytes()).is_some();
        let band = parse_band_discovery_packet(text.as_bytes()).is_some();
        assert!(name != band);
    }
}
