use saying::gate::MicGateConfig;
use saying::preferences::{
    device_preferences_text, load_device_preferences, read_device_preferences, threshold_texts,
    DevicePreferences,
};

fn numbers(content: &str) -> Vec<Option<u32>> {
    threshold_texts(content)
        .iter()
        .map(|text| text.parse::<f32>().ok().map(f32::to_bits))
        .collect()
}

fn read(content: &str) -> DevicePreferences {
    read_device_preferences(content, &numbers(content))
}

#[test]
fn nothing_kept_is_the_default() {
    let preferences = read("");
    assert_eq!(preferences.user_name, None);
    assert_eq!(preferences.input_device, None);
    assert_eq!(preferences.output_device, None);
    assert_eq!(preferences.mic_gate_config, MicGateConfig::default());
    assert!(!preferences.autostart_enabled);
    assert!(!preferences.autostart_minimize_to_tray);
    assert!(!preferences.autostart_auto_broadcast);
    assert!(!preferences.autostart_auto_receive);
    let default = DevicePreferences::default();
    assert_eq!(default.mic_gate_config, MicGateConfig::default());
    assert_eq!(default.user_name, None);
}

#[test]
fn every_line_is_read() {
    let preferences = read(
        "name= Ann = x \r\ninput=Mic\noutput=Speaker\r\ngate_start= 0.25\ngate_stop=1e-1\n\
         gate_hold=+90\nautostart=1\nautostart_minimize_to_tray= 1 \n\
         autostart_auto_broadcast=0\nautostart_auto_receive=1",
    );
    assert_eq!(preferences.user_name.as_deref(), Some("Ann = x"));
    assert_eq!(preferences.input_device.as_deref(), Some("Mic"));
    assert_eq!(preferences.output_device.as_deref(), Some("Speaker"));
    assert_eq!(preferences.mic_gate_config.start_threshold, 0.25f32.to_bits());
    assert_eq!(preferences.mic_gate_config.stop_threshold, 0.1f32.to_bits());
    assert_eq!(preferences.mic_gate_config.hold_ms, 90);
    assert!(preferences.autostart_enabled);
    assert!(preferences.autostart_minimize_to_tray);
    assert!(!preferences.autostart_auto_broadcast);
    assert!(preferences.autostart_auto_receive);
}

#[test]
fn what_is_not_understood_is_passed_over() {
    let preferences = read(
        "name=a\nname= \n name=b\nName=c\nname\n=x\ngate_start=high\ngate_hold=-1\n\
         gate_hold=4294967296\nautostart=1\nautostart=yes\nunknown=1\ninput=\n",
    );
    assert_eq!(preferences.user_name.as_deref(), Some("a"));
    assert_eq!(preferences.input_device, None);
    assert_eq!(preferences.mic_gate_config, MicGateConfig::default());
    assert!(!preferences.autostart_enabled);
}

#[test]
fn later_lines_win() {
    let preferences = read("name=a\nname=b\ngate_stop=0.5\ngate_start=0.6\ngate_stop=0.4\n");
    assert_eq!(preferences.user_name.as_deref(), Some("b"));
    assert_eq!(preferences.mic_gate_config.start_threshold, 0.6f32.to_bits());
    assert_eq!(preferences.mic_gate_config.stop_threshold, 0.4f32.to_bits());
}

#[test]
fn thresholds_are_found() {
    assert_eq!(
        threshold_texts("gate_start= 0.1 \ngate_hold=5\ngate_stop=x\ngate_start=\n"),
        vec!["0.1", "x", ""]
    );
    assert!(threshold_texts("name=gate_start=1").is_empty());
}

#[test]
fn loading_holds_to_the_ranges() {
    let content = "gate_start=0.2\ngate_stop=0.9\ngate_hold=99999\n";
    let preferences = load_device_preferences(content, &numbers(content));
    assert_eq!(
        preferences.mic_gate_config,
        MicGateConfig {
            start_threshold: 0.2f32.to_bits(),
            stop_threshold: 0.2f32.to_bits(),
            hold_ms: 2000,
        }
    );
    assert!(!read("gate_start=nan").mic_gate_config.is_normalizable());
}

#[test]
fn the_text_has_its_form() {
    let preferences = DevicePreferences {
        user_name: Some("Ann".to_string()),
        input_device: None,
        output_device: Some("Out".to_string()),
        mic_gate_config: MicGateConfig {
            start_threshold: 0.16f32.to_bits(),
            stop_threshold: 0.5f32.to_bits(),
            hold_ms: 3000,
        },
        autostart_enabled: true,
        autostart_minimize_to_tray: false,
        autostart_auto_broadcast: true,
        autostart_auto_receive: false,
    };
    assert_eq!(
        device_preferences_text(&preferences),
        "name=Ann\noutput=Out\ngate_start=0.160\ngate_stop=0.160\ngate_hold=2000\nautostart=1\n\
         autostart_minimize_to_tray=0\nautostart_auto_broadcast=1\nautostart_auto_receive=0\n"
    );
}

#[test]
fn what_is_written_is_read_back() {
    for flags in 0..16 {
        let preferences = DevicePreferences {
            user_name: Some(" a=b ".to_string()),
            input_device: Some("设备".to_string()),
            output_device: if flags % 3 == 0 { Some(" ".to_string()) } else { None },
            mic_gate_config: MicGateConfig {
                start_threshold: 0.125f32.to_bits(),
                stop_threshold: 0.0625f32.to_bits(),
                hold_ms: flags * 100,
            },
            autostart_enabled: flags & 1 != 0,
            autostart_minimize_to_tray: flags & 2 != 0,
            autostart_auto_broadcast: flags & 4 != 0,
            autostart_auto_receive: flags & 8 != 0,
        };
        let text = device_preferences_text(&preferences);
        assert_eq!(threshold_texts(&text), vec!["0.125", "0.062"]);
        let back = load_device_preferences(&text, &numbers(&text));
        assert_eq!(back.user_name.as_deref(), Some("a=b"));
        assert_eq!(back.input_device.as_deref(), Some("设备"));
        assert_eq!(back.output_device, None);
        assert_eq!(back.mic_gate_config.start_threshold, 0.125f32.to_bits());
        assert_eq!(back.mic_gate_config.stop_threshold, 0.062f32.to_bits());
        assert_eq!(back.mic_gate_config.hold_ms, flags * 100);
        assert_eq!(back.autostart_enabled, flags & 1 != 0);
        assert_eq!(back.autostart_minimize_to_tray, flags & 2 != 0);
        assert_eq!(back.autostart_auto_broadcast, flags & 4 != 0);
        assert_eq!(back.autostart_auto_receive, flags & 8 != 0);
    }
}

#[test]
fn thresholds_come_back_close() {
    for step in 0..=2000u32 {
        let start = step as f32 / 1999.0;
        let stop = step as f32 / 2713.0;
        let config = MicGateConfig {
            start_threshold: start.to_bits(),
            stop_threshold: stop.to_bits(),
            hold_ms: 180,
        };
        let preferences =
            DevicePreferences { mic_gate_config: config, ..DevicePreferences::default() };
        let text = device_preferences_text(&preferences);
        let back = load_device_preferences(&text, &numbers(&text)).mic_gate_config;
        let kept = config.normalized();
        let distance =
            |a: u32, b: u32| (f32::from_bits(a) as f64 - f32::from_bits(b) as f64).abs();
        assert!(distance(back.start_threshold, kept.start_threshold) <= 0.0006);
        assert!(distance(back.stop_threshold, kept.stop_threshold) <= 0.0006);
        assert_eq!(back.hold_ms, 180);
    }
}
