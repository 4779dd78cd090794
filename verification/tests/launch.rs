use saying::audio::build_audio_packet;
use saying::gate::MicGateConfig;
use saying::launch::{
    current_preferences, is_autostart_launch, plan_launch, start, update_windows_autostart,
    AutostartChange, AutostartSettings, LaunchPlan, RUN_KEY_PATH, RUN_VALUE_NAME,
};
use saying::preferences::DevicePreferences;

fn preferences(enabled: bool, tray: bool, broadcast: bool, receive: bool) -> DevicePreferences {
    DevicePreferences {
        autostart_enabled: enabled,
        autostart_minimize_to_tray: tray,
        autostart_auto_broadcast: broadcast,
        autostart_auto_receive: receive,
        ..DevicePreferences::default()
    }
}

#[test]
fn the_system_is_told_how_to_start() {
    match update_windows_autostart(true, "C:\\p q\\saying.exe") {
        AutostartChange::Write(command) => {
            assert_eq!(command, "\"C:\\p q\\saying.exe\" --autostart");
        }
        other => panic!("{other:?}"),
    }
    assert!(matches!(update_windows_autostart(false, "x"), AutostartChange::Delete));
    assert_eq!(RUN_KEY_PATH, r"Software\Microsoft\Windows\CurrentVersion\Run");
    assert_eq!(RUN_VALUE_NAME, "saying");
}

#[test]
fn the_argument_is_found() {
    let arguments = |list: &[&str]| -> Vec<String> { list.iter().map(|a| a.to_string()).collect() };
    assert!(is_autostart_launch(&arguments(&["saying", "x", "--autostart"])));
    assert!(!is_autostart_launch(&arguments(&["saying", "--autostart=1", "autostart"])));
    assert!(!is_autostart_launch(&[]));
}

#[test]
fn the_plan_follows_the_preferences_where_the_system_starts() {
    let by_hand = LaunchPlan { hidden: false, receive: true, broadcast: false };
    assert_eq!(plan_launch(false, &preferences(true, true, true, false)), by_hand);
    assert_eq!(plan_launch(true, &preferences(false, true, true, false)), by_hand);
    assert_eq!(
        plan_launch(true, &preferences(true, true, true, false)),
        LaunchPlan { hidden: true, receive: false, broadcast: true }
    );
    assert_eq!(
        plan_launch(true, &preferences(true, false, false, true)),
        LaunchPlan { hidden: false, receive: true, broadcast: false }
    );
}

#[test]
fn the_parts_start_in_step() {
    let mut kept = preferences(true, true, false, false);
    kept.user_name = Some("Ann".to_string());
    kept.mic_gate_config.hold_ms = 7;
    let plan = plan_launch(true, &kept);
    let mut started =
        start(plan, Some("10.0.0.1".to_string()), "u@h".to_string(), &kept, Some(48000), 9);
    assert_eq!(started.session.local_name(), "Ann");
    assert_eq!(started.session.local_ip(), "10.0.0.1");
    assert_eq!(started.session.joined_bands(), [42000]);
    assert!(started.discovery.is_running());
    let round = started.discovery.announce(9).unwrap();
    assert_eq!(round.band_packet, "SAYING_BAND_DISCOVERY|1|10.0.0.1|Ann|42000");
    assert_eq!(started.audio.joined_bands(), [42000]);
    assert_eq!(started.audio.broadcast_targets(), vec![42000]);
    assert_eq!(started.audio.mic_gate_config().hold_ms, 7);
    assert_eq!(
        started.audio.capture(&[20000], 8000, 10).packet,
        Some(build_audio_packet("10.0.0.1", 8000, &[20000]))
    );
    assert!(!started.audio.is_receive_audio_enabled());
    assert!(started.window.hidden);
    assert!(!started.window.exit_requested);
}

#[test]
fn a_machine_without_an_address_still_starts() {
    let kept = DevicePreferences::default();
    let started = start(plan_launch(false, &kept), None, "u@h".to_string(), &kept, None, 9);
    assert_eq!(started.session.local_ip(), "0.0.0.0");
    assert_eq!(started.session.local_name(), "u@h");
    assert!(started.audio.is_receive_audio_enabled());
    assert!(!started.window.hidden);
}

#[test]
fn the_preferences_are_gathered() {
    let kept = DevicePreferences::default();
    let mut started = start(plan_launch(false, &kept), None, "me".to_string(), &kept, None, 9);
    started.audio.set_mic_gate_config(MicGateConfig { hold_ms: 5, ..MicGateConfig::default() });
    let inputs = vec!["in".to_string()];
    let outputs = vec!["x".to_string(), "out".to_string()];
    let autostart = AutostartSettings {
        enabled: true,
        minimize_to_tray: false,
        auto_broadcast: true,
        auto_receive: false,
    };
    let now = current_preferences(
        &started.session, &inputs, 3, &outputs, 1, &started.audio, autostart,
    );
    assert_eq!(now.user_name.as_deref(), Some("me"));
    assert_eq!(now.input_device, None);
    assert_eq!(now.output_device.as_deref(), Some("out"));
    assert_eq!(now.mic_gate_config.hold_ms, 5);
    assert!(now.autostart_enabled);
    assert!(!now.autostart_minimize_to_tray);
    assert!(now.autostart_auto_broadcast);
    assert!(!now.autostart_auto_receive);
}
