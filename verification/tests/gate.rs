use saying::gate::{
    should_broadcast_input, MicGateConfig, LOCAL_SPEAKING_THRESHOLD, MAX_HOLD_MS,
};

fn config(start: f32, stop: f32, hold_ms: u32) -> MicGateConfig {
    MicGateConfig { start_threshold: start.to_bits(), stop_threshold: stop.to_bits(), hold_ms }
}

#[test]
fn thresholds_are_the_usual_numbers() {
    assert_eq!(MicGateConfig::default(), config(0.16, 0.08, 180));
    assert_eq!(LOCAL_SPEAKING_THRESHOLD, 0.12f32.to_bits());
    assert_eq!(MAX_HOLD_MS, 2000);
}

#[test]
fn settings_are_held_to_their_ranges() {
    assert_eq!(config(1.5, 2.0, 9999).normalized(), config(1.0, 1.0, 2000));
    assert_eq!(config(-0.5, 0.3, 0).normalized(), config(0.0, 0.0, 0));
    assert_eq!(config(0.2, 0.1, 180).normalized(), config(0.2, 0.1, 180));
    assert_eq!(config(0.2, 0.5, 180).normalized(), config(0.2, 0.2, 180));
    assert_eq!(config(0.2, -1.0, 180).normalized(), config(0.2, 0.0, 180));
    assert_eq!(config(f32::INFINITY, 0.5, 1).normalized(), config(1.0, 0.5, 1));
    assert_eq!(MicGateConfig::default().normalized(), MicGateConfig::default());
}

#[test]
fn normalizing_twice_changes_nothing() {
    for start in [-1.0, -0.0, 0.0, 0.3, 1.0, 7.0] {
        for stop in [-1.0, -0.0, 0.0, 0.2, 0.9, 7.0, f32::NAN] {
            let once = config(start, stop, 2500).normalized();
            assert_eq!(once.normalized(), once);
        }
    }
}

#[test]
fn only_numbers_can_open() {
    assert!(!config(f32::NAN, 0.1, 1).is_normalizable());
    assert!(config(0.1, f32::NAN, 1).is_normalizable());
    assert!(MicGateConfig::default().is_normalizable());
}

#[test]
fn holding_times_are_in_milliseconds() {
    assert_eq!(config(0.1, 0.1, 180).hold_duration(), 180_000_000);
}

#[test]
fn voice_opens_and_silence_closes() {
    let (start, stop) = (0.16f32.to_bits(), 0.08f32.to_bits());
    let hold = 180_000_000;
    let mut active = false;
    let mut last = 0;
    let mut step = |level: f32, now: u64| {
        let open = should_broadcast_input(
            level.to_bits(), &mut active, &mut last, start, stop, hold, now,
        );
        assert_eq!(active, open);
        (open, last)
    };
    // Too soft to open.
    assert_eq!(step(0.1, 10), (false, 0));
    // Loud enough.
    assert_eq!(step(0.16, 20), (true, 20));
    // Soft, but loud enough to stay open.
    assert_eq!(step(0.08, 30), (true, 30));
    // Silence: held open for a while.
    assert_eq!(step(0.0, 30 + hold), (true, 30));
    assert_eq!(step(0.0, 31 + hold), (false, 30));
    // Closed, the second threshold no longer counts.
    assert_eq!(step(0.1, 40 + hold), (false, 30));
}

#[test]
fn what_is_no_number_never_opens() {
    let mut active = false;
    let mut last = 5;
    let nan = f32::NAN.to_bits();
    assert!(!should_broadcast_input(nan, &mut active, &mut last, 0, 0, 0, 9));
    assert!(!should_broadcast_input(0, &mut active, &mut last, nan, nan, 0, 9));
    assert_eq!(last, 5);
}
