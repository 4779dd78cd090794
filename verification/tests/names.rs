use saying::names::{build_local_name, describe_age, format_age, normalize_display_name};
use std::time::Duration;

fn some(text: &str) -> Option<String> {
    Some(text.to_string())
}

#[test]
fn the_name_comes_from_the_system() {
    assert_eq!(build_local_name(some("ann"), some("bob"), some("box")), "ann@box");
    assert_eq!(build_local_name(None, some("bob"), some("box")), "bob@box");
    assert_eq!(build_local_name(None, None, some("box")), "user@box");
    assert_eq!(build_local_name(some("ann"), None, None), "ann");
    assert_eq!(build_local_name(some("ann"), None, some("")), "ann");
    assert_eq!(build_local_name(some("ann"), None, some("ann")), "ann");
    assert_eq!(build_local_name(None, None, None), "user");
    assert_eq!(build_local_name(some(""), some("bob"), some("box")), "@box");
}

#[test]
fn shown_names_are_trimmed() {
    assert_eq!(normalize_display_name("  a b ".to_string()), some("a b"));
    assert_eq!(normalize_display_name("\u{3000}\n".to_string()), None);
    assert_eq!(normalize_display_name(String::new()), None);
}

/// The same on the durations of the standard library.
fn reference(age: Duration) -> String {
    if age < Duration::from_secs(1) {
        format!("{}ms", age.as_millis())
    } else if age < Duration::from_secs(60) {
        format!("{:.1}s", age.as_secs_f32())
    } else {
        format!("{}m", age.as_secs() / 60)
    }
}

#[test]
fn ages_are_in_words() {
    assert_eq!(format_age(0), "0ms");
    assert_eq!(format_age(999_999_999), "999ms");
    assert_eq!(format_age(1_000_000_000), "1.0s");
    assert_eq!(format_age(1_250_000_000), "1.2s");
    assert_eq!(format_age(12_340_000_000), "12.3s");
    assert_eq!(format_age(59_960_000_000), "60.0s");
    assert_eq!(format_age(60_000_000_000), "1m");
    assert_eq!(format_age(3_599_999_999_999), "59m");
    assert_eq!(format_age(u64::MAX), "307445734m");
}

#[test]
fn ages_agree_with_the_standard_library() {
    let mut state: u64 = 5;
    for _ in 0..5000 {
        state = state.wrapping_mul(6364136223846793005).wrapping_add(1442695040888963407);
        let age = (state >> 8) % 70_000_000_000;
        assert_eq!(format_age(age), reference(Duration::from_nanos(age)));
    }
    for tenths in 0..620u64 {
        for rest in [0, 49_999_999, 50_000_000, 50_000_001] {
            let age = tenths * 100_000_000 + rest;
            assert_eq!(format_age(age), reference(Duration::from_nanos(age)));
        }
    }
}

#[test]
fn the_given_seconds_are_shown() {
    assert_eq!(describe_age(2_000_000_000, 3.25f32.to_bits()), "3.2s");
    assert_eq!(describe_age(2_000_000, 3.25f32.to_bits()), "2ms");
}
