use saying::devices::{
    choose_device_index, resolve_device, selected_name, selected_text, DeviceChoice,
};

fn list() -> Vec<String> {
    vec!["a".to_string(), "b".to_string(), "c".to_string(), "b".to_string()]
}

#[test]
fn the_preferred_device_comes_first() {
    assert_eq!(choose_device_index(&list(), Some("a".to_string()), Some("c")), 2);
    assert_eq!(choose_device_index(&list(), Some("c".to_string()), Some("b")), 1);
    assert_eq!(choose_device_index(&list(), Some("c".to_string()), Some("x")), 2);
    assert_eq!(choose_device_index(&list(), Some("c".to_string()), None), 2);
    assert_eq!(choose_device_index(&list(), Some("x".to_string()), Some("y")), 0);
    assert_eq!(choose_device_index(&list(), None, Some("c")), 2);
    assert_eq!(choose_device_index(&list(), None, None), 0);
    assert_eq!(choose_device_index(&[], Some("a".to_string()), Some("a")), 0);
}

#[test]
fn a_device_is_found_to_open() {
    let devices = vec![None, Some("a".to_string()), Some("b".to_string()), Some("a".to_string())];
    assert_eq!(resolve_device(Some("a"), &devices, true), DeviceChoice::Listed(1));
    assert_eq!(resolve_device(Some("x"), &devices, true), DeviceChoice::SystemDefault);
    assert_eq!(resolve_device(None, &devices, true), DeviceChoice::SystemDefault);
    assert_eq!(resolve_device(Some("x"), &devices, false), DeviceChoice::Listed(0));
    assert_eq!(resolve_device(Some("x"), &[], false), DeviceChoice::Missing);
    assert_eq!(resolve_device(None, &[], true), DeviceChoice::SystemDefault);
}

#[test]
fn the_selection_is_shown() {
    assert_eq!(selected_name(&list(), 2), Some("c".to_string()));
    assert_eq!(selected_name(&list(), 4), None);
    assert_eq!(selected_text(&list(), 0), "a");
    assert_eq!(selected_text(&[], 0), "(none)");
}
