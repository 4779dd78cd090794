use saying::window::{
    fallback_icon_rgba, fallback_tray_icon, make_tray_icon, tray_icon_rgba, CloseAnswer, TrayClick,
    Window,
};

#[test]
fn clicks_show_and_hide() {
    let mut window = Window::new(true);
    assert_eq!(window.tray_clicked(TrayClick::Left), Some(true));
    assert!(!window.hidden);
    assert_eq!(window.tray_clicked(TrayClick::Double), Some(false));
    assert!(window.hidden);
    assert_eq!(window.tray_clicked(TrayClick::Other), None);
    assert!(window.hidden);
    assert_eq!(window, Window::new(true));
}

#[test]
fn closing_hides_unless_the_user_wants_to_exit() {
    let mut window = Window::new(false);
    assert_eq!(window.close_requested(), CloseAnswer::Hide);
    assert!(window.hidden);
    window.set_visible(true);
    assert!(!window.menu_chosen(false));
    assert_eq!(window.close_requested(), CloseAnswer::Hide);
    window.set_visible(true);
    assert!(window.menu_chosen(true));
    assert!(!window.menu_chosen(false));
    assert_eq!(window.close_requested(), CloseAnswer::Close);
    assert!(!window.hidden);
}

#[test]
fn the_symbol_is_a_disc_in_a_ring() {
    let rgba = tray_icon_rgba();
    assert_eq!(rgba.len(), 32 * 32 * 4);
    for y in 0..32usize {
        for x in 0..32usize {
            let dx = x as f32 - 16.0;
            let dy = y as f32 - 16.0;
            let distance = (dx * dx + dy * dy).sqrt();
            let expected = if distance <= 11.5 {
                [56, 185, 129, 255]
            } else if distance <= 14.0 {
                [230, 236, 240, 200]
            } else {
                [0, 0, 0, 0]
            };
            let offset = (y * 32 + x) * 4;
            assert_eq!(rgba[offset..offset + 4], expected);
        }
    }
}

#[test]
fn the_other_symbol_is_plain() {
    let rgba = fallback_icon_rgba();
    assert_eq!(rgba.len(), 4096);
    for pixel in rgba.chunks_exact(4) {
        assert_eq!(pixel, [60, 179, 113, 255]);
    }
}

/// The bytes with the opacity of each point before its colours, as the tray keeps them.
fn opacity_first(rgba: &[u8]) -> Vec<u8> {
    rgba.chunks_exact(4).flat_map(|point| [point[3], point[0], point[1], point[2]]).collect()
}

#[test]
fn the_symbols_are_made() {
    let icon = format!("{:?}", make_tray_icon().unwrap());
    let plain = format!("{:?}", fallback_tray_icon().unwrap());
    assert!(icon.contains(&format!("{:?}", opacity_first(&tray_icon_rgba()))));
    assert!(plain.contains(&format!("{:?}", opacity_first(&fallback_icon_rgba()))));
    for text in [icon, plain] {
        assert!(text.contains("width: 32"));
        assert!(text.contains("height: 32"));
    }
}
