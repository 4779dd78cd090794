use saying::fonts::{first_font, first_font_in, is_before, is_font_name};
use std::path::Path;

#[test]
fn fonts_are_told_by_their_extension() {
    for name in [
        "a.ttf", "a.TTF", "a.tTf", ".ttf", "..ttf", "a.ttf.", "attf", "a.otf", "a.ttf.bak", "x.y.ttf",
        "a.tt", "ttf", "", "a..ttf", "字.ttf", "a.ttF ", "a.\u{0}tf", "a.4TF", "a.TTf",
    ] {
        let expected = Path::new(name)
            .extension()
            .and_then(|ext| ext.to_str())
            .map(|ext| ext.eq_ignore_ascii_case("ttf"))
            .unwrap_or(false);
        assert_eq!(is_font_name(name.as_bytes()), expected, "{name}");
    }
}

#[test]
fn names_are_ordered_by_their_bytes() {
    let names = ["", "a", "ab", "b", "B", "字", "a.ttf", "a-b.ttf"];
    for a in names {
        for b in names {
            assert_eq!(is_before(a.as_bytes(), b.as_bytes()), a.as_bytes() < b.as_bytes());
        }
    }
}

#[test]
fn the_first_font_is_taken() {
    let names = |list: &[&str]| -> Vec<Vec<u8>> { list.iter().map(|n| n.as_bytes().to_vec()).collect() };
    assert_eq!(first_font(&names(&["z.ttf", "a.txt", "b.TTF", "c.ttf"])), Some(2));
    assert_eq!(first_font(&names(&["a.txt", ".ttf"])), None);
    assert_eq!(first_font(&[]), None);
    assert_eq!(first_font(&names(&["x.ttf"])), Some(0));
}

#[test]
fn the_second_directory_is_searched_where_the_first_holds_no_font() {
    let names = |list: &[&str]| -> Vec<Vec<u8>> { list.iter().map(|n| n.as_bytes().to_vec()).collect() };
    let fonts = names(&["readme", "b.ttf", "a.ttf"]);
    let none = names(&["a.txt"]);
    assert_eq!(first_font_in(&[fonts.clone(), names(&["0.ttf"])]), Some((0, 2)));
    assert_eq!(first_font_in(&[none.clone(), fonts.clone()]), Some((1, 2)));
    assert_eq!(first_font_in(&[vec![], fonts]), Some((1, 2)));
    assert_eq!(first_font_in(&[none.clone(), none]), None);
    assert_eq!(first_font_in(&[]), None);
}
