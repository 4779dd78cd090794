use saying::text::{
    chars_are, chars_of, decimal_chars, is_white_space, joined, numbered, parse_unsigned,
    same_text, split_fields, split_pieces, string_of, trim_text,
};

fn strings(parts: Vec<&[char]>) -> Vec<String> {
    parts.iter().map(|part| string_of(part)).collect()
}

#[test]
fn white_space_is_that_of_unicode() {
    for n in 0..=0x10ffffu32 {
        if let Some(c) = char::from_u32(n) {
            assert_eq!(is_white_space(c), c.is_whitespace(), "{n:x}");
        }
    }
}

#[test]
fn trimming_agrees_with_str() {
    for text in [
        "", " ", "a", " a ", "\t a b \r\n", "\u{3000}名\u{3000}", "x ", " x", "\u{85}y\u{a0}",
        "  \u{2009} ", "a  b",
    ] {
        assert_eq!(trim_text(text), text.trim());
    }
}

#[test]
fn fields_stop_at_the_limit() {
    let text = chars_of("a|b||c|d");
    assert_eq!(strings(split_fields(&text, '|', 3)), vec!["a", "b", "|c|d"]);
    assert_eq!(strings(split_fields(&text, '|', 9)), vec!["a", "b", "", "c", "d"]);
    assert_eq!(strings(split_fields(&text, '|', 1)), vec!["a|b||c|d"]);
    assert_eq!(strings(split_fields(&[], '|', 4)), vec![""]);
}

#[test]
fn pieces_are_cut_everywhere() {
    assert_eq!(strings(split_pieces(&chars_of("1,2,,3"), ',')), vec!["1", "2", "", "3"]);
    assert_eq!(strings(split_pieces(&[], ',')), vec![""]);
    assert_eq!(strings(split_pieces(&chars_of(","), ',')), vec!["", ""]);
}

#[test]
fn decimals_are_written_and_read() {
    for n in [0u128, 1, 9, 10, 99, 100, 65535, 65536, 4294967295, u128::MAX] {
        assert_eq!(string_of(&decimal_chars(n)), n.to_string());
    }
    for text in [
        "0", "7", "00042", "+5", "+", "", "-1", "65535", "65536", "99999999999999999999", "1a",
        " 1", "++1", "٣",
    ] {
        let chars = chars_of(text);
        assert_eq!(parse_unsigned(&chars, 65535), text.parse::<u16>().ok().map(u32::from), "{text}");
        assert_eq!(parse_unsigned(&chars, u32::MAX), text.parse::<u32>().ok(), "{text}");
    }
}

#[test]
fn texts_are_compared_by_their_characters() {
    assert!(same_text("频段", "频段"));
    assert!(!same_text("频段", "频"));
    assert!(!same_text("a", "b"));
    assert!(chars_are(&['a', 'b'], "ab"));
    assert!(!chars_are(&['a', 'b'], "abc"));
    assert!(!chars_are(&['a', 'b'], "ac"));
}

#[test]
fn texts_are_joined() {
    assert_eq!(joined("a", "b"), "ab");
    assert_eq!(numbered("x", 12, "y"), "x12y");
}
