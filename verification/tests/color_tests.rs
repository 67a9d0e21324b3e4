use scorify::note_colors::{
    build_note_color_map, parse_note_color_key, pitch_class_key, resolve_note_color,
};
use scorify::text::{is_digit, is_lower, is_whitespace_char, is_word_char, resolve_color_name};

fn pairs(entries: &[(&str, &str)]) -> Vec<(String, String)> {
    entries.iter().map(|(k, v)| (k.to_string(), v.to_string())).collect()
}

#[test]
fn byte_classes() {
    assert!(is_digit(b'0') && is_digit(b'9') && !is_digit(b'a'));
    assert!(is_lower(b'a') && is_lower(b'z') && !is_lower(b'A'));
    assert!(is_whitespace_char(b' ') && is_whitespace_char(b'\t') && is_whitespace_char(b'\r'));
    assert!(!is_whitespace_char(b'\n'));
    assert!(is_word_char(b'q') && is_word_char(b'7') && is_word_char(b'-') && !is_word_char(b'{'));
}

#[test]
fn color_presets_resolve_by_name() {
    assert_eq!(resolve_color_name("red"), "#ff0000");
    assert_eq!(resolve_color_name("  Sky-Blue "), "#4e9fe5");
    assert_eq!(resolve_color_name("SKY_BLUE"), "#4e9fe5");
    assert_eq!(resolve_color_name("sky blue"), "#4e9fe5");
    assert_eq!(resolve_color_name("Navy"), "#0a2a66");
    assert_eq!(resolve_color_name("charcoal"), "#36454f");
    assert_eq!(resolve_color_name(" #123456 "), "#123456");
    assert_eq!(resolve_color_name(" teal "), "teal");
}

#[test]
fn pitch_class_keys_and_note_map_keys() {
    assert_eq!(pitch_class_key("c", Some("sharp")), "c|sharp");
    assert_eq!(pitch_class_key("e", None), "e|");
    assert_eq!(parse_note_color_key("c#'", 4), Some(("c|sharp".to_string(), 5)));
    assert_eq!(parse_note_color_key("  b&&,, ", 4), Some(("b|double-flat".to_string(), 2)));
    assert_eq!(parse_note_color_key("g=", 3), Some(("g|natural".to_string(), 3)));
    assert_eq!(parse_note_color_key("h", 4), None);
    assert_eq!(parse_note_color_key("c4", 4), None);
    assert_eq!(parse_note_color_key("", 4), None);
}

#[test]
fn staff_map_overrides_score_map_and_octaves_split() {
    let score = pairs(&[("c", "red"), ("d", "blue")]);
    let staff = pairs(&[("c", "green"), ("c''", "gold")]);
    let map = build_note_color_map(Some(&score), Some(&staff), 4);
    assert_eq!(resolve_note_color(&map, "c", None, 4), Some("#00ff00"));
    assert_eq!(resolve_note_color(&map, "c", None, 2), Some("#00ff00"));
    assert_eq!(resolve_note_color(&map, "c", None, 6), Some("#d4af37"));
    assert_eq!(resolve_note_color(&map, "c", None, 9), Some("#d4af37"));
    assert_eq!(resolve_note_color(&map, "d", None, 4), Some("#0000ff"));
    assert_eq!(resolve_note_color(&map, "d", Some("sharp"), 4), None);
    assert_eq!(resolve_note_color(&map, "e", None, 4), None);

    let empty = build_note_color_map(None, None, 4);
    assert_eq!(resolve_note_color(&empty, "c", None, 4), None);
}

#[test]
fn unreadable_keys_are_ignored() {
    let score = pairs(&[("x", "red"), ("f#", "purple")]);
    let map = build_note_color_map(Some(&score), None, 4);
    assert_eq!(resolve_note_color(&map, "f", Some("sharp"), 1), Some("#9d0055"));
    assert_eq!(resolve_note_color(&map, "f", None, 4), None);
}

#[test]
fn built_map_lists_the_named_octaves_of_each_pitch() {
    let score = pairs(&[("c", "red"), ("d", "blue")]);
    let staff = pairs(&[("c", "green"), ("c''", "gold")]);
    let map = build_note_color_map(Some(&score), Some(&staff), 4);
    let key = pitch_class_key("c", None);
    let list: Vec<(i32, String)> = map
        .entries
        .iter()
        .find(|(k, _)| *k == key)
        .map(|(_, t)| t.clone())
        .expect("c has an entry");
    assert_eq!(list, vec![(4, "#00ff00".to_string()), (6, "#d4af37".to_string())]);
    assert_eq!(map.entries.len(), 2);

    let empty = build_note_color_map(None, None, 4);
    assert!(empty.entries.is_empty());
}
