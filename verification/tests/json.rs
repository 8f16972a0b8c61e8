use imgmeta::json::json_string;

#[test]
fn escapes_control_and_special_characters() {
    assert_eq!(json_string("plain"), "\"plain\"");
    assert_eq!(json_string("a\"b\\c"), "\"a\\\"b\\\\c\"");
    assert_eq!(json_string("line\nbreak"), "\"line\\nbreak\"");
    assert_eq!(json_string("\u{1}"), "\"\\u0001\"");
}

#[test]
fn escapes_remaining_short_forms_and_high_controls() {
    assert_eq!(json_string("a\rb\tc"), "\"a\\rb\\tc\"");
    assert_eq!(json_string("\u{1f}"), "\"\\u001f\"");
    assert_eq!(json_string(""), "\"\"");
    assert_eq!(json_string("caf\u{e9} \u{7f}"), "\"caf\u{e9} \u{7f}\"");
}

#[test]
fn no_raw_control_character_survives() {
    let all: String = (0u32..0x20).map(|c| char::from_u32(c).unwrap()).collect();
    let quoted = json_string(&all);
    assert!(quoted.chars().all(|c| (c as u32) >= 0x20));
    assert!(quoted.starts_with('"') && quoted.ends_with('"'));
}
