use keys_lsp::token::get_string_around_cursor;

#[test]
fn extracts_literal_around_cursor() {
    let line = "let k = \"abc:def.ghi\";";
    assert_eq!(get_string_around_cursor(line, 12), Some("abc:def.ghi".to_string()));
}

#[test]
fn extracts_between_nearest_quotes() {
    let line = "f(\"hello\") + \"x\"";
    assert_eq!(get_string_around_cursor(line, 4), Some("hello".to_string()));
    assert_eq!(get_string_around_cursor(line, 14), Some("x".to_string()));
}

#[test]
fn cursor_on_closing_quote_still_extracts() {
    assert_eq!(get_string_around_cursor("\"ab\"", 3), Some("ab".to_string()));
}

#[test]
fn cursor_between_literals_takes_the_gap() {
    let line = "\"a\" + \"b\"";
    assert_eq!(get_string_around_cursor(line, 4), Some(" + ".to_string()));
}

#[test]
fn cursor_past_end_is_not_found() {
    assert_eq!(get_string_around_cursor("\"ab\"", 4), None);
    assert_eq!(get_string_around_cursor("", 0), None);
}

#[test]
fn missing_left_quote_is_not_found() {
    assert_eq!(get_string_around_cursor("ab\"", 1), None);
    assert_eq!(get_string_around_cursor("\"ab\"", 0), None);
}

#[test]
fn missing_right_quote_is_not_found() {
    assert_eq!(get_string_around_cursor("\"ab", 2), None);
}

#[test]
fn escaped_quote_ends_the_literal() {
    let line = "\"a\\\"b\"";
    assert_eq!(get_string_around_cursor(line, 1), Some("a\\".to_string()));
}

#[test]
fn cursor_counts_bytes() {
    let line = "éé\"a\"";
    assert_eq!(get_string_around_cursor(line, 5), Some("a".to_string()));
    assert_eq!(get_string_around_cursor(line, 3), None);
}

#[test]
fn cursor_inside_multibyte_character() {
    let line = "\"é:ü\"";
    assert_eq!(get_string_around_cursor(line, 2), Some("é:ü".to_string()));
    assert_eq!(get_string_around_cursor(line, 6), Some("é:ü".to_string()));
}
