use keys_lsp::key_path::parse;

#[test]
fn parse_prefix_and_segments() {
    let p = parse("a:b.c");
    assert_eq!(p.prefix, "a");
    assert_eq!(p.segments, vec!["b".to_string(), "c".to_string()]);
}

#[test]
fn parse_prefix_only() {
    let p = parse("a");
    assert_eq!(p.prefix, "a");
    assert!(p.segments.is_empty());
}

#[test]
fn parse_empty_token() {
    let p = parse("");
    assert_eq!(p.prefix, "");
    assert!(p.segments.is_empty());
}

#[test]
fn parse_keeps_empty_fragments() {
    let p = parse("a::b.");
    assert_eq!(p.prefix, "a");
    assert_eq!(p.segments, vec!["".to_string(), "b".to_string(), "".to_string()]);
}

#[test]
fn parse_dots_and_colons_alike() {
    let p = parse("x.y:z");
    assert_eq!(p.prefix, "x");
    assert_eq!(p.segments, vec!["y".to_string(), "z".to_string()]);
}
