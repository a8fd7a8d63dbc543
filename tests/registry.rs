use keys_lsp::registry::Config;

#[test]
fn malformed_entry_is_skipped() {
    let c = Config::from_config("a:/tmp/a.json,bad,b:/tmp/b.json");
    assert_eq!(c.files.len(), 2);
    assert_eq!(c.location(&"a".to_string()), Some("/tmp/a.json".to_string()));
    assert_eq!(c.location(&"b".to_string()), Some("/tmp/b.json".to_string()));
    assert_eq!(c.location(&"bad".to_string()), None);
}

#[test]
fn unknown_prefix_has_no_location() {
    let c = Config::from_config("a:/tmp/a.json");
    assert_eq!(c.location(&"z".to_string()), None);
}

#[test]
fn empty_config_registers_nothing() {
    let c = Config::from_config("");
    assert!(c.files.is_empty());
    assert_eq!(c.location(&"".to_string()), None);
}

#[test]
fn entry_with_three_parts_is_skipped() {
    let c = Config::from_config("c:C:/x.json,d:/d.json");
    assert_eq!(c.location(&"c".to_string()), None);
    assert_eq!(c.location(&"d".to_string()), Some("/d.json".to_string()));
}

#[test]
fn later_entry_for_a_prefix_wins() {
    let c = Config::from_config("a:/one.json,a:/two.json");
    assert_eq!(c.location(&"a".to_string()), Some("/two.json".to_string()));
}
