use keys_lsp::value::{resolve_value, JsonValue};

fn s(t: &str) -> String {
    t.to_string()
}

fn nested_doc() -> JsonValue {
    JsonValue::Object(vec![(s("x"), JsonValue::Object(vec![(s("y"), JsonValue::Str(s("z")))]))])
}

#[test]
fn value_round_trip() {
    let doc = nested_doc();
    let r = resolve_value(&doc, &vec![s("x"), s("y")]);
    assert!(matches!(r, Some(JsonValue::Str(v)) if v == "z"));
}

#[test]
fn value_missing_first_segment() {
    let doc = nested_doc();
    assert!(resolve_value(&doc, &vec![s("nope")]).is_none());
    assert!(resolve_value(&doc, &vec![s("nope"), s("y")]).is_none());
}

#[test]
fn value_missing_later_segment_is_not_partial() {
    let doc = nested_doc();
    assert!(resolve_value(&doc, &vec![s("x"), s("q")]).is_none());
}

#[test]
fn value_path_through_string_fails() {
    let doc = nested_doc();
    assert!(resolve_value(&doc, &vec![s("x"), s("y"), s("w")]).is_none());
}

#[test]
fn value_empty_path_gives_root_object() {
    let doc = nested_doc();
    let r = resolve_value(&doc, &vec![]);
    assert!(matches!(r, Some(JsonValue::Object(m)) if m.len() == 1 && m[0].0 == "x"));
}

#[test]
fn value_inner_object_is_shown() {
    let doc = nested_doc();
    let r = resolve_value(&doc, &vec![s("x")]);
    assert!(matches!(r, Some(JsonValue::Object(m)) if m.len() == 1 && m[0].0 == "y"));
}

#[test]
fn value_non_object_root() {
    let arr = JsonValue::Array(vec![JsonValue::Null]);
    assert!(resolve_value(&arr, &vec![]).is_none());
    assert!(resolve_value(&arr, &vec![s("a")]).is_none());
    let num = JsonValue::Number(s("3"));
    assert!(resolve_value(&num, &vec![]).is_none());
    let text = JsonValue::Str(s("t"));
    assert!(resolve_value(&text, &vec![s("a")]).is_none());
    assert!(matches!(resolve_value(&text, &vec![]), Some(JsonValue::Str(v)) if v == "t"));
}

#[test]
fn value_other_leaves_are_not_shown() {
    let doc = JsonValue::Object(vec![
        (s("n"), JsonValue::Number(s("1.5"))),
        (s("b"), JsonValue::Bool(true)),
        (s("z"), JsonValue::Null),
        (s("a"), JsonValue::Array(vec![])),
    ]);
    for k in ["n", "b", "z", "a"] {
        assert!(resolve_value(&doc, &vec![s(k)]).is_none());
    }
}

#[test]
fn value_first_of_equal_keys_wins() {
    let doc = JsonValue::Object(vec![
        (s("k"), JsonValue::Str(s("first"))),
        (s("k"), JsonValue::Str(s("second"))),
    ]);
    assert!(matches!(resolve_value(&doc, &vec![s("k")]), Some(JsonValue::Str(v)) if v == "first"));
}
