use vision_rust_core::json::{json_parse, json_parse_array, json_stringify};

#[test]
fn a_document_parses_to_its_value() {
    let v = json_parse(r#"{"key": "value", "number": 123, "list": [1, 2.5, null, true]}"#.to_string()).unwrap();
    assert_eq!(v["key"], serde_json::Value::String("value".to_string()));
    assert_eq!(v["number"].as_i64(), Some(123));
    assert_eq!(v["list"].as_array().unwrap().len(), 4);
    assert_eq!(v["list"][1].as_f64(), Some(2.5));
}

#[test]
fn a_refused_document_is_a_parse_error() {
    let err = json_parse("{\"key\": ".to_string()).unwrap_err();
    assert!(err.starts_with("JSON parse error: "), "{err}");
    assert!(err.len() > "JSON parse error: ".len());
}

#[test]
fn an_array_gives_its_elements() {
    let items = json_parse_array(r#"[{"id": 1}, {"id": 2}, 3]"#.to_string()).unwrap();
    assert_eq!(items.len(), 3);
    assert_eq!(items[1]["id"].as_i64(), Some(2));
    assert_eq!(items[2].as_i64(), Some(3));
}

#[test]
fn a_document_that_is_not_an_array_is_refused() {
    assert_eq!(json_parse_array(r#"{"id": 1}"#.to_string()).unwrap_err(), "Expected JSON array");
    assert!(json_parse_array("[1,".to_string()).unwrap_err().starts_with("JSON parse error: "));
}

#[test]
fn values_are_written_compact_or_indented() {
    let v = json_parse(r#"{"a": [1, 2]}"#.to_string()).unwrap();
    assert_eq!(json_stringify(&v, false).unwrap(), r#"{"a":[1,2]}"#);
    assert_eq!(json_stringify(&v, true).unwrap(), "{\n  \"a\": [\n    1,\n    2\n  ]\n}");
}

#[test]
fn written_text_parses_back_to_the_same_value() {
    let v = json_parse(r#"{"name": "pi", "value": 3.14159, "tags": ["x", "y"], "ok": false}"#.to_string()).unwrap();
    let text = json_stringify(&v, false).unwrap();
    assert_eq!(json_parse(text).unwrap(), v);
}

#[test]
fn an_array_document_parses_to_the_same_elements_as_the_whole() {
    let text = r#"[1, "two", {"three": 3}]"#;
    let whole = json_parse(text.to_string()).unwrap();
    let items = json_parse_array(text.to_string()).unwrap();
    assert_eq!(&items, whole.as_array().unwrap());
}
