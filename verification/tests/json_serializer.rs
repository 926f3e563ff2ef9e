use json_data_cache::json_serializer::{JsonSerializer, SerializedWithKeys};
use json_data_cache::JsonNode;

fn key(text: &str) -> Vec<u8> {
    text.as_bytes().to_vec()
}

fn slice_at(out: &SerializedWithKeys, path: &str) -> Option<String> {
    out.key_values
        .iter()
        .find(|(k, _)| k.as_slice() == path.as_bytes())
        .map(|(_, r)| String::from_utf8(out.data[r.start..r.end].to_vec()).unwrap())
}

#[test]
fn serializer_test() {
    let value = JsonNode::Object(vec![
        (
            key("parent"),
            JsonNode::Object(vec![
                (key("child_int"), JsonNode::Number(b"12.5".to_vec())),
                (key("child_string"), JsonNode::String(b"toy".to_vec())),
                (key("child_bool"), JsonNode::Bool(false)),
                (
                    key("child_map"),
                    JsonNode::Object(vec![
                        (key("one"), JsonNode::Number(b"1".to_vec())),
                        (key("two"), JsonNode::String(b"second".to_vec())),
                    ]),
                ),
                (
                    key("child_arr"),
                    JsonNode::Array(vec![
                        JsonNode::String(b"one".to_vec()),
                        JsonNode::Number(b"2".to_vec()),
                        JsonNode::Bool(false),
                        JsonNode::Null,
                    ]),
                ),
            ]),
        ),
        (key("uncle"), JsonNode::String(b"sam".to_vec())),
        (
            key("arr_aunt"),
            JsonNode::Array(vec![JsonNode::String(b"sibling_string".to_vec()), JsonNode::Null]),
        ),
    ]);
    let (serialized, double_serialized) = JsonSerializer::serialize(&value, true);

    // Check for serialized
    for (path, expected) in [
        (
            "parent",
            r#"{"child_int":12.5,"child_string":"toy","child_bool":false,"child_map":{"one":1,"two":"second"},"child_arr":["one",2,false,null]}"#,
        ),
        ("parent.child_int", r#"12.5"#),
        ("parent.child_string", r#"toy"#),
        ("parent.child_bool", r#"false"#),
        ("parent.child_map", r#"{"one":1,"two":"second"}"#),
        ("parent.child_map.one", r#"1"#),
        ("parent.child_map.two", r#"second"#),
        ("parent.child_arr", r#"["one",2,false,null]"#),
        ("parent.child_arr.0", r#"one"#),
        ("parent.child_arr.1", r#"2"#),
        ("parent.child_arr.2", r#"false"#),
        ("parent.child_arr.3", r#"null"#),
        ("uncle", r#"sam"#),
        ("arr_aunt", r#"["sibling_string",null]"#),
        ("arr_aunt.0", r#"sibling_string"#),
        ("arr_aunt.1", r#"null"#),
    ] {
        let got = slice_at(&serialized, path);
        assert!(got.is_some());
        assert_eq!(expected, &got.unwrap());
    }

    // Check for double_serialized
    assert!(double_serialized.is_some());
    let double_serialized = double_serialized.unwrap();
    for (path, expected) in [
        (
            "parent",
            r#"{\"child_int\":12.5,\"child_string\":\"toy\",\"child_bool\":false,\"child_map\":{\"one\":1,\"two\":\"second\"},\"child_arr\":[\"one\",2,false,null]}"#,
        ),
        ("parent.child_int", r#"12.5"#),
        ("parent.child_string", r#"toy"#),
        ("parent.child_bool", r#"false"#),
        ("parent.child_map", r#"{\"one\":1,\"two\":\"second\"}"#),
        ("parent.child_map.one", r#"1"#),
        ("parent.child_map.two", r#"second"#),
        ("parent.child_arr", r#"[\"one\",2,false,null]"#),
        ("parent.child_arr.0", r#"one"#),
        ("parent.child_arr.1", r#"2"#),
        ("parent.child_arr.2", r#"false"#),
        ("parent.child_arr.3", r#"null"#),
        ("uncle", r#"sam"#),
        ("arr_aunt", r#"[\"sibling_string\",null]"#),
        ("arr_aunt.0", r#"sibling_string"#),
        ("arr_aunt.1", r#"null"#),
    ] {
        let got = slice_at(&double_serialized, path);
        assert!(got.is_some());
        assert_eq!(expected, &got.unwrap());
    }

    // A string with a quote and a control byte: the single form escapes it
    // once, the double form twice.
    let tricky = JsonNode::Object(vec![(key("q"), JsonNode::String(b"a\"b\nc".to_vec()))]);
    let (single, double) = JsonSerializer::serialize(&tricky, true);
    assert_eq!(String::from_utf8(single.data.clone()).unwrap(), "{\"q\":\"a\\\"b\\nc\"}");
    assert_eq!(slice_at(&single, "q").unwrap(), "a\\\"b\\nc");
    assert_eq!(slice_at(&double.unwrap(), "q").unwrap(), "a\\\\\\\"b\\\\nc");
}
