use json_data_cache::json_serializer::{serialize_bytes, JsonSerializer};
use json_data_cache::{DataCache, DataCacheOptions, JsonNode};

fn s(text: &str) -> JsonNode {
    JsonNode::String(text.as_bytes().to_vec())
}

fn obj(kvs: Vec<(&str, JsonNode)>) -> JsonNode {
    JsonNode::Object(kvs.into_iter().map(|(k, v)| (k.as_bytes().to_vec(), v)).collect())
}

fn root_json(cache: &DataCache) -> String {
    String::from_utf8(serialize_bytes(&cache.root)).unwrap()
}

fn get_json(cache: &DataCache, path: &str) -> Option<String> {
    cache
        .get(&path.as_bytes().to_vec())
        .map(|n| String::from_utf8(serialize_bytes(n)).unwrap())
}

fn map_get(map: &Vec<(Vec<u8>, Vec<u8>)>, key: &str) -> Option<String> {
    map.iter()
        .find(|(k, _)| k.as_slice() == key.as_bytes())
        .map(|(_, v)| String::from_utf8(v.clone()).unwrap())
}

#[test]
fn data_cache() {
    let mut data_cache = DataCache::new(DataCacheOptions::default());

    data_cache.insert(&b"basic_key".to_vec(), s("basic_value"));
    assert_eq!(root_json(&data_cache), r#"{"basic_key":"basic_value"}"#);
    assert_eq!(get_json(&data_cache, "basic_key"), Some(r#""basic_value""#.to_string()));

    data_cache.insert(&b"a.b.c".to_vec(), s("my_c_value"));
    data_cache.insert(&b"a.b".to_vec(), obj(vec![("d", s("my_d_value"))]));
    assert_eq!(
        root_json(&data_cache),
        r#"{"basic_key":"basic_value","a":{"b":{"c":"my_c_value","d":"my_d_value"}}}"#
    );
    assert_eq!(
        get_json(&data_cache, "a"),
        Some(r#"{"b":{"c":"my_c_value","d":"my_d_value"}}"#.to_string())
    );
    assert_eq!(
        get_json(&data_cache, "a.b"),
        Some(r#"{"c":"my_c_value","d":"my_d_value"}"#.to_string())
    );
    assert_eq!(get_json(&data_cache, "a.b.c"), Some(r#""my_c_value""#.to_string()));
    assert_eq!(get_json(&data_cache, "a.b.d"), Some(r#""my_d_value""#.to_string()));
    assert_eq!(get_json(&data_cache, "a.b.e"), None);

    data_cache.insert(&b"a.b".to_vec(), s("overwrite_string"));
    assert_eq!(
        root_json(&data_cache),
        r#"{"basic_key":"basic_value","a":{"b":"overwrite_string"}}"#
    );
    assert_eq!(get_json(&data_cache, "a.b"), Some(r#""overwrite_string""#.to_string()));

    data_cache.insert(&b"basic_key".to_vec(), obj(vec![("nested_key", s("nested_value"))]));
    assert_eq!(
        root_json(&data_cache),
        r#"{"basic_key":{"nested_key":"nested_value"},"a":{"b":"overwrite_string"}}"#
    );
    assert_eq!(
        get_json(&data_cache, "basic_key"),
        Some(r#"{"nested_key":"nested_value"}"#.to_string())
    );
    assert_eq!(get_json(&data_cache, "basic_key.nested_key"), Some(r#""nested_value""#.to_string()));

    data_cache.insert(&b"a.my_arr.".to_vec(), s("first_el"));
    data_cache.insert(&b"a.my_arr.".to_vec(), s("second_el"));
    assert_eq!(
        root_json(&data_cache),
        r#"{"basic_key":{"nested_key":"nested_value"},"a":{"b":"overwrite_string","my_arr":["first_el","second_el"]}}"#
    );
    assert_eq!(
        get_json(&data_cache, "a"),
        Some(r#"{"b":"overwrite_string","my_arr":["first_el","second_el"]}"#.to_string())
    );
    assert_eq!(
        get_json(&data_cache, "a.my_arr"),
        Some(r#"["first_el","second_el"]"#.to_string())
    );
    assert_eq!(get_json(&data_cache, "a.my_arr.0"), Some(r#""first_el""#.to_string()));
    assert_eq!(get_json(&data_cache, "a.my_arr.1"), Some(r#""second_el""#.to_string()));
    assert_eq!(get_json(&data_cache, "a.my_arr.2"), None);

    data_cache.insert(&b"a.b.c".to_vec(), s("my_c_value"));
    data_cache.insert(&b"a.b".to_vec(), obj(vec![("d", s("my_d_value"))]));
    assert_eq!(
        root_json(&data_cache),
        r#"{"basic_key":{"nested_key":"nested_value"},"a":{"b":{"c":"my_c_value","d":"my_d_value"},"my_arr":["first_el","second_el"]}}"#
    );

    data_cache.merge(obj(vec![("a", obj(vec![("b", obj(vec![("e", s("my_e_value"))]))]))]));
    assert_eq!(
        root_json(&data_cache),
        r#"{"basic_key":{"nested_key":"nested_value"},"a":{"b":{"c":"my_c_value","d":"my_d_value","e":"my_e_value"},"my_arr":["first_el","second_el"]}}"#
    );

    assert_eq!(data_cache.as_string_values_map().len(), 10);

    // All nodes must have string representation, not only string leafs
    assert_eq!(
        map_get(&data_cache.as_string_values_map(), "a"),
        Some(String::from(
            r#"{"b":{"c":"my_c_value","d":"my_d_value","e":"my_e_value"},"my_arr":["first_el","second_el"]}"#
        ))
    );
    assert_eq!(
        map_get(&data_cache.as_string_values_map(), "a.b"),
        Some(String::from(r#"{"c":"my_c_value","d":"my_d_value","e":"my_e_value"}"#))
    );
    assert_eq!(
        map_get(&data_cache.as_string_values_map(), "a.my_arr"),
        Some(String::from(r#"["first_el","second_el"]"#))
    );

    // Test replacements
    for (input, replacement) in [
        ("{$basic_key.nested_key}", "nested_value"),
        ("{$a.b}", r#"{"c":"my_c_value","d":"my_d_value","e":"my_e_value"}"#),
        ("{$$basic_key.nested_key}", r#"nested_value"#),
        (
            "{$$a.b}",
            r#"{\"c\":\"my_c_value\",\"d\":\"my_d_value\",\"e\":\"my_e_value\"}"#,
        ),
    ] {
        let reader = String::from(input);
        let mut writer: Vec<u8> = Vec::new();
        assert!(data_cache.replace_with_data_cache(reader.as_bytes(), &mut writer).is_ok());
        let writer_string = String::from_utf8(writer).unwrap();
        assert_eq!(&writer_string, replacement);
    }

    // A second substitution after a mutation reflects the new state.
    data_cache.insert(&b"basic_key.nested_key".to_vec(), s("fresh_value"));
    let mut writer: Vec<u8> = Vec::new();
    assert!(data_cache
        .replace_with_data_cache("{$basic_key.nested_key}".as_bytes(), &mut writer)
        .is_ok());
    assert_eq!(String::from_utf8(writer).unwrap(), "fresh_value");

    // An input without placeholders passes through byte-for-byte.
    let mut writer: Vec<u8> = Vec::new();
    assert!(data_cache.replace_with_data_cache("plain text: $a.b {x}".as_bytes(), &mut writer).is_ok());
    assert_eq!(String::from_utf8(writer).unwrap(), "plain text: $a.b {x}");

    // Delete-by-null: merging a null removes the key entirely.
    data_cache.merge(obj(vec![("a", obj(vec![("b", JsonNode::Null)]))]));
    assert_eq!(get_json(&data_cache, "a.b"), None);

    // Merging a non-object is absorbed as a no-op: the root stays an
    // object and keeps its members.
    data_cache.merge(JsonNode::Null);
    data_cache.merge(JsonNode::String(b"scalar".to_vec()));
    assert!(matches!(data_cache.root, JsonNode::Object(_)));
    assert_eq!(
        get_json(&data_cache, "basic_key"),
        Some(r#"{"nested_key":"fresh_value"}"#.to_string())
    );

    // A fresh insert places the value as it stands: top-level null members
    // of an object value are kept, not merged away.
    data_cache.insert(&b"fresh".to_vec(), obj(vec![("keep", JsonNode::Null)]));
    assert_eq!(get_json(&data_cache, "fresh.keep"), Some("null".to_string()));

    // Regex captures land in the cache under the group's name as path.
    let matched = data_cache.match_regex("^(?P<first>[a-z]+) (?P<scores>[0-9]+)$", "hello 42");
    assert_eq!(matched.unwrap(), true);
    assert_eq!(get_json(&data_cache, "first"), Some(r#""hello""#.to_string()));
    assert_eq!(get_json(&data_cache, "scores"), Some(r#""42""#.to_string()));

    // An invalid pattern is a failure, not a non-match.
    assert!(data_cache.match_regex("(unclosed", "whatever").is_err());

    // A participating reserved name is refused.
    let mut reserved_cache = DataCache::new(DataCacheOptions {
        reserved_cache_top_level_names: vec![b"system".to_vec()],
    });
    assert!(reserved_cache.match_regex("(?P<system>x)", "x").is_err());
    assert!(reserved_cache.get(&b"system".to_vec()).is_none());

    // A reserved group that did not participate in the match is skipped,
    // not a failure.
    let matched = reserved_cache.match_regex("(?P<system>a)|(?P<other>x)", "x");
    assert_eq!(matched.unwrap(), true);
    assert!(reserved_cache.get(&b"system".to_vec()).is_none());
    assert_eq!(get_json(&reserved_cache, "other"), Some(r#""x""#.to_string()));

    // Serializing the same tree twice is byte-identical.
    let (one, _) = JsonSerializer::serialize(&data_cache.root, false);
    let (two, _) = JsonSerializer::serialize(&data_cache.root, false);
    assert_eq!(one.data, two.data);
}
