use meowdict::api::{get_result, normalize, LookupError};
use meowdict::json::JsonValue;

fn obj(pairs: Vec<(&str, JsonValue)>) -> JsonValue {
    JsonValue::Object(pairs.into_iter().map(|(k, v)| (k.to_string(), v)).collect())
}

fn s(text: &str) -> JsonValue {
    JsonValue::Str(text.to_string())
}

#[test]
fn missing_h_yields_no_entries() {
    let raw = obj(vec![("x", JsonValue::Number)]);
    let result = normalize(&raw);
    assert!(result.moedict_item_result.is_empty());
    assert!(result.translation.is_none());
}

#[test]
fn h_not_an_array_yields_no_entries() {
    let raw = obj(vec![("h", s("oops"))]);
    let result = normalize(&raw);
    assert!(result.moedict_item_result.is_empty());
}

#[test]
fn numeric_pinyin_is_isolated() {
    let sense = obj(vec![
        ("p", JsonValue::Number),
        ("b", s("bopo")),
        ("d", JsonValue::Array(vec![obj(vec![("f", s("def"))])])),
    ]);
    let raw = obj(vec![("h", JsonValue::Array(vec![sense]))]);
    let result = normalize(&raw);
    assert_eq!(result.moedict_item_result.len(), 1);
    let entry = &result.moedict_item_result[0];
    assert!(entry.pinyin.is_none());
    assert_eq!(entry.bopomofo.as_deref(), Some("bopo"));
    let defs = entry.defination.as_ref().expect("definitions should populate");
    assert_eq!(defs.get("notype"), Some(&vec![vec!["def".to_string()]]));
}

#[test]
fn repeated_tag_groups_in_order() {
    let d = JsonValue::Array(vec![
        obj(vec![("type", s("v")), ("f", s("run"))]),
        obj(vec![("type", s("v")), ("q", JsonValue::Array(vec![s("fast")]))]),
    ]);
    let sense = obj(vec![("d", d)]);
    let raw = obj(vec![("h", JsonValue::Array(vec![sense]))]);
    let result = normalize(&raw);
    let defs = result.moedict_item_result[0].defination.as_ref().unwrap();
    assert_eq!(
        defs.get("v"),
        Some(&vec![vec!["run".to_string()], vec!["fast".to_string()]])
    );
}

#[test]
fn missing_type_falls_back_to_notype() {
    let d = JsonValue::Array(vec![obj(vec![("f", s("x"))])]);
    let sense = obj(vec![("d", d)]);
    let raw = obj(vec![("h", JsonValue::Array(vec![sense]))]);
    let result = normalize(&raw);
    let defs = result.moedict_item_result[0].defination.as_ref().unwrap();
    assert_eq!(defs.get("notype"), Some(&vec![vec!["x".to_string()]]));
}

#[test]
fn empty_d_array_gives_empty_mapping() {
    let sense = obj(vec![("d", JsonValue::Array(vec![]))]);
    let raw = obj(vec![("h", JsonValue::Array(vec![sense]))]);
    let result = normalize(&raw);
    let defs = result.moedict_item_result[0].defination.as_ref().unwrap();
    assert!(defs.is_empty());
}

#[test]
fn group_pools_f_q_e_l_in_order() {
    let item = obj(vec![
        ("type", s("n")),
        ("l", JsonValue::Array(vec![s("link")])),
        ("f", s("text")),
        ("q", JsonValue::Array(vec![s("quote"), JsonValue::Number, s("quote2")])),
        ("e", JsonValue::Array(vec![s("example")])),
    ]);
    let sense = obj(vec![("d", JsonValue::Array(vec![item]))]);
    let raw = obj(vec![("h", JsonValue::Array(vec![sense]))]);
    let result = normalize(&raw);
    let defs = result.moedict_item_result[0].defination.as_ref().unwrap();
    assert_eq!(
        defs.get("n"),
        Some(&vec![vec![
            "text".to_string(),
            "quote".to_string(),
            "quote2".to_string(),
            "example".to_string(),
            "link".to_string(),
        ]])
    );
}

#[test]
fn item_without_content_keeps_empty_group() {
    let d = JsonValue::Array(vec![
        obj(vec![("type", s("v"))]),
        obj(vec![("type", s("v")), ("f", s("later"))]),
    ]);
    let sense = obj(vec![("d", d)]);
    let raw = obj(vec![("h", JsonValue::Array(vec![sense]))]);
    let result = normalize(&raw);
    let defs = result.moedict_item_result[0].defination.as_ref().unwrap();
    assert_eq!(
        defs.get("v"),
        Some(&vec![Vec::<String>::new(), vec!["later".to_string()]])
    );
}

#[test]
fn interleaved_tags_append_to_their_own_groups() {
    let d = JsonValue::Array(vec![
        obj(vec![("type", s("v"))]),
        obj(vec![("type", s("n"))]),
        obj(vec![("type", s("n"))]),
        obj(vec![("type", s("v")), ("f", s("x"))]),
    ]);
    let sense = obj(vec![("d", d)]);
    let raw = obj(vec![("h", JsonValue::Array(vec![sense]))]);
    let result = normalize(&raw);
    let defs = result.moedict_item_result[0].defination.as_ref().unwrap();
    assert_eq!(defs.get("v"), Some(&vec![Vec::<String>::new(), vec!["x".to_string()]]));
    assert_eq!(defs.get("n"), Some(&vec![Vec::<String>::new(), Vec::<String>::new()]));
}

#[test]
fn duplicate_language_keeps_place_and_latest_value() {
    let translation = obj(vec![
        ("en", JsonValue::Array(vec![s("old")])),
        ("de", JsonValue::Array(vec![s("Katze")])),
        ("en", JsonValue::Array(vec![s("new")])),
    ]);
    let raw = obj(vec![("translation", translation)]);
    let result = normalize(&raw);
    let t = result.translation.as_ref().unwrap();
    let keys: Vec<&String> = t.keys().collect();
    assert_eq!(keys, vec!["en", "de"]);
    assert_eq!(t.get("en"), Some(&vec!["new".to_string()]));
}

#[test]
fn translations_preserve_order() {
    let translation = obj(vec![
        ("en", JsonValue::Array(vec![s("cat")])),
        ("de", JsonValue::Array(vec![s("Katze"), s("Kater")])),
    ]);
    let raw = obj(vec![("translation", translation)]);
    let result = normalize(&raw);
    let t = result.translation.as_ref().unwrap();
    let keys: Vec<&String> = t.keys().collect();
    assert_eq!(keys, vec!["en", "de"]);
    assert_eq!(t.get("de"), Some(&vec!["Katze".to_string(), "Kater".to_string()]));
}

#[test]
fn bad_translation_value_drops_the_whole_table() {
    let translation = obj(vec![
        ("en", JsonValue::Array(vec![s("cat")])),
        ("fr", s("chat")),
    ]);
    let raw = obj(vec![("translation", translation)]);
    let result = normalize(&raw);
    assert!(result.translation.is_none());
}

#[test]
fn non_string_translation_element_drops_the_whole_table() {
    let translation = obj(vec![("en", JsonValue::Array(vec![s("cat"), JsonValue::Null]))]);
    let raw = obj(vec![("translation", translation)]);
    let result = normalize(&raw);
    assert!(result.translation.is_none());
}

#[test]
fn not_found_page_yields_not_found() {
    let raw = "<html><head><title>404 Not Found</title></head></html>";
    let r = get_result("zzzNoSuchWord", raw);
    assert!(matches!(r, Err(LookupError::NotFound(ref k)) if k == "zzzNoSuchWord"));
}

#[test]
fn markers_are_stripped_before_parsing() {
    let raw = "{\"h\":[{\"p\":\"`pin`\",\"b\":\"~bo~\"}]}";
    let result = get_result("word", raw).unwrap();
    let entry = &result.moedict_item_result[0];
    assert_eq!(entry.pinyin.as_deref(), Some("pin"));
    assert_eq!(entry.bopomofo.as_deref(), Some("bo"));
}

#[test]
fn full_response_round_trip() {
    let raw = "{\"h\":[{\"p\":\"mao1\",\"b\":\"bopo\",\"d\":[{\"type\":\"n\",\"f\":\"a cat\",\"q\":[\"quote\"]},{\"type\":\"n\",\"f\":\"again\"}]}],\"translation\":{\"English\":[\"cat\"]}}";
    let result = get_result("cat", raw).unwrap();
    assert_eq!(result.moedict_item_result.len(), 1);
    let entry = &result.moedict_item_result[0];
    assert_eq!(entry.pinyin.as_deref(), Some("mao1"));
    assert_eq!(entry.bopomofo.as_deref(), Some("bopo"));
    let defs = entry.defination.as_ref().unwrap();
    assert_eq!(
        defs.get("n"),
        Some(&vec![
            vec!["a cat".to_string(), "quote".to_string()],
            vec!["again".to_string()],
        ])
    );
    let t = result.translation.as_ref().unwrap();
    assert_eq!(t.get("English"), Some(&vec!["cat".to_string()]));
}

#[test]
fn parsing_keeps_the_responses_key_order() {
    let raw = "{\"translation\":{\"zh\":[\"z1\"],\"en\":[\"e1\"],\"de\":[\"d1\"]}}";
    let result = get_result("w", raw).unwrap();
    let t = result.translation.as_ref().unwrap();
    let keys: Vec<&String> = t.keys().collect();
    assert_eq!(keys, vec!["zh", "en", "de"]);
}

#[test]
fn non_json_body_is_a_parse_failure() {
    let r = get_result("word", "this is not json");
    assert!(matches!(r, Err(LookupError::ParseFailure)));
}

#[test]
fn non_object_body_is_a_parse_failure() {
    let r = get_result("word", "[1, 2, 3]");
    assert!(matches!(r, Err(LookupError::ParseFailure)));
}
