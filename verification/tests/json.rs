use gist_summary::json::{json_items, json_member, json_text, json_u64, Json};

fn object(members: Vec<(&str, Json)>) -> Json {
    Json::Object(members.into_iter().map(|(k, v)| (k.to_string(), v)).collect())
}

#[test]
fn member_lookup() {
    let doc = object(vec![("a", Json::Number(Some(3))), ("b", Json::Text("x".to_string()))]);
    assert!(matches!(json_member(&doc, "a"), Some(Json::Number(Some(3)))));
    assert!(matches!(json_member(&doc, "b"), Some(Json::Text(s)) if s == "x"));
    assert!(json_member(&doc, "c").is_none());
    assert!(json_member(&Json::Array(vec![]), "a").is_none());
}

#[test]
fn scalar_reads() {
    assert_eq!(json_text(&Json::Text("hi".to_string())), Some("hi".to_string()));
    assert_eq!(json_text(&Json::Number(Some(1))), None);
    assert_eq!(json_u64(&Json::Number(Some(42))), Some(42));
    assert_eq!(json_u64(&Json::Number(None)), None);
    assert_eq!(json_u64(&Json::Text("42".to_string())), None);
}

#[test]
fn array_items() {
    let doc = Json::Array(vec![Json::Null, Json::Bool(true)]);
    assert_eq!(json_items(&doc).map(|v| v.len()), Some(2));
    assert!(json_items(&Json::Null).is_none());
}
