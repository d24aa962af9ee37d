use jsonify::path::{decimal_text, element_path, member_path};
use jsonify::{Jsonify, JsonifyValue, JsonNode};

fn s(t: &str) -> JsonifyValue {
    JsonifyValue::Str(t.to_string())
}

fn num(t: &str) -> JsonifyValue {
    JsonifyValue::Number(t.to_string())
}

fn sorted_keys(d: &Jsonify) -> Vec<String> {
    let mut k = d.get_keys();
    k.sort();
    k
}

const PERSON: &str =
    r#"{"name":"John Doe","age":30,"address":{"city":"New York","zip":"10001"}}"#;

#[test]
fn end_to_end_person() {
    let mut d = Jsonify::new(PERSON).unwrap();
    assert_eq!(sorted_keys(&d), vec!["address.city", "address.zip", "age", "name"]);
    assert_eq!(d.get_value("address.city"), Some(s("New York")));
    assert_eq!(d.get_value("age"), Some(num("30")));
    assert!(d.remove_from_json("name"));
    assert!(!d.has_key("name"));
    d.add_to_json("address.country", s("USA"));
    assert!(d.has_key("address.country"));
    assert_eq!(d.get_value("address.country"), Some(s("USA")));
}

#[test]
fn array_paths() {
    let d = Jsonify::new(r#"{"phones":["a","b"]}"#).unwrap();
    assert_eq!(sorted_keys(&d), vec!["phones[0]", "phones[1]"]);
    assert_eq!(d.get_value("phones[0]"), Some(s("a")));
    assert_eq!(d.get_value("phones[1]"), Some(s("b")));
    assert_eq!(d.get_value("phones"), None);
}

#[test]
fn nested_arrays_and_objects() {
    let d = Jsonify::new(r#"{"m":[[1,2],[{"x":true}]],"n":null}"#).unwrap();
    assert_eq!(sorted_keys(&d), vec!["m[0][0]", "m[0][1]", "m[1][0].x", "n"]);
    assert_eq!(d.get_value("m[0][1]"), Some(num("2")));
    assert_eq!(d.get_value("m[1][0].x"), Some(JsonifyValue::Bool(true)));
    assert_eq!(d.get_value("n"), Some(JsonifyValue::Null));
}

#[test]
fn top_level_array() {
    let d = Jsonify::new("[10, \"z\"]").unwrap();
    assert_eq!(sorted_keys(&d), vec!["[0]", "[1]"]);
    assert_eq!(d.get_value("[0]"), Some(num("10")));
}

#[test]
fn large_index_path() {
    let mut text = String::from("[");
    for i in 0..12 {
        if i > 0 {
            text.push(',');
        }
        text.push_str(&i.to_string());
    }
    text.push(']');
    let d = Jsonify::new(&text).unwrap();
    assert_eq!(d.get_value("[11]"), Some(num("11")));
    assert_eq!(d.get_keys().len(), 12);
}

#[test]
fn empty_inputs_give_empty_documents() {
    for t in ["", "   \n\t", "null", "{}", "[]"] {
        let d = Jsonify::new(t).unwrap();
        assert!(d.get_keys().is_empty(), "input {:?}", t);
        assert_eq!(d.to_json(), "{}");
    }
}

#[test]
fn malformed_input_is_an_error() {
    let e = Jsonify::new("{\"a\": ").unwrap_err();
    assert!(!e.message.is_empty());
    assert!(Jsonify::new("nope").is_err());
}

#[test]
fn merge_overwrites_existing_path() {
    let mut d = Jsonify::new(r#"{"a": 0}"#).unwrap();
    d.merge_json(r#"{"a": 1}"#).unwrap();
    assert_eq!(d.get_value("a"), Some(num("1")));
    assert_eq!(d.get_keys().len(), 1);
}

#[test]
fn merge_is_a_union() {
    let mut d = Jsonify::new(r#"{"a": 1}"#).unwrap();
    d.merge_json(r#"{"b": 2}"#).unwrap();
    assert_eq!(sorted_keys(&d), vec!["a", "b"]);
    assert_eq!(d.get_value("a"), Some(num("1")));
    assert_eq!(d.get_value("b"), Some(num("2")));
}

#[test]
fn merge_error_leaves_document_unchanged() {
    let mut d = Jsonify::new(r#"{"a": 1}"#).unwrap();
    assert!(d.merge_json(r#"{"b": "#).is_err());
    assert_eq!(d.to_json(), r#"{"a":1}"#);
}

#[test]
fn merge_blank_changes_nothing() {
    let mut d = Jsonify::new(r#"{"a": 1}"#).unwrap();
    assert!(d.merge_json("  ").is_ok());
    assert_eq!(d.to_json(), r#"{"a":1}"#);
}

#[test]
fn replace_never_inserts() {
    let mut d = Jsonify::new(r#"{"a": 1}"#).unwrap();
    assert!(!d.replace("nonexistent", s("x")));
    assert_eq!(sorted_keys(&d), vec!["a"]);
    assert_eq!(d.get_value("nonexistent"), None);
}

#[test]
fn replace_swaps_value_and_type() {
    let mut d = Jsonify::new(r#"{"a": 1}"#).unwrap();
    assert_eq!(d.get_value("a").unwrap().value_type(), "Number");
    assert!(d.replace("a", s("x")));
    let v = d.get_value("a").unwrap();
    assert_eq!(v, s("x"));
    assert_eq!(v.value_type(), "String");
    assert_eq!(d.get_keys().len(), 1);
}

#[test]
fn remove_twice_second_is_false() {
    let mut d = Jsonify::new(r#"{"k": 1, "j": 2}"#).unwrap();
    assert!(d.remove_from_json("k"));
    assert!(!d.remove_from_json("k"));
    assert_eq!(sorted_keys(&d), vec!["j"]);
    let mut e = Jsonify::empty();
    assert!(!e.remove_from_json("k"));
    assert!(!e.remove_from_json("k"));
}

#[test]
fn add_overwrites_existing() {
    let mut d = Jsonify::empty();
    d.add_to_json("a", JsonifyValue::Bool(false));
    d.add_to_json("a", JsonifyValue::Null);
    assert_eq!(d.get_keys(), vec!["a"]);
    assert_eq!(d.get_value("a"), Some(JsonifyValue::Null));
    assert_eq!(d.get_value("a").unwrap().value_type(), "Null");
}

#[test]
fn to_json_is_flat() {
    let d = Jsonify::new(r#"{"b":true,"a":{"c":null}}"#).unwrap();
    assert_eq!(d.to_json(), r#"{"a.c":null,"b":true}"#);
}

#[test]
fn to_json_escapes_strings() {
    let mut d = Jsonify::empty();
    d.add_to_json("q\"k", s("line\nend"));
    assert_eq!(d.to_json(), "{\"q\\\"k\":\"line\\nend\"}");
}

#[test]
fn to_json_numbers_and_false() {
    let d = Jsonify::new(r#"{"x":-2.5,"y":false}"#).unwrap();
    assert_eq!(d.to_json(), r#"{"x":-2.5,"y":false}"#);
}

#[test]
fn from_node_flattens() {
    let node = JsonNode::Object(vec![
        ("a".to_string(), JsonNode::Array(vec![JsonNode::Scalar(num("1"))])),
        ("b".to_string(), JsonNode::Scalar(s("t"))),
    ]);
    let d = Jsonify::from_node(&node);
    assert_eq!(sorted_keys(&d), vec!["a[0]", "b"]);
    let null = Jsonify::from_node(&JsonNode::Scalar(JsonifyValue::Null));
    assert!(null.get_keys().is_empty());
    let top = Jsonify::from_node(&JsonNode::Scalar(JsonifyValue::Bool(true)));
    assert_eq!(top.get_value(""), Some(JsonifyValue::Bool(true)));
}

#[test]
fn merge_node_upserts() {
    let mut d = Jsonify::new(r#"{"a":1,"b":2}"#).unwrap();
    d.merge_node(&JsonNode::Object(vec![("a".to_string(), JsonNode::Scalar(s("z")))]));
    assert_eq!(d.get_value("a"), Some(s("z")));
    assert_eq!(d.get_value("b"), Some(num("2")));
}

#[test]
fn path_builders() {
    assert_eq!(decimal_text(0), "0");
    assert_eq!(decimal_text(1234), "1234");
    assert_eq!(member_path("", "k"), "k");
    assert_eq!(member_path("a.b", "k"), "a.b.k");
    assert_eq!(element_path("p", 7), "p[7]");
    assert_eq!(element_path("", 10), "[10]");
}

#[test]
fn value_type_names() {
    assert_eq!(s("x").value_type(), "String");
    assert_eq!(num("1").value_type(), "Number");
    assert_eq!(JsonifyValue::Bool(true).value_type(), "Bool");
    assert_eq!(JsonifyValue::Null.value_type(), "Null");
}

#[test]
fn dotted_key_collides_with_nested_path() {
    // Object members are flattened in key order, so "a.b" comes after "a"
    // and its leaf overwrites the one that the nested member produced.
    let d = Jsonify::new(r#"{"a.b":1,"a":{"b":2}}"#).unwrap();
    assert_eq!(d.get_keys(), vec!["a.b"]);
    assert_eq!(d.get_value("a.b"), Some(num("1")));
}

#[test]
fn path_count_matches_scalar_count() {
    let d = Jsonify::new(r#"{"a":[1,[2,3],{"b":null,"c":"x"}],"d":{"e":{"f":false}}}"#).unwrap();
    assert_eq!(
        sorted_keys(&d),
        vec!["a[0]", "a[1][0]", "a[1][1]", "a[2].b", "a[2].c", "d.e.f"]
    );
}
