use json_store::codec::{parse_json, write_json};
use json_store::json::{JsonNumber, JsonValue};
use json_store::path::{
    delete_value_by_path, get_value_by_path, segment_index, set_value_by_path, split_segments,
};

fn doc(text: &str) -> JsonValue {
    parse_json(text.as_bytes()).expect("valid JSON")
}

fn text(v: &JsonValue) -> String {
    String::from_utf8(write_json(v, false).expect("encodes")).expect("utf8")
}

fn num(i: i128) -> JsonValue {
    JsonValue::Number(JsonNumber::Integer(i))
}

fn word(s: &str) -> JsonValue {
    JsonValue::String(s.to_string())
}

#[test]
fn split_cuts_at_every_dot() {
    assert_eq!(split_segments("users.0.name"), vec!["users", "0", "name"]);
    assert_eq!(split_segments(""), vec![""]);
    assert_eq!(split_segments("a..b"), vec!["a", "", "b"]);
    assert_eq!(split_segments(".a."), vec!["", "a", ""]);
    assert_eq!(split_segments("plain"), vec!["plain"]);
}

#[test]
fn segment_index_reads_non_negative_integers() {
    assert_eq!(segment_index("0"), Some(0));
    assert_eq!(segment_index("42"), Some(42));
    assert_eq!(segment_index("007"), Some(7));
    assert_eq!(segment_index("+5"), Some(5));
    assert_eq!(segment_index(""), None);
    assert_eq!(segment_index("+"), None);
    assert_eq!(segment_index("-1"), None);
    assert_eq!(segment_index("1a"), None);
    assert_eq!(segment_index("1.5"), None);
    assert_eq!(segment_index(" 1"), None);
}

#[test]
fn segment_index_stops_at_the_largest_index() {
    assert_eq!(segment_index(&usize::MAX.to_string()), Some(usize::MAX));
    assert_eq!(segment_index("340282366920938463463374607431768211456"), None);
    let mut beyond = usize::MAX.to_string();
    beyond.push('0');
    assert_eq!(segment_index(&beyond), None);
}

#[test]
fn get_walks_objects_and_arrays() {
    let root = doc(r#"{"users":[{"name":"Ada"},{"name":"Bob"}],"n":1}"#);
    assert_eq!(text(get_value_by_path(&root, "users.1.name").unwrap()), r#""Bob""#);
    assert_eq!(text(get_value_by_path(&root, "users.0").unwrap()), r#"{"name":"Ada"}"#);
    assert_eq!(text(get_value_by_path(&root, "n").unwrap()), "1");
    assert!(get_value_by_path(&root, "users.2").is_none());
    assert!(get_value_by_path(&root, "users.name").is_none());
    assert!(get_value_by_path(&root, "n.x").is_none());
    assert!(get_value_by_path(&root, "missing").is_none());
}

#[test]
fn get_of_the_empty_path_is_the_root() {
    let root = doc(r#"{"a":1}"#);
    assert_eq!(text(get_value_by_path(&root, "").unwrap()), r#"{"a":1}"#);
    let scalar = num(5);
    assert_eq!(text(get_value_by_path(&scalar, "").unwrap()), "5");
}

#[test]
fn set_builds_nested_objects() {
    let mut root = JsonValue::empty_object();
    set_value_by_path(&mut root, "user.name", word("Ada"));
    set_value_by_path(&mut root, "user.age", num(36));
    assert_eq!(text(get_value_by_path(&root, "user").unwrap()), r#"{"name":"Ada","age":36}"#);
}

#[test]
fn set_pads_arrays_with_null() {
    let mut root = JsonValue::empty_object();
    set_value_by_path(&mut root, "items.2", word("c"));
    assert_eq!(text(get_value_by_path(&root, "items").unwrap()), r#"[null,null,"c"]"#);
}

#[test]
fn set_chooses_the_container_by_the_next_segment() {
    let mut root = JsonValue::empty_object();
    set_value_by_path(&mut root, "a.0.b.1", num(7));
    assert_eq!(text(&root), r#"{"a":[{"b":[null,7]}]}"#);
}

#[test]
fn set_overwrites_in_place_and_keeps_the_order_of_keys() {
    let mut root = doc(r#"{"a":1,"b":2,"c":3}"#);
    set_value_by_path(&mut root, "b", num(20));
    set_value_by_path(&mut root, "d", num(4));
    assert_eq!(text(&root), r#"{"a":1,"b":20,"c":3,"d":4}"#);
}

#[test]
fn set_keeps_existing_containers() {
    let mut root = doc(r#"{"a":{"x":1},"l":[1,2,3]}"#);
    set_value_by_path(&mut root, "a.y", num(2));
    set_value_by_path(&mut root, "l.1", num(20));
    assert_eq!(text(&root), r#"{"a":{"x":1,"y":2},"l":[1,20,3]}"#);
}

#[test]
fn set_replaces_a_scalar_by_the_container_its_segment_calls_for() {
    let mut root = doc(r#"{"a":5}"#);
    set_value_by_path(&mut root, "a.b", num(1));
    assert_eq!(text(&root), r#"{"a":{"b":1}}"#);
    let mut root = doc(r#"{"a":5}"#);
    set_value_by_path(&mut root, "a.1", num(1));
    assert_eq!(text(&root), r#"{"a":[null,1]}"#);
    let mut root = doc(r#"{"a":5}"#);
    set_value_by_path(&mut root, "a.b.0", num(1));
    assert_eq!(text(&root), r#"{"a":{"b":[1]}}"#);
}

#[test]
fn set_replaces_null_slots_of_arrays() {
    let mut root = doc(r#"{"l":[null,"x"]}"#);
    set_value_by_path(&mut root, "l.0.k", num(1));
    assert_eq!(text(&root), r#"{"l":[{"k":1},"x"]}"#);
}

#[test]
fn set_on_an_array_with_a_name_changes_nothing() {
    let mut root = doc(r#"{"l":[1,2]}"#);
    set_value_by_path(&mut root, "l.name", num(1));
    assert_eq!(text(&root), r#"{"l":[1,2]}"#);
    set_value_by_path(&mut root, "l.-1", num(1));
    assert_eq!(text(&root), r#"{"l":[1,2]}"#);
    set_value_by_path(&mut root, "l.x.y", num(1));
    assert_eq!(text(&root), r#"{"l":[1,2]}"#);
}

#[test]
fn negative_numbers_name_keys_of_objects() {
    let mut root = JsonValue::empty_object();
    set_value_by_path(&mut root, "a.-1", num(1));
    assert_eq!(text(&root), r#"{"a":{"-1":1}}"#);
    assert_eq!(text(get_value_by_path(&root, "a.-1").unwrap()), "1");
}

#[test]
fn an_empty_segment_is_the_empty_key() {
    let mut root = JsonValue::empty_object();
    set_value_by_path(&mut root, "a..b", num(1));
    assert_eq!(text(&root), r#"{"a":{"":{"b":1}}}"#);
    assert_eq!(text(get_value_by_path(&root, "a..b").unwrap()), "1");
    delete_value_by_path(&mut root, "a..b");
    assert_eq!(text(&root), r#"{"a":{"":{}}}"#);
}

#[test]
fn set_of_the_empty_path_replaces_the_root() {
    let mut root = doc(r#"{"a":1}"#);
    set_value_by_path(&mut root, "", num(9));
    assert_eq!(text(&root), "9");
}

#[test]
fn set_on_a_scalar_root_makes_a_container() {
    let mut root = num(3);
    set_value_by_path(&mut root, "a", num(1));
    assert_eq!(text(&root), r#"{"a":1}"#);
    let mut root = JsonValue::Null;
    set_value_by_path(&mut root, "1", num(1));
    assert_eq!(text(&root), "[null,1]");
}

#[test]
fn delete_removes_keys_and_keeps_the_parent() {
    let mut root = JsonValue::empty_object();
    set_value_by_path(&mut root, "a.b", num(1));
    delete_value_by_path(&mut root, "a.b");
    assert!(get_value_by_path(&root, "a.b").is_none());
    assert!(get_value_by_path(&root, "a").is_some());
    assert_eq!(text(get_value_by_path(&root, "a").unwrap()), "{}");
}

#[test]
fn delete_keeps_the_order_of_the_other_keys() {
    let mut root = doc(r#"{"a":1,"b":2,"c":3,"d":4}"#);
    delete_value_by_path(&mut root, "b");
    assert_eq!(text(&root), r#"{"a":1,"c":3,"d":4}"#);
}

#[test]
fn delete_splices_arrays() {
    let mut root = doc(r#"{"l":["a","b","c"]}"#);
    delete_value_by_path(&mut root, "l.0");
    assert_eq!(text(&root), r#"{"l":["b","c"]}"#);
    delete_value_by_path(&mut root, "l.5");
    assert_eq!(text(&root), r#"{"l":["b","c"]}"#);
    delete_value_by_path(&mut root, "l.x");
    assert_eq!(text(&root), r#"{"l":["b","c"]}"#);
}

#[test]
fn delete_of_a_missing_way_changes_nothing() {
    let mut root = doc(r#"{"a":{"b":1},"n":1}"#);
    delete_value_by_path(&mut root, "x.y");
    delete_value_by_path(&mut root, "a.c");
    delete_value_by_path(&mut root, "n.k");
    delete_value_by_path(&mut root, "a.b.c");
    assert_eq!(text(&root), r#"{"a":{"b":1},"n":1}"#);
}

#[test]
fn delete_of_the_empty_path_leaves_the_empty_object() {
    let mut root = doc(r#"{"a":1}"#);
    delete_value_by_path(&mut root, "");
    assert_eq!(text(&root), "{}");
    let mut scalar = num(1);
    delete_value_by_path(&mut scalar, "");
    assert_eq!(text(&scalar), "{}");
}

#[test]
fn setting_twice_is_setting_once() {
    for path in ["a", "a.b.c", "l.3", "l.1.x", "n.k", "", "l.name"] {
        let start = r#"{"a":{"b":1},"l":[1,null],"n":7}"#;
        let mut once = doc(start);
        set_value_by_path(&mut once, path, word("v"));
        let mut twice = doc(start);
        set_value_by_path(&mut twice, path, word("v"));
        set_value_by_path(&mut twice, path, word("v"));
        assert_eq!(text(&once), text(&twice), "path {path}");
    }
}

#[test]
fn deleting_twice_is_deleting_once_outside_arrays() {
    for path in ["a", "a.b", "n", "", "x.y", "l.1", "l.9"] {
        let start = r#"{"a":{"b":1},"l":[1,2],"n":7}"#;
        let mut once = doc(start);
        delete_value_by_path(&mut once, path);
        let mut twice = doc(start);
        delete_value_by_path(&mut twice, path);
        delete_value_by_path(&mut twice, path);
        assert_eq!(text(&once), text(&twice), "path {path}");
    }
}

#[test]
fn deleting_twice_in_an_array_removes_two_items() {
    let mut once = doc(r#"{"l":[1,2,3]}"#);
    delete_value_by_path(&mut once, "l.0");
    assert_eq!(text(&once), r#"{"l":[2,3]}"#);
    delete_value_by_path(&mut once, "l.0");
    assert_eq!(text(&once), r#"{"l":[3]}"#);
}

#[test]
fn well_formedness_is_checked() {
    assert!(doc(r#"{"a":[1,2.5,{"b":null}],"c":"x"}"#).is_well_formed());
    let twice = JsonValue::Object(vec![("a".to_string(), num(1)), ("a".to_string(), num(2))]);
    assert!(!twice.is_well_formed());
    assert!(!JsonValue::Array(vec![twice]).is_well_formed());
    assert!(!num(1i128 << 70).is_well_formed());
    assert!(num(u64::MAX as i128).is_well_formed());
    assert!(num(i64::MIN as i128).is_well_formed());
    assert!(!num(i64::MIN as i128 - 1).is_well_formed());
    let whole = serde_json::Number::from(3u64);
    assert!(!JsonValue::Number(JsonNumber::Float(whole)).is_well_formed());
    let half = serde_json::Number::from_f64(0.5).unwrap();
    assert!(JsonValue::Number(JsonNumber::Float(half)).is_well_formed());
}

#[test]
fn copies_are_equal_to_what_they_copy() {
    let v = doc(r#"{"a":[1,2.5,{"b":null}],"c":"x","d":true}"#);
    let copy = v.clone();
    assert!(copy.equals(&v));
    assert_eq!(text(&copy), text(&v));
    assert!(v.deep_copy().equals(&v));
}

#[test]
fn field_finds_the_entry_of_an_object() {
    let v = doc(r#"{"a":1,"b":"x"}"#);
    assert_eq!(text(v.field("b").unwrap()), r#""x""#);
    assert!(v.field("c").is_none());
    assert!(num(1).field("a").is_none());
}

#[test]
fn set_leaves_other_paths_alone() {
    let mut root = doc(r#"{"a":{"b":1,"c":[1,2]},"l":[{"x":1},{"x":2}],"s":5}"#);
    let others = ["a.c", "a.c.1", "l.1.x", "l.0", "s", "a.b.z", "missing.way"];
    let before: Vec<Option<String>> =
        others.iter().map(|p| get_value_by_path(&root, p).map(text)).collect();
    set_value_by_path(&mut root, "a.b", num(9));
    set_value_by_path(&mut root, "l.0.x", num(9));
    set_value_by_path(&mut root, "l.0.y.2", num(9));
    let after: Vec<Option<String>> =
        others[..3].iter().map(|p| get_value_by_path(&root, p).map(text)).collect();
    assert_eq!(after[..], before[..3]);
    assert_eq!(get_value_by_path(&root, "s").map(text), before[4]);
    assert_eq!(get_value_by_path(&root, "missing.way").map(text), before[6]);
}

#[test]
fn an_index_written_otherwise_names_the_same_item() {
    let mut root = doc(r#"{"l":[1,2]}"#);
    set_value_by_path(&mut root, "l.01", num(9));
    assert_eq!(get_value_by_path(&root, "l.1").map(text), Some("9".to_string()));
    set_value_by_path(&mut root, "l.+0", num(8));
    assert_eq!(text(&root), r#"{"l":[8,9]}"#);
}

#[test]
fn writing_behind_the_end_fills_the_places_before() {
    let mut root = doc(r#"{"l":[1]}"#);
    assert!(get_value_by_path(&root, "l.2").is_none());
    assert!(get_value_by_path(&root, "l.2.k").is_none());
    set_value_by_path(&mut root, "l.3", num(4));
    assert_eq!(get_value_by_path(&root, "l.2").map(text), Some("null".to_string()));
    assert!(get_value_by_path(&root, "l.2.k").is_none());
    assert_eq!(get_value_by_path(&root, "l.0").map(text), Some("1".to_string()));
}
