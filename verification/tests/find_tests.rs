use json_store::codec::{parse_json, write_json};
use json_store::find::{find_first, find_items, sort_json, QueryOptions};
use json_store::json::JsonValue;
use std::cmp::Ordering;

fn doc(text: &str) -> JsonValue {
    parse_json(text.as_bytes()).expect("valid JSON")
}

fn text(v: &JsonValue) -> String {
    String::from_utf8(write_json(v, false).expect("encodes")).expect("utf8")
}

fn texts(items: &[JsonValue]) -> Vec<String> {
    items.iter().map(text).collect()
}

fn options(
    sort: Option<&str>,
    skip: Option<u32>,
    limit: Option<u32>,
    select: Option<&[&str]>,
) -> Option<QueryOptions> {
    Some(QueryOptions {
        limit,
        skip,
        sort: sort.map(doc),
        select: select.map(|f| f.iter().map(|s| s.to_string()).collect()),
    })
}

fn users() -> JsonValue {
    doc(r#"[{"n":"a","age":30},{"n":"b","age":20},{"n":"c","age":40}]"#)
}

#[test]
fn find_filters_sorts_limits_and_projects() {
    let found = find_items(
        Some(&users()),
        &doc(r#"{"age":{"$gte":25}}"#),
        &options(Some(r#"{"age":-1}"#), None, Some(1), Some(&["n"])),
    );
    assert_eq!(texts(&found), vec![r#"{"n":"c"}"#]);
}

#[test]
fn find_without_options_keeps_the_order() {
    let found = find_items(Some(&users()), &doc("{}"), &None);
    assert_eq!(
        texts(&found),
        vec![r#"{"n":"a","age":30}"#, r#"{"n":"b","age":20}"#, r#"{"n":"c","age":40}"#]
    );
}

#[test]
fn find_walks_the_values_of_an_object() {
    let coll = doc(r#"{"x":{"v":1},"y":{"v":2},"z":{"v":3}}"#);
    let found = find_items(Some(&coll), &doc(r#"{"v":{"$gt":1}}"#), &None);
    assert_eq!(texts(&found), vec![r#"{"v":2}"#, r#"{"v":3}"#]);
}

#[test]
fn find_in_what_is_no_collection_is_empty() {
    assert!(find_items(Some(&doc("5")), &doc("{}"), &None).is_empty());
    assert!(find_items(Some(&doc(r#""text""#)), &doc("{}"), &None).is_empty());
    assert!(find_items(Some(&doc("null")), &doc("{}"), &None).is_empty());
    assert!(find_items(None, &doc("{}"), &None).is_empty());
}

#[test]
fn find_with_a_query_that_is_no_object_is_empty() {
    assert!(find_items(Some(&users()), &doc("null"), &None).is_empty());
    assert!(find_items(Some(&users()), &doc("[]"), &None).is_empty());
}

#[test]
fn sort_ascending_and_descending() {
    let up = find_items(Some(&users()), &doc("{}"), &options(Some(r#"{"age":1}"#), None, None, Some(&["n"])));
    assert_eq!(texts(&up), vec![r#"{"n":"b"}"#, r#"{"n":"a"}"#, r#"{"n":"c"}"#]);
    let down = find_items(Some(&users()), &doc("{}"), &options(Some(r#"{"age":-1}"#), None, None, Some(&["n"])));
    assert_eq!(texts(&down), vec![r#"{"n":"c"}"#, r#"{"n":"a"}"#, r#"{"n":"b"}"#]);
}

#[test]
fn sort_by_several_keys_in_their_order() {
    let coll = doc(r#"[{"g":2,"n":"b"},{"g":1,"n":"z"},{"g":2,"n":"a"},{"g":1,"n":"y"}]"#);
    let found = find_items(Some(&coll), &doc("{}"), &options(Some(r#"{"g":1,"n":-1}"#), None, None, None));
    assert_eq!(
        texts(&found),
        vec![r#"{"g":1,"n":"z"}"#, r#"{"g":1,"n":"y"}"#, r#"{"g":2,"n":"b"}"#, r#"{"g":2,"n":"a"}"#]
    );
}

#[test]
fn sort_is_stable() {
    let coll = doc(r#"[{"k":1,"i":0},{"k":0,"i":1},{"k":1,"i":2},{"k":0,"i":3},{"k":1,"i":4}]"#);
    let found = find_items(Some(&coll), &doc("{}"), &options(Some(r#"{"k":1}"#), None, None, Some(&["i"])));
    assert_eq!(
        texts(&found),
        vec![r#"{"i":1}"#, r#"{"i":3}"#, r#"{"i":0}"#, r#"{"i":2}"#, r#"{"i":4}"#]
    );
}

#[test]
fn items_without_the_sort_field_come_last_ascending_and_first_descending() {
    let coll = doc(r#"[{"n":"x"},{"n":"a","age":2},{"n":"b","age":1}]"#);
    let up = find_items(Some(&coll), &doc("{}"), &options(Some(r#"{"age":1}"#), None, None, Some(&["n"])));
    assert_eq!(texts(&up), vec![r#"{"n":"b"}"#, r#"{"n":"a"}"#, r#"{"n":"x"}"#]);
    let down = find_items(Some(&coll), &doc("{}"), &options(Some(r#"{"age":-1}"#), None, None, Some(&["n"])));
    assert_eq!(texts(&down), vec![r#"{"n":"x"}"#, r#"{"n":"a"}"#, r#"{"n":"b"}"#]);
}

#[test]
fn values_that_cannot_be_compared_sort_as_equal() {
    let coll = doc(r#"[{"v":true,"i":0},{"v":"s","i":1},{"v":1,"i":2},{"v":null,"i":3}]"#);
    let found = find_items(Some(&coll), &doc("{}"), &options(Some(r#"{"v":1}"#), None, None, Some(&["i"])));
    assert_eq!(texts(&found), vec![r#"{"i":0}"#, r#"{"i":1}"#, r#"{"i":2}"#, r#"{"i":3}"#]);
}

#[test]
fn sort_json_orders_two_documents() {
    let a = doc(r#"{"age":1,"n":"x"}"#);
    let b = doc(r#"{"age":2,"n":"x"}"#);
    assert_eq!(sort_json(&a, &b, &doc(r#"{"age":1}"#)), Ordering::Less);
    assert_eq!(sort_json(&b, &a, &doc(r#"{"age":1}"#)), Ordering::Greater);
    assert_eq!(sort_json(&a, &b, &doc(r#"{"age":-1}"#)), Ordering::Greater);
    assert_eq!(sort_json(&a, &b, &doc(r#"{"n":1}"#)), Ordering::Equal);
    assert_eq!(sort_json(&a, &b, &doc(r#"{"n":1,"age":1}"#)), Ordering::Less);
    assert_eq!(sort_json(&a, &b, &doc("{}")), Ordering::Equal);
    assert_eq!(sort_json(&a, &b, &doc("[1]")), Ordering::Equal);
    assert_eq!(sort_json(&a, &b, &doc("null")), Ordering::Equal);
}

#[test]
fn a_direction_is_descending_only_as_a_negative_integer() {
    let a = doc(r#"{"age":1}"#);
    let b = doc(r#"{"age":2}"#);
    assert_eq!(sort_json(&a, &b, &doc(r#"{"age":-7}"#)), Ordering::Greater);
    assert_eq!(sort_json(&a, &b, &doc(r#"{"age":0}"#)), Ordering::Less);
    assert_eq!(sort_json(&a, &b, &doc(r#"{"age":-1.0}"#)), Ordering::Less);
    assert_eq!(sort_json(&a, &b, &doc(r#"{"age":"-1"}"#)), Ordering::Less);
    assert_eq!(sort_json(&a, &b, &doc(r#"{"age":null}"#)), Ordering::Less);
}

#[test]
fn sort_json_puts_present_before_missing() {
    let with = doc(r#"{"age":1}"#);
    let without = doc(r#"{"n":1}"#);
    assert_eq!(sort_json(&with, &without, &doc(r#"{"age":1}"#)), Ordering::Less);
    assert_eq!(sort_json(&without, &with, &doc(r#"{"age":1}"#)), Ordering::Greater);
    assert_eq!(sort_json(&with, &without, &doc(r#"{"age":-1}"#)), Ordering::Greater);
    assert_eq!(sort_json(&without, &without, &doc(r#"{"age":1}"#)), Ordering::Equal);
}

#[test]
fn skip_and_limit_cut_the_sorted_items() {
    let coll = doc("[{\"i\":0},{\"i\":1},{\"i\":2},{\"i\":3},{\"i\":4}]");
    let all = doc("{}");
    let cut = |skip, limit| texts(&find_items(Some(&coll), &all, &options(None, skip, limit, None)));
    assert_eq!(cut(Some(1), Some(2)), vec![r#"{"i":1}"#, r#"{"i":2}"#]);
    assert_eq!(cut(Some(3), None), vec![r#"{"i":3}"#, r#"{"i":4}"#]);
    assert_eq!(cut(None, Some(2)), vec![r#"{"i":0}"#, r#"{"i":1}"#]);
    assert_eq!(cut(Some(0), Some(0)), Vec::<String>::new());
    assert_eq!(cut(Some(5), None), Vec::<String>::new());
    assert_eq!(cut(Some(9), Some(3)), Vec::<String>::new());
    assert_eq!(cut(Some(4), Some(10)), vec![r#"{"i":4}"#]);
    assert_eq!(cut(None, Some(u32::MAX)).len(), 5);
    assert_eq!(cut(Some(u32::MAX), None).len(), 0);
    assert_eq!(cut(None, None).len(), 5);
}

#[test]
fn skip_counts_after_the_filter_and_the_sort() {
    let found = find_items(
        Some(&users()),
        &doc(r#"{"age":{"$gte":25}}"#),
        &options(Some(r#"{"age":1}"#), Some(1), None, Some(&["n"])),
    );
    assert_eq!(texts(&found), vec![r#"{"n":"c"}"#]);
}

#[test]
fn an_empty_selection_returns_the_items_as_they_are() {
    let found = find_items(Some(&users()), &doc(r#"{"n":"a"}"#), &options(None, None, None, Some(&[])));
    assert_eq!(texts(&found), vec![r#"{"n":"a","age":30}"#]);
}

#[test]
fn projection_rebuilds_nested_fields_and_leaves_missing_ones_out() {
    let coll = doc(r#"[{"n":"a","address":{"city":"Rome","zip":"1"},"tags":["x","y"]}]"#);
    let pick = |fields: &[&str]| {
        texts(&find_items(Some(&coll), &doc("{}"), &options(None, None, None, Some(fields))))
    };
    assert_eq!(pick(&["address.city"]), vec![r#"{"address":{"city":"Rome"}}"#]);
    assert_eq!(pick(&["n", "address.zip"]), vec![r#"{"n":"a","address":{"zip":"1"}}"#]);
    assert_eq!(pick(&["address.city", "address.zip"]), vec![r#"{"address":{"city":"Rome","zip":"1"}}"#]);
    assert_eq!(pick(&["missing"]), vec!["{}"]);
    assert_eq!(pick(&["missing", "n"]), vec![r#"{"n":"a"}"#]);
    assert_eq!(pick(&["tags.1"]), vec![r#"{"tags":[null,"y"]}"#]);
}

#[test]
fn find_first_returns_the_first_match() {
    let first = find_first(Some(&users()), &doc(r#"{"age":{"$lt":35}}"#));
    assert_eq!(text(&first.unwrap()), r#"{"n":"a","age":30}"#);
    let second = find_first(Some(&users()), &doc(r#"{"age":{"$lt":25}}"#));
    assert_eq!(text(&second.unwrap()), r#"{"n":"b","age":20}"#);
    assert!(find_first(Some(&users()), &doc(r#"{"age":{"$gt":99}}"#)).is_none());
    assert!(find_first(Some(&doc("3")), &doc("{}")).is_none());
    assert!(find_first(None, &doc("{}")).is_none());
    let coll = doc(r#"{"x":{"v":1},"y":{"v":2}}"#);
    assert_eq!(text(&find_first(Some(&coll), &doc(r#"{"v":2}"#)).unwrap()), r#"{"v":2}"#);
}
