use json_store::codec::parse_json;
use json_store::json::{JsonNumber, JsonValue};
use json_store::query::{
    check_condition, compare_json, match_operator, matches_query, ord_to_int,
};
use std::cmp::Ordering;

fn doc(text: &str) -> JsonValue {
    parse_json(text.as_bytes()).expect("valid JSON")
}

fn holds(value: Option<&str>, op: &str, target: &str) -> bool {
    let v = value.map(doc);
    match_operator(v.as_ref(), op, &doc(target))
}

#[test]
fn ord_to_int_maps_the_three_orderings() {
    assert_eq!(ord_to_int(Ordering::Less), -1);
    assert_eq!(ord_to_int(Ordering::Equal), 0);
    assert_eq!(ord_to_int(Ordering::Greater), 1);
}

#[test]
fn deep_equality_compares_by_content() {
    assert!(doc("null").equals(&doc("null")));
    assert!(doc("true").equals(&doc("true")));
    assert!(!doc("true").equals(&doc("false")));
    assert!(doc("3").equals(&doc("3")));
    assert!(!doc("3").equals(&doc("4")));
    assert!(doc(r#""a""#).equals(&doc(r#""a""#)));
    assert!(!doc(r#""a""#).equals(&doc(r#""b""#)));
    assert!(doc("[1,[2,3]]").equals(&doc("[1,[2,3]]")));
    assert!(!doc("[1,2]").equals(&doc("[2,1]")));
    assert!(!doc("[1,2]").equals(&doc("[1,2,3]")));
    assert!(!doc("1").equals(&doc(r#""1""#)));
    assert!(!doc("null").equals(&doc("0")));
}

#[test]
fn deep_equality_of_objects_ignores_the_order_of_keys() {
    assert!(doc(r#"{"a":1,"b":{"c":2}}"#).equals(&doc(r#"{"b":{"c":2},"a":1}"#)));
    assert!(!doc(r#"{"a":1}"#).equals(&doc(r#"{"a":1,"b":2}"#)));
    assert!(!doc(r#"{"a":1,"b":2}"#).equals(&doc(r#"{"a":1,"c":2}"#)));
    assert!(!doc(r#"{"a":1}"#).equals(&doc(r#"{"a":2}"#)));
}

#[test]
fn deep_equality_of_numbers_keeps_integers_and_floats_apart() {
    assert!(doc("1.5").equals(&doc("1.5")));
    assert!(!doc("1.5").equals(&doc("2.5")));
    assert!(doc("0.0").equals(&doc("-0.0")));
    assert!(!doc("1").equals(&doc("1.0")));
    assert!(!doc("1.0").equals(&doc("1")));
    assert!(doc("18446744073709551615").equals(&doc("18446744073709551615")));
}

#[test]
fn compare_orders_integers_by_value() {
    assert_eq!(compare_json(&doc("1"), &doc("2")), Some(-1));
    assert_eq!(compare_json(&doc("2"), &doc("2")), Some(0));
    assert_eq!(compare_json(&doc("3"), &doc("2")), Some(1));
    assert_eq!(compare_json(&doc("-5"), &doc("2")), Some(-1));
    assert_eq!(compare_json(&doc("18446744073709551615"), &doc("1")), Some(1));
    assert_eq!(compare_json(&doc("-9223372036854775808"), &doc("18446744073709551615")), Some(-1));
}

#[test]
fn compare_orders_floats_as_doubles() {
    assert_eq!(compare_json(&doc("1.5"), &doc("2.5")), Some(-1));
    assert_eq!(compare_json(&doc("2.5"), &doc("2.5")), Some(0));
    assert_eq!(compare_json(&doc("2.5"), &doc("1.5")), Some(1));
    assert_eq!(compare_json(&doc("1"), &doc("1.5")), Some(-1));
    assert_eq!(compare_json(&doc("2"), &doc("1.5")), Some(1));
    assert_eq!(compare_json(&doc("1.0"), &doc("1")), Some(0));
    assert_eq!(compare_json(&doc("-1e300"), &doc("0")), Some(-1));
}

#[test]
fn compare_orders_strings_by_characters() {
    assert_eq!(compare_json(&doc(r#""a""#), &doc(r#""b""#)), Some(-1));
    assert_eq!(compare_json(&doc(r#""b""#), &doc(r#""a""#)), Some(1));
    assert_eq!(compare_json(&doc(r#""abc""#), &doc(r#""abc""#)), Some(0));
    assert_eq!(compare_json(&doc(r#""ab""#), &doc(r#""abc""#)), Some(-1));
    assert_eq!(compare_json(&doc(r#""abc""#), &doc(r#""ab""#)), Some(1));
    assert_eq!(compare_json(&doc(r#""""#), &doc(r#""""#)), Some(0));
    assert_eq!(compare_json(&doc(r#""Z""#), &doc(r#""a""#)), Some(-1));
    assert_eq!(compare_json(&doc(r#""é""#), &doc(r#""z""#)), Some(1));
}

#[test]
fn compare_orders_strings_as_the_standard_library_does() {
    let words = ["", "a", "ab", "b", "Z", "é", "日本", "z", "\u{10000}", "\u{ffff}"];
    for x in words {
        for y in words {
            let want = match x.cmp(y) {
                Ordering::Less => -1,
                Ordering::Equal => 0,
                Ordering::Greater => 1,
            };
            let got = compare_json(&JsonValue::String(x.to_string()), &JsonValue::String(y.to_string()));
            assert_eq!(got, Some(want), "{x:?} against {y:?}");
        }
    }
}

#[test]
fn compare_knows_no_order_between_kinds() {
    assert_eq!(compare_json(&doc("1"), &doc(r#""1""#)), None);
    assert_eq!(compare_json(&doc("true"), &doc("false")), None);
    assert_eq!(compare_json(&doc("null"), &doc("null")), None);
    assert_eq!(compare_json(&doc("[1]"), &doc("[2]")), None);
    assert_eq!(compare_json(&doc("{}"), &doc("{}")), None);
}

#[test]
fn eq_and_ne_go_by_deep_equality() {
    assert!(holds(Some("3"), "$eq", "3"));
    assert!(!holds(Some("3"), "$eq", "4"));
    assert!(holds(Some("3"), "$ne", "4"));
    assert!(!holds(Some("3"), "$ne", "3"));
    assert!(holds(Some(r#"{"a":[1]}"#), "$eq", r#"{"a":[1]}"#));
}

#[test]
fn ordered_operators_need_comparable_values() {
    assert!(holds(Some("30"), "$gt", "25"));
    assert!(!holds(Some("25"), "$gt", "25"));
    assert!(holds(Some("25"), "$gte", "25"));
    assert!(!holds(Some("24"), "$gte", "25"));
    assert!(holds(Some("20"), "$lt", "25"));
    assert!(!holds(Some("25"), "$lt", "25"));
    assert!(holds(Some("25"), "$lte", "25"));
    assert!(!holds(Some("26"), "$lte", "25"));
    assert!(holds(Some(r#""b""#), "$gt", r#""a""#));
    assert!(!holds(Some(r#""b""#), "$gt", "1"));
    assert!(!holds(Some("true"), "$gte", "true"));
    assert!(!holds(Some("null"), "$lte", "null"));
}

#[test]
fn in_and_nin_ask_for_an_array() {
    assert!(holds(Some("2"), "$in", "[1,2,3]"));
    assert!(!holds(Some("4"), "$in", "[1,2,3]"));
    assert!(holds(Some("4"), "$nin", "[1,2,3]"));
    assert!(!holds(Some("2"), "$nin", "[1,2,3]"));
    assert!(!holds(Some("2"), "$in", "2"));
    assert!(!holds(Some("2"), "$nin", "3"));
    assert!(!holds(Some("2"), "$in", "[]"));
    assert!(holds(Some("2"), "$nin", "[]"));
}

#[test]
fn exists_goes_by_its_target() {
    assert!(holds(Some("1"), "$exists", "true"));
    assert!(!holds(Some("1"), "$exists", "false"));
    assert!(!holds(Some("1"), "$exists", "1"));
    assert!(holds(Some("null"), "$exists", "true"));
}

#[test]
fn a_missing_field_matches_only_exists_false() {
    assert!(holds(None, "$exists", "false"));
    assert!(!holds(None, "$exists", "true"));
    assert!(!holds(None, "$exists", "0"));
    assert!(!holds(None, "$ne", "1"));
    assert!(!holds(None, "$nin", "[1]"));
    assert!(!holds(None, "$eq", "null"));
    assert!(!holds(None, "$gt", "1"));
    assert!(!holds(None, "$lt", "1"));
    assert!(!holds(None, "$in", "[null]"));
}

#[test]
fn unknown_operators_hold_of_nothing() {
    assert!(!holds(Some("1"), "$regex", "1"));
    assert!(!holds(Some("1"), "eq", "1"));
    assert!(!holds(Some("1"), "", "1"));
    assert!(!holds(Some("1"), "$EQ", "1"));
    assert!(!holds(None, "$regex", "false"));
}

#[test]
fn plain_conditions_ask_for_equality() {
    assert!(check_condition(Some(&doc("1")), &doc("1")));
    assert!(!check_condition(Some(&doc("1")), &doc("2")));
    assert!(check_condition(Some(&doc(r#"{"a":1}"#)), &doc(r#"{"a":1}"#)));
    assert!(!check_condition(Some(&doc(r#"{"a":1}"#)), &doc(r#"{"a":2}"#)));
    assert!(check_condition(Some(&doc("{}")), &doc("{}")));
    assert!(check_condition(Some(&doc("[1,2]")), &doc("[1,2]")));
}

#[test]
fn a_missing_field_equals_only_null() {
    assert!(check_condition(None, &doc("null")));
    assert!(!check_condition(None, &doc("1")));
    assert!(!check_condition(None, &doc("false")));
    assert!(!check_condition(None, &doc(r#"{"a":1}"#)));
    assert!(!check_condition(None, &doc("{}")));
}

#[test]
fn operator_bags_ask_for_all_their_operators() {
    assert!(check_condition(Some(&doc("30")), &doc(r#"{"$gte":25,"$lt":40}"#)));
    assert!(!check_condition(Some(&doc("40")), &doc(r#"{"$gte":25,"$lt":40}"#)));
    assert!(!check_condition(Some(&doc("30")), &doc(r#"{"$gte":25,"other":1}"#)));
    assert!(check_condition(None, &doc(r#"{"$exists":false}"#)));
    assert!(!check_condition(None, &doc(r#"{"$exists":false,"$ne":1}"#)));
}

#[test]
fn queries_match_on_every_field() {
    let item = doc(r#"{"n":"a","age":30,"tags":["x","y"],"address":{"city":"Rome"}}"#);
    assert!(matches_query(&item, &doc("{}")));
    assert!(matches_query(&item, &doc(r#"{"n":"a"}"#)));
    assert!(matches_query(&item, &doc(r#"{"n":"a","age":{"$gte":25}}"#)));
    assert!(!matches_query(&item, &doc(r#"{"n":"a","age":{"$gte":35}}"#)));
    assert!(matches_query(&item, &doc(r#"{"address.city":"Rome"}"#)));
    assert!(matches_query(&item, &doc(r#"{"tags.1":"y"}"#)));
    assert!(matches_query(&item, &doc(r#"{"missing":null}"#)));
    assert!(matches_query(&item, &doc(r#"{"missing":{"$exists":false}}"#)));
    assert!(!matches_query(&item, &doc(r#"{"missing":{"$ne":1}}"#)));
}

#[test]
fn only_objects_are_queries() {
    let item = doc(r#"{"a":1}"#);
    assert!(!matches_query(&item, &doc("null")));
    assert!(!matches_query(&item, &doc("[]")));
    assert!(!matches_query(&item, &doc("1")));
    assert!(!matches_query(&item, &doc(r#""a""#)));
}

#[test]
fn integers_beside_the_range_compare_by_value() {
    let big = JsonValue::Number(JsonNumber::Integer(u64::MAX as i128));
    let small = JsonValue::Number(JsonNumber::Integer(i64::MIN as i128));
    assert_eq!(compare_json(&big, &small), Some(1));
    assert_eq!(compare_json(&small, &big), Some(-1));
    assert_eq!(compare_json(&big, &big), Some(0));
}
