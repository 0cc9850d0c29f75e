//! The query dialect: ordered comparison of values, the operators of a
//! condition, and whether a document matches a query.

use crate::json::{
    compare_as_doubles, double_order, entries_model, items_model, json_eq, lemma_model_array,
    lemma_model_object, text_equals, Json, JsonNumber, JsonValue,
};
use crate::path::{get_path, get_value_by_path};
use std::cmp::Ordering;
use vstd::prelude::*;
use vstd::string::*;

verus! {

/// The number that stands for an ordering: `-1` for less, `0` for equal, `1`
/// for greater.
pub fn ord_to_int(o: Ordering) -> (r: i32)
    ensures
        r == match o {
            Ordering::Less => -1i32,
            Ordering::Equal => 0i32,
            Ordering::Greater => 1i32,
        },
{
    match o {
        Ordering::Less => -1,
        Ordering::Equal => 0,
        Ordering::Greater => 1,
    }
}

/// The order of two strings, character by character: `-1`, `0` or `1`. A
/// string comes before every string that it is a proper beginning of.
pub open spec fn lex_order(a: Seq<char>, b: Seq<char>) -> int
    decreases a.len(),
{
    if a.len() == 0 {
        if b.len() == 0 {
            0
        } else {
            -1
        }
    } else if b.len() == 0 {
        1
    } else if a[0] < b[0] {
        -1
    } else if a[0] > b[0] {
        1
    } else {
        lex_order(a.drop_first(), b.drop_first())
    }
}

/// The order of two numbers: two integers by their values, any other pair as
/// doubles.
pub open spec fn number_order(a: JsonNumber, b: JsonNumber) -> int {
    match (a, b) {
        (JsonNumber::Integer(x), JsonNumber::Integer(y)) => if x < y {
            -1
        } else if x == y {
            0
        } else {
            1
        },
        _ => double_order(a, b),
    }
}

/// The order of two values, where they are comparable: two numbers, or two
/// strings. Any other pair is not comparable.
pub open spec fn compare_order(a: Json, b: Json) -> Option<int> {
    match (a, b) {
        (Json::Number(x), Json::Number(y)) => Some(number_order(x, y)),
        (Json::String(x), Json::String(y)) => Some(lex_order(x, y)),
        _ => None,
    }
}

fn compare_strings(a: &str, b: &str) -> (r: i32)
    ensures
        r == lex_order(a@, b@),
        -1 <= r <= 1,
{
    let n = a.unicode_len();
    let m = b.unicode_len();
    let mut i: usize = 0;
    assert(a@.skip(0) =~= a@ && b@.skip(0) =~= b@);
    while i < n && i < m
        invariant
            i <= n,
            i <= m,
            n == a@.len(),
            m == b@.len(),
            lex_order(a@, b@) == lex_order(a@.skip(i as int), b@.skip(i as int)),
        decreases n - i,
    {
        let x = a.get_char(i);
        let y = b.get_char(i);
        proof {
            assert(a@.skip(i as int)[0] == x);
            assert(b@.skip(i as int)[0] == y);
            assert(a@.skip(i as int).drop_first() =~= a@.skip(i + 1));
            assert(b@.skip(i as int).drop_first() =~= b@.skip(i + 1));
        }
        if x < y {
            return -1;
        }
        if x > y {
            return 1;
        }
        i += 1;
    }
    if i < m {
        -1
    } else if i < n {
        1
    } else {
        0
    }
}

fn compare_numbers(a: &JsonNumber, b: &JsonNumber) -> (r: i32)
    ensures
        r == number_order(*a, *b),
        -1 <= r <= 1,
{
    match (a, b) {
        (JsonNumber::Integer(x), JsonNumber::Integer(y)) => {
            if *x < *y {
                -1
            } else if *x == *y {
                0
            } else {
                1
            }
        },
        _ => compare_as_doubles(a, b),
    }
}

/// Compares two values: `Some` of `-1`, `0` or `1` for two numbers or two
/// strings, `None` for any other pair.
pub fn compare_json(a: &JsonValue, b: &JsonValue) -> (r: Option<i32>)
    ensures
        match r {
            Some(c) => compare_order(a@, b@) == Some(c as int) && -1 <= c <= 1,
            None => compare_order(a@, b@) is None,
        },
{
    match (a, b) {
        (JsonValue::Number(x), JsonValue::Number(y)) => Some(compare_numbers(x, y)),
        (JsonValue::String(x), JsonValue::String(y)) => Some(
            compare_strings(x.as_str(), y.as_str()),
        ),
        _ => None,
    }
}

/// Whether some item of the array equals the value.
pub open spec fn contains_equal(items: Seq<Json>, v: Json) -> bool {
    exists|i: int| 0 <= i < items.len() && json_eq(#[trigger] items[i], v)
}

/// Whether one operator of a condition holds of a field.
///
/// Of a missing field only `$exists` with the target `false` holds. Of a
/// field that is there, `$exists` holds with the target `true`; `$eq` and
/// `$ne` go by deep equality; `$gt`, `$gte`, `$lt` and `$lte` hold where the
/// field and the target are comparable and ordered so; `$in` and `$nin` ask
/// for an array as target and hold where the field equals one of its items,
/// or none. No other operator holds of anything.
pub open spec fn operator_holds(value: Option<Json>, op: Seq<char>, target: Json) -> bool {
    match value {
        None => op == "$exists"@ && target == Json::Bool(false),
        Some(v) => if op == "$eq"@ {
            json_eq(v, target)
        } else if op == "$ne"@ {
            !json_eq(v, target)
        } else if op == "$gt"@ {
            compare_order(v, target) is Some && compare_order(v, target)->0 > 0
        } else if op == "$gte"@ {
            compare_order(v, target) is Some && compare_order(v, target)->0 >= 0
        } else if op == "$lt"@ {
            compare_order(v, target) is Some && compare_order(v, target)->0 < 0
        } else if op == "$lte"@ {
            compare_order(v, target) is Some && compare_order(v, target)->0 <= 0
        } else if op == "$in"@ {
            target is Array && contains_equal(target->Array_0, v)
        } else if op == "$nin"@ {
            target is Array && !contains_equal(target->Array_0, v)
        } else if op == "$exists"@ {
            target == Json::Bool(true)
        } else {
            false
        },
    }
}

fn contains_value(items: &Vec<JsonValue>, v: &JsonValue) -> (r: bool)
    ensures
        r == contains_equal(items_model(items@), v@),
{
    let mut i: usize = 0;
    while i < items.len()
        invariant
            i <= items.len(),
            forall|j: int| 0 <= j < i ==> !json_eq(#[trigger] items_model(items@)[j], v@),
        decreases items.len() - i,
    {
        if items[i].equals(v) {
            assert(json_eq(items_model(items@)[i as int], v@));
            return true;
        }
        i += 1;
    }
    false
}

fn is_bool(v: &JsonValue, b: bool) -> (r: bool)
    ensures
        r == (v@ == Json::Bool(b)),
{
    match v {
        JsonValue::Bool(x) => *x == b,
        _ => false,
    }
}

/// Whether the operator `op` with the target `target` holds of the field
/// `value`; `None` is a missing field.
pub fn match_operator(value: Option<&JsonValue>, op: &str, target: &JsonValue) -> (r: bool)
    ensures
        r == operator_holds(
            match value {
                Some(v) => Some(v@),
                None => None,
            },
            op@,
            target@,
        ),
{
    let v = match value {
        Some(val) => val,
        None => {
            return text_equals(op, "$exists") && is_bool(target, false);
        },
    };
    if text_equals(op, "$eq") {
        v.equals(target)
    } else if text_equals(op, "$ne") {
        !v.equals(target)
    } else if text_equals(op, "$gt") {
        match compare_json(v, target) {
            Some(c) => c > 0,
            None => false,
        }
    } else if text_equals(op, "$gte") {
        match compare_json(v, target) {
            Some(c) => c >= 0,
            None => false,
        }
    } else if text_equals(op, "$lt") {
        match compare_json(v, target) {
            Some(c) => c < 0,
            None => false,
        }
    } else if text_equals(op, "$lte") {
        match compare_json(v, target) {
            Some(c) => c <= 0,
            None => false,
        }
    } else if text_equals(op, "$in") {
        match target {
            JsonValue::Array(items) => {
                proof {
                    lemma_model_array(*items);
                }
                contains_value(items, v)
            },
            _ => false,
        }
    } else if text_equals(op, "$nin") {
        match target {
            JsonValue::Array(items) => {
                proof {
                    lemma_model_array(*items);
                }
                !contains_value(items, v)
            },
            _ => false,
        }
    } else if text_equals(op, "$exists") {
        is_bool(target, true)
    } else {
        false
    }
}

/// Whether a key names an operator: it begins with `$`.
pub open spec fn is_operator_name(key: Seq<char>) -> bool {
    key.len() > 0 && key[0] == '$'
}

/// Whether some key of the object names an operator.
pub open spec fn has_operator(e: Seq<(Seq<char>, Json)>) -> bool {
    exists|i: int| 0 <= i < e.len() && is_operator_name((#[trigger] e[i]).0)
}

/// Whether a condition holds of a field.
///
/// A condition that is an object with at least one key that names an
/// operator is a bag of operators, each of its entries an operator with its
/// target, and all of them must hold. Any other condition asks for deep
/// equality, and a missing field equals only `null`.
pub open spec fn condition_holds(value: Option<Json>, condition: Json) -> bool {
    match condition {
        Json::Object(e) => if has_operator(e) {
            forall|i: int|
                0 <= i < e.len() ==> operator_holds(value, (#[trigger] e[i]).0, e[i].1)
        } else {
            value is Some && json_eq(condition, value->0)
        },
        _ => match value {
            Some(v) => json_eq(v, condition),
            None => condition is Null,
        },
    }
}

fn names_operator(key: &str) -> (r: bool)
    ensures
        r == is_operator_name(key@),
{
    key.unicode_len() > 0 && key.get_char(0) == '$'
}

fn has_operator_key(entries: &Vec<(String, JsonValue)>) -> (r: bool)
    ensures
        r == has_operator(entries_model(entries@)),
{
    let ghost e = entries_model(entries@);
    let mut i: usize = 0;
    while i < entries.len()
        invariant
            i <= entries.len(),
            e == entries_model(entries@),
            forall|j: int| 0 <= j < i ==> !is_operator_name((#[trigger] e[j]).0),
        decreases entries.len() - i,
    {
        if names_operator(entries[i].0.as_str()) {
            assert(is_operator_name(e[i as int].0));
            return true;
        }
        i += 1;
    }
    false
}

/// Whether the condition holds of the field `value`; `None` is a missing
/// field.
pub fn check_condition(value: Option<&JsonValue>, condition: &JsonValue) -> (r: bool)
    ensures
        r == condition_holds(
            match value {
                Some(v) => Some(v@),
                None => None,
            },
            condition@,
        ),
{
    let ghost field = match value {
        Some(v) => Some(v@),
        None => None,
    };
    match condition {
        JsonValue::Object(entries) => {
            proof {
                lemma_model_object(*entries);
            }
            if !has_operator_key(entries) {
                return match value {
                    Some(v) => condition.equals(v),
                    None => false,
                };
            }
            let ghost e = entries_model(entries@);
            let mut i: usize = 0;
            while i < entries.len()
                invariant
                    i <= entries.len(),
                    e == entries_model(entries@),
                    condition@ == Json::Object(e),
                    has_operator(e),
                    field == match value {
                        Some(v) => Some(v@),
                        None => None,
                    },
                    forall|j: int|
                        0 <= j < i ==> operator_holds(field, (#[trigger] e[j]).0, e[j].1),
                decreases entries.len() - i,
            {
                if !match_operator(value, entries[i].0.as_str(), &entries[i].1) {
                    assert(!operator_holds(field, e[i as int].0, e[i as int].1));
                    return false;
                }
                i += 1;
            }
            true
        },
        _ => match value {
            Some(v) => v.equals(condition),
            None => match condition {
                JsonValue::Null => true,
                _ => false,
            },
        },
    }
}

/// Whether a document matches a query. A query is an object; each of its
/// entries names a field of the document by a path and gives the condition
/// that the field must meet, and all of them must hold. Nothing matches a
/// query that is no object.
pub open spec fn query_matches(item: Json, query: Json) -> bool {
    match query {
        Json::Object(q) => forall|i: int|
            0 <= i < q.len() ==> condition_holds(get_path(item, (#[trigger] q[i]).0), q[i].1),
        _ => false,
    }
}

/// Whether the document `item` matches the query.
pub fn matches_query(item: &JsonValue, query: &JsonValue) -> (r: bool)
    ensures
        r == query_matches(item@, query@),
{
    match query {
        JsonValue::Object(entries) => {
            proof {
                lemma_model_object(*entries);
            }
            let ghost q = entries_model(entries@);
            let mut i: usize = 0;
            while i < entries.len()
                invariant
                    i <= entries.len(),
                    q == entries_model(entries@),
                    query@ == Json::Object(q),
                    forall|j: int|
                        0 <= j < i ==> condition_holds(
                            get_path(item@, (#[trigger] q[j]).0),
                            q[j].1,
                        ),
                decreases entries.len() - i,
            {
                let field = get_value_by_path(item, entries[i].0.as_str());
                if !check_condition(field, &entries[i].1) {
                    assert(!condition_holds(get_path(item@, q[i as int].0), q[i as int].1));
                    return false;
                }
                i += 1;
            }
            true
        },
        _ => false,
    }
}

} // verus!
