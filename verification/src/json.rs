//! JSON documents: the executable tree, its mathematical model, and the
//! operations on a single node that the rest of the crate builds on.

use std::cmp::Ordering;
use vstd::prelude::*;
use vstd::string::*;

verus! {


/// `serde_json::Number`, carried through as a whole.
#[verifier::external_type_specification]
#[verifier::external_body]
pub struct ExSerdeNumber(serde_json::Number);

/// Whether a `serde_json::Number` holds a floating-point value (as opposed to
/// an integer).
pub uninterp spec fn is_float_number(n: serde_json::Number) -> bool;

/// The result of comparing two numbers after each has been converted to a
/// double: `-1`, `0` or `1`.
pub uninterp spec fn double_order(a: JsonNumber, b: JsonNumber) -> int;

/// A JSON number. Integers are held as plain values; a floating-point number
/// is carried as the `serde_json::Number` it came from.
#[derive(Debug)]
pub enum JsonNumber {
    Integer(i128),
    Float(serde_json::Number),
}

/// A JSON document as it is held in memory. Objects keep their entries in
/// insertion order.
#[derive(Debug)]
pub enum JsonValue {
    Null,
    Bool(bool),
    Number(JsonNumber),
    String(String),
    Array(Vec<JsonValue>),
    Object(Vec<(String, JsonValue)>),
}

/// The mathematical value of a JSON document.
pub enum Json {
    Null,
    Bool(bool),
    Number(JsonNumber),
    String(Seq<char>),
    Array(Seq<Json>),
    Object(Seq<(Seq<char>, Json)>),
}

impl JsonNumber {
    /// Integers lie between `i64::MIN` and `u64::MAX`; a `Float` holds a
    /// floating-point number.
    pub open spec fn wf(self) -> bool {
        match self {
            JsonNumber::Integer(i) => i64::MIN <= i <= u64::MAX,
            JsonNumber::Float(n) => is_float_number(n),
        }
    }
}

/// Equality of numbers: two integers are equal when their values are, two
/// floating-point numbers when they compare equal as doubles, and an integer
/// never equals a floating-point number.
pub open spec fn number_eq(a: JsonNumber, b: JsonNumber) -> bool {
    match (a, b) {
        (JsonNumber::Integer(x), JsonNumber::Integer(y)) => x == y,
        (JsonNumber::Float(_), JsonNumber::Float(_)) => double_order(a, b) == 0,
        _ => false,
    }
}

/// Deep equality of documents. Arrays are equal item by item. Objects are
/// equal when they have as many entries and each entry of the first has its
/// key in the second with an equal value: the order of the entries does not
/// count.
pub open spec fn json_eq(a: Json, b: Json) -> bool
    decreases a,
{
    match (a, b) {
        (Json::Null, Json::Null) => true,
        (Json::Bool(x), Json::Bool(y)) => x == y,
        (Json::Number(x), Json::Number(y)) => number_eq(x, y),
        (Json::String(x), Json::String(y)) => x == y,
        (Json::Array(x), Json::Array(y)) => x.len() == y.len() && forall|i: int|
            0 <= i < x.len() ==> json_eq(#[trigger] x[i], y[i]),
        (Json::Object(x), Json::Object(y)) => x.len() == y.len() && forall|i: int|
            0 <= i < x.len() ==> key_index(y, (#[trigger] x[i]).0) is Some && json_eq(
                x[i].1,
                y[key_index(y, x[i].0)->0].1,
            ),
        _ => false,
    }
}

/// The mathematical value of a document held in memory.
pub open spec fn model(v: JsonValue) -> Json
    decreases v,
{
    match v {
        JsonValue::Null => Json::Null,
        JsonValue::Bool(b) => Json::Bool(b),
        JsonValue::Number(n) => Json::Number(n),
        JsonValue::String(s) => Json::String(s@),
        JsonValue::Array(a) => Json::Array(
            Seq::new(
                a@.len(),
                |i: int|
                    if 0 <= i < a@.len() {
                        model(a@[i])
                    } else {
                        Json::Null
                    },
            ),
        ),
        JsonValue::Object(o) => Json::Object(
            Seq::new(
                o@.len(),
                |i: int|
                    if 0 <= i < o@.len() {
                        (o@[i].0@, model(o@[i].1))
                    } else {
                        (Seq::empty(), Json::Null)
                    },
            ),
        ),
    }
}

impl View for JsonValue {
    type V = Json;

    open spec fn view(&self) -> Json {
        model(*self)
    }
}

/// The models of the items of an array.
pub open spec fn items_model(a: Seq<JsonValue>) -> Seq<Json> {
    Seq::new(a.len(), |i: int| model(a[i]))
}

/// The models of the entries of an object.
pub open spec fn entries_model(o: Seq<(String, JsonValue)>) -> Seq<(Seq<char>, Json)> {
    Seq::new(o.len(), |i: int| (o[i].0@, model(o[i].1)))
}

/// The model of an array is the array of the models of its items.
pub proof fn lemma_model_array(a: Vec<JsonValue>)
    ensures
        model(JsonValue::Array(a)) == Json::Array(items_model(a@)),
{
    assert(model(JsonValue::Array(a))->Array_0 =~= items_model(a@));
}

/// The model of an object is the object of the models of its entries.
pub proof fn lemma_model_object(o: Vec<(String, JsonValue)>)
    ensures
        model(JsonValue::Object(o)) == Json::Object(entries_model(o@)),
{
    assert(model(JsonValue::Object(o))->Object_0 =~= entries_model(o@));
}

/// No key occurs twice.
pub open spec fn keys_unique(e: Seq<(Seq<char>, Json)>) -> bool {
    forall|i: int, j: int| 0 <= i < j < e.len() ==> e[i].0 != e[j].0
}

/// A document is well formed when every number in it is and no object in it
/// holds a key twice.
pub open spec fn well_formed(j: Json) -> bool
    decreases j,
{
    match j {
        Json::Number(n) => n.wf(),
        Json::Array(a) => forall|i: int| 0 <= i < a.len() ==> well_formed(#[trigger] a[i]),
        Json::Object(e) => keys_unique(e) && forall|i: int|
            0 <= i < e.len() ==> well_formed((#[trigger] e[i]).1),
        _ => true,
    }
}

/// `i` is the first position of `key` among the entries.
pub open spec fn is_first_key(e: Seq<(Seq<char>, Json)>, key: Seq<char>, i: int) -> bool {
    &&& 0 <= i < e.len()
    &&& e[i].0 == key
    &&& forall|j: int| 0 <= j < i ==> (#[trigger] e[j]).0 != key
}

/// The first position at which `key` occurs among the entries, if any.
pub open spec fn key_index(e: Seq<(Seq<char>, Json)>, key: Seq<char>) -> Option<int> {
    if exists|i: int| is_first_key(e, key, i) {
        Some(choose|i: int| is_first_key(e, key, i))
    } else {
        None
    }
}

/// A first position of a key is the position that `key_index` gives.
pub proof fn lemma_key_index_some(e: Seq<(Seq<char>, Json)>, key: Seq<char>, i: int)
    requires
        is_first_key(e, key, i),
    ensures
        key_index(e, key) == Some(i),
{
    let k = choose|k: int| is_first_key(e, key, k);
    if k < i {
        assert(e[k].0 != key);
    } else if i < k {
        assert(e[i].0 != key);
    }
}

/// A key that no entry has is at no position.
pub proof fn lemma_key_index_none(e: Seq<(Seq<char>, Json)>, key: Seq<char>)
    requires
        forall|j: int| 0 <= j < e.len() ==> (#[trigger] e[j]).0 != key,
    ensures
        key_index(e, key) is None,
{
    if exists|i: int| is_first_key(e, key, i) {
        let k = choose|k: int| is_first_key(e, key, k);
        assert(e[k].0 != key);
    }
}

/// What `key_index` returns: `Some` of a first position, or `None` when the
/// key does not occur at all.
pub proof fn lemma_key_index(e: Seq<(Seq<char>, Json)>, key: Seq<char>)
    ensures
        match key_index(e, key) {
            Some(i) => is_first_key(e, key, i),
            None => forall|j: int| 0 <= j < e.len() ==> (#[trigger] e[j]).0 != key,
        },
{
    if key_index(e, key) is None {
        assert forall|j: int| 0 <= j < e.len() implies (#[trigger] e[j]).0 != key by {
            if e[j].0 == key {
                lemma_some_first_key(e, key, j);
            }
        }
    }
}

proof fn lemma_some_first_key(e: Seq<(Seq<char>, Json)>, key: Seq<char>, j: int)
    requires
        0 <= j < e.len(),
        e[j].0 == key,
    ensures
        exists|i: int| is_first_key(e, key, i),
    decreases j,
{
    if exists|k: int| 0 <= k < j && (#[trigger] e[k]).0 == key {
        let k = choose|k: int| 0 <= k < j && (#[trigger] e[k]).0 == key;
        lemma_some_first_key(e, key, k);
    } else {
        assert(is_first_key(e, key, j));
    }
}

/// `serde_json::Number::is_f64`: whether the number is held as a double.
#[verifier::external_body]
fn number_is_float(n: &serde_json::Number) -> (r: bool)
    ensures
        r == is_float_number(*n),
{
    n.is_f64()
}

/// `Clone` of `serde_json::Number`: the copy is the same number.
#[verifier::external_body]
fn clone_number(n: &serde_json::Number) -> (r: serde_json::Number)
    ensures
        r == *n,
{
    n.clone()
}

/// `serde_json::Number::as_f64` on both numbers, an integer being handed
/// over through `serde_json::Number::from_i128`, then `partial_cmp` of the two
/// doubles: the order of the numbers once each is converted to a double. The
/// result depends on the two numbers alone and is `-1`, `0` or `1`.
#[verifier::external_body]
pub(crate) fn compare_as_doubles(a: &JsonNumber, b: &JsonNumber) -> (r: i32)
    ensures
        r == double_order(*a, *b),
        -1 <= r <= 1,
{
    let x = match a {
        JsonNumber::Integer(i) => serde_json::Number::from_i128(*i),
        JsonNumber::Float(n) => Some(n.clone()),
    };
    let y = match b {
        JsonNumber::Integer(i) => serde_json::Number::from_i128(*i),
        JsonNumber::Float(n) => Some(n.clone()),
    };
    match x.and_then(|n| n.as_f64()).partial_cmp(&y.and_then(|n| n.as_f64())) {
        Some(Ordering::Less) => -1,
        Some(Ordering::Greater) => 1,
        _ => 0,
    }
}

impl Clone for JsonNumber {
    fn clone(&self) -> (r: Self)
        ensures
            r == *self,
    {
        match self {
            JsonNumber::Integer(i) => JsonNumber::Integer(*i),
            JsonNumber::Float(n) => JsonNumber::Float(clone_number(n)),
        }
    }
}

impl JsonNumber {
    /// Whether the number is well formed.
    pub fn is_well_formed(&self) -> (r: bool)
        ensures
            r == self.wf(),
    {
        match self {
            JsonNumber::Integer(i) => -9223372036854775808i128 <= *i && *i <= 18446744073709551615i128,
            JsonNumber::Float(n) => number_is_float(n),
        }
    }

    /// Equality of two numbers.
    pub fn equals(&self, other: &JsonNumber) -> (r: bool)
        ensures
            r == number_eq(*self, *other),
    {
        match (self, other) {
            (JsonNumber::Integer(x), JsonNumber::Integer(y)) => *x == *y,
            (JsonNumber::Float(_), JsonNumber::Float(_)) => compare_as_doubles(self, other) == 0,
            _ => false,
        }
    }
}

/// The position of the first entry whose key is `key`.
pub fn find_key(entries: &Vec<(String, JsonValue)>, key: &String) -> (r: Option<usize>)
    ensures
        match r {
            Some(i) => key_index(entries_model(entries@), key@) == Some(i as int),
            None => key_index(entries_model(entries@), key@) is None,
        },
{
    let ghost e = entries_model(entries@);
    let mut i: usize = 0;
    while i < entries.len()
        invariant
            i <= entries.len(),
            e == entries_model(entries@),
            forall|j: int| 0 <= j < i ==> (#[trigger] e[j]).0 != key@,
        decreases entries.len() - i,
    {
        if entries[i].0 == *key {
            proof {
                assert(is_first_key(e, key@, i as int));
                lemma_key_index_some(e, key@, i as int);
            }
            return Some(i);
        }
        i += 1;
    }
    proof {
        lemma_key_index_none(e, key@);
    }
    None
}

impl JsonValue {
    /// The object without entries.
    pub fn empty_object() -> (r: JsonValue)
        ensures
            r@ == Json::Object(Seq::empty()),
    {
        let entries: Vec<(String, JsonValue)> = Vec::new();
        proof {
            lemma_model_object(entries);
            assert(entries_model(entries@) =~= Seq::empty());
        }
        JsonValue::Object(entries)
    }

    /// The array without items.
    pub fn empty_array() -> (r: JsonValue)
        ensures
            r@ == Json::Array(Seq::empty()),
    {
        let items: Vec<JsonValue> = Vec::new();
        proof {
            lemma_model_array(items);
            assert(items_model(items@) =~= Seq::empty());
        }
        JsonValue::Array(items)
    }
}

impl Clone for JsonValue {
    fn clone(&self) -> (r: Self)
        ensures
            r@ == self@,
    {
        self.deep_copy()
    }
}

impl JsonValue {
    /// A copy of the document.
    pub fn deep_copy(&self) -> (r: JsonValue)
        ensures
            r@ == self@,
        decreases self,
    {
        match self {
            JsonValue::Null => JsonValue::Null,
            JsonValue::Bool(b) => JsonValue::Bool(*b),
            JsonValue::Number(n) => JsonValue::Number(n.clone()),
            JsonValue::String(s) => JsonValue::String(s.clone()),
            JsonValue::Array(items) => {
                let mut copy: Vec<JsonValue> = Vec::new();
                let mut i: usize = 0;
                proof {
                    lemma_model_array(*items);
                }
                while i < items.len()
                    invariant
                        i <= items.len(),
                        copy.len() == i,
                        *self == JsonValue::Array(*items),
                        self@ == Json::Array(items_model(items@)),
                        forall|j: int| 0 <= j < i ==> model(copy@[j]) == model(items@[j]),
                    decreases items.len() - i,
                {
                    let item = items[i].deep_copy();
                    copy.push(item);
                    i += 1;
                }
                proof {
                    lemma_model_array(*items);
                    lemma_model_array(copy);
                    assert(items_model(copy@) =~= items_model(items@));
                }
                JsonValue::Array(copy)
            },
            JsonValue::Object(entries) => {
                let mut copy: Vec<(String, JsonValue)> = Vec::new();
                let mut i: usize = 0;
                proof {
                    lemma_model_object(*entries);
                }
                while i < entries.len()
                    invariant
                        i <= entries.len(),
                        copy.len() == i,
                        *self == JsonValue::Object(*entries),
                        self@ == Json::Object(entries_model(entries@)),
                        forall|j: int|
                            0 <= j < i ==> copy@[j].0@ == entries@[j].0@ && model(copy@[j].1)
                                == model(entries@[j].1),
                    decreases entries.len() - i,
                {
                    let key = entries[i].0.clone();
                    let value = entries[i].1.deep_copy();
                    copy.push((key, value));
                    i += 1;
                }
                proof {
                    lemma_model_object(*entries);
                    lemma_model_object(copy);
                    assert(entries_model(copy@) =~= entries_model(entries@));
                }
                JsonValue::Object(copy)
            },
        }
    }

    /// Deep equality.
    pub fn equals(&self, other: &JsonValue) -> (r: bool)
        ensures
            r == json_eq(self@, other@),
        decreases self,
    {
        match (self, other) {
            (JsonValue::Null, JsonValue::Null) => true,
            (JsonValue::Bool(x), JsonValue::Bool(y)) => *x == *y,
            (JsonValue::Number(x), JsonValue::Number(y)) => x.equals(y),
            (JsonValue::String(x), JsonValue::String(y)) => *x == *y,
            (JsonValue::Array(x), JsonValue::Array(y)) => {
                proof {
                    lemma_model_array(*x);
                    lemma_model_array(*y);
                }
                if x.len() != y.len() {
                    return false;
                }
                let mut i: usize = 0;
                while i < x.len()
                    invariant
                        i <= x.len(),
                        x.len() == y.len(),
                        *self == JsonValue::Array(*x),
                        self@ == Json::Array(items_model(x@)),
                        other@ == Json::Array(items_model(y@)),
                        forall|j: int|
                            0 <= j < i ==> json_eq(
                                #[trigger] items_model(x@)[j],
                                items_model(y@)[j],
                            ),
                    decreases x.len() - i,
                {
                    if !x[i].equals(&y[i]) {
                        assert(!json_eq(items_model(x@)[i as int], items_model(y@)[i as int]));
                        return false;
                    }
                    i += 1;
                }
                true
            },
            (JsonValue::Object(x), JsonValue::Object(y)) => {
                proof {
                    lemma_model_object(*x);
                    lemma_model_object(*y);
                }
                if x.len() != y.len() {
                    return false;
                }
                let ghost ex = entries_model(x@);
                let ghost ey = entries_model(y@);
                let mut i: usize = 0;
                while i < x.len()
                    invariant
                        i <= x.len(),
                        x.len() == y.len(),
                        *self == JsonValue::Object(*x),
                        self@ == Json::Object(ex),
                        other@ == Json::Object(ey),
                        ex == entries_model(x@),
                        ey == entries_model(y@),
                        forall|j: int|
                            0 <= j < i ==> key_index(ey, (#[trigger] ex[j]).0) is Some
                                && json_eq(ex[j].1, ey[key_index(ey, ex[j].0)->0].1),
                    decreases x.len() - i,
                {
                    match find_key(y, &x[i].0) {
                        Some(k) => {
                            if !x[i].1.equals(&y[k].1) {
                                assert(!json_eq(
                                    ex[i as int].1,
                                    ey[key_index(ey, ex[i as int].0)->0].1,
                                ));
                                return false;
                            }
                        },
                        None => {
                            assert(key_index(ey, ex[i as int].0) is None);
                            return false;
                        },
                    }
                    i += 1;
                }
                true
            },
            _ => false,
        }
    }

    /// Whether the document is well formed.
    pub fn is_well_formed(&self) -> (r: bool)
        ensures
            r == well_formed(self@),
        decreases self,
    {
        match self {
            JsonValue::Number(n) => n.is_well_formed(),
            JsonValue::Array(items) => {
                proof {
                    lemma_model_array(*items);
                }
                let ghost a = items_model(items@);
                let mut i: usize = 0;
                while i < items.len()
                    invariant
                        i <= items.len(),
                        *self == JsonValue::Array(*items),
                        self@ == Json::Array(a),
                        a == items_model(items@),
                        forall|j: int| 0 <= j < i ==> well_formed(#[trigger] a[j]),
                    decreases items.len() - i,
                {
                    if !items[i].is_well_formed() {
                        assert(self@->Array_0[i as int] == a[i as int]);
                        return false;
                    }
                    i += 1;
                }
                true
            },
            JsonValue::Object(entries) => {
                proof {
                    lemma_model_object(*entries);
                }
                let ghost e = entries_model(entries@);
                let mut i: usize = 0;
                while i < entries.len()
                    invariant
                        i <= entries.len(),
                        *self == JsonValue::Object(*entries),
                        self@ == Json::Object(e),
                        e == entries_model(entries@),
                        forall|j: int| 0 <= j < i ==> well_formed((#[trigger] e[j]).1),
                        forall|j: int, k: int| 0 <= j < k < i ==> e[j].0 != e[k].0,
                    decreases entries.len() - i,
                {
                    if !entries[i].1.is_well_formed() {
                        assert(!well_formed(e[i as int].1));
                        return false;
                    }
                    match find_key(entries, &entries[i].0) {
                        Some(k) => {
                            if k != i {
                                proof {
                                    lemma_key_index(e, e[i as int].0);
                                    assert(e[k as int].0 == e[i as int].0);
                                    assert(k < i);
                                }
                                return false;
                            }
                            proof {
                                lemma_key_index(e, e[i as int].0);
                            }
                        },
                        None => {
                            proof {
                                lemma_key_index(e, e[i as int].0);
                                assert(e[i as int].0 != e[i as int].0);
                            }
                        },
                    }
                    i += 1;
                }
                true
            },
            _ => true,
        }
    }
}

/// Whether two texts are the same.
pub fn text_equals(a: &str, b: &str) -> (r: bool)
    ensures
        r == (a@ == b@),
{
    String::from_str(a) == String::from_str(b)
}

/// The value under a name in an object: that of the first entry with the
/// name. Nothing else has fields.
pub open spec fn object_field(v: Json, name: Seq<char>) -> Option<Json> {
    match v {
        Json::Object(e) => match key_index(e, name) {
            Some(i) => Some(e[i].1),
            None => None,
        },
        _ => None,
    }
}

impl JsonValue {
    /// The value under a name, where this is an object that has the name.
    pub fn field<'a>(&'a self, name: &str) -> (r: Option<&'a JsonValue>)
        ensures
            match r {
                Some(v) => object_field(self@, name@) == Some(v@),
                None => object_field(self@, name@) is None,
            },
    {
        match self {
            JsonValue::Object(entries) => {
                proof {
                    lemma_model_object(*entries);
                }
                match find_key(entries, &String::from_str(name)) {
                    Some(i) => Some(&entries[i].1),
                    None => None,
                }
            },
            _ => None,
        }
    }
}

} // verus!
