//! Collection lookups: filter, sort, skip, limit and projection, in that
//! order.

use crate::json::{
    entries_model, items_model, lemma_model_array, lemma_model_object, model, Json, JsonNumber,
    JsonValue,
};
use crate::path::{
    get_path, get_value_by_path, segments_model, set_path, set_value_by_path,
};
use crate::query::{compare_json, compare_order, matches_query, query_matches};
use std::cmp::Ordering;
use vstd::prelude::*;

verus! {

/// What a lookup may ask for besides the query.
pub struct QueryOptions {
    /// The most items to return; `None` for all.
    pub limit: Option<u32>,
    /// How many items to drop from the head; `None` for none.
    pub skip: Option<u32>,
    /// An object from field paths to `1` (ascending) or `-1` (descending).
    pub sort: Option<JsonValue>,
    /// The field paths to keep of each item; `None` or empty for the items
    /// as they are.
    pub select: Option<Vec<String>>,
}

/// The mathematical content of the options of a lookup.
pub struct QueryPlan {
    pub limit: Option<nat>,
    pub skip: nat,
    pub sort: Option<Json>,
    pub select: Option<Seq<Seq<char>>>,
}

impl View for QueryOptions {
    type V = QueryPlan;

    open spec fn view(&self) -> QueryPlan {
        QueryPlan {
            limit: match self.limit {
                Some(l) => Some(l as nat),
                None => None,
            },
            skip: match self.skip {
                Some(s) => s as nat,
                None => 0,
            },
            sort: match self.sort {
                Some(s) => Some(s@),
                None => None,
            },
            select: match self.select {
                Some(f) => Some(segments_model(f@)),
                None => None,
            },
        }
    }
}

/// The plan of a lookup without options: everything, unsorted, as it is.
pub open spec fn default_plan() -> QueryPlan {
    QueryPlan { limit: None, skip: 0, sort: None, select: None }
}

/// The plan of a lookup with the options, or without any.
pub open spec fn plan_of(options: Option<QueryOptions>) -> QueryPlan {
    match options {
        Some(o) => o@,
        None => default_plan(),
    }
}

/// The ascending order of two documents by one field: by the values of the
/// field where both have it and the values are comparable, equal where they
/// are not comparable or where both lack the field, and a document that has
/// the field before one that lacks it.
pub open spec fn key_order(a: Json, b: Json, key: Seq<char>) -> int {
    match (get_path(a, key), get_path(b, key)) {
        (Some(x), Some(y)) => match compare_order(x, y) {
            Some(c) => c,
            None => 0,
        },
        (Some(_), None) => -1,
        (None, Some(_)) => 1,
        (None, None) => 0,
    }
}

/// A sort direction is descending where it is a negative integer, and
/// ascending otherwise.
pub open spec fn is_descending(direction: Json) -> bool {
    match direction {
        Json::Number(JsonNumber::Integer(i)) => i < 0,
        _ => false,
    }
}

/// The order of two documents by the sort keys, the first key that tells
/// them apart deciding.
pub open spec fn keys_order(a: Json, b: Json, keys: Seq<(Seq<char>, Json)>) -> int
    decreases keys.len(),
{
    if keys.len() == 0 {
        0
    } else {
        let c = key_order(a, b, keys[0].0);
        if c != 0 {
            if is_descending(keys[0].1) {
                -c
            } else {
                c
            }
        } else {
            keys_order(a, b, keys.drop_first())
        }
    }
}

/// The order of two documents under the sort options: `-1`, `0` or `1`.
/// Options that are no object order nothing.
pub open spec fn sort_order(a: Json, b: Json, sort_opts: Json) -> int {
    match sort_opts {
        Json::Object(keys) => keys_order(a, b, keys),
        _ => 0,
    }
}

/// The number that stands for an ordering: `-1`, `0` or `1`.
pub open spec fn ordering_number(o: Ordering) -> int {
    match o {
        Ordering::Less => -1,
        Ordering::Equal => 0,
        Ordering::Greater => 1,
    }
}

fn key_rank(a: &JsonValue, b: &JsonValue, key: &str) -> (r: i32)
    ensures
        r == key_order(a@, b@, key@),
        -1 <= r <= 1,
{
    let x = get_value_by_path(a, key);
    let y = get_value_by_path(b, key);
    match (x, y) {
        (Some(va), Some(vb)) => match compare_json(va, vb) {
            Some(c) => c,
            None => 0,
        },
        (Some(_), None) => -1,
        (None, Some(_)) => 1,
        (None, None) => 0,
    }
}

fn descending(direction: &JsonValue) -> (r: bool)
    ensures
        r == is_descending(direction@),
{
    match direction {
        JsonValue::Number(JsonNumber::Integer(i)) => *i < 0,
        _ => false,
    }
}

fn sort_rank(a: &JsonValue, b: &JsonValue, sort_opts: &JsonValue) -> (r: i32)
    ensures
        r == sort_order(a@, b@, sort_opts@),
        -1 <= r <= 1,
{
    match sort_opts {
        JsonValue::Object(keys) => {
            proof {
                lemma_model_object(*keys);
            }
            let ghost k = entries_model(keys@);
            let mut i: usize = 0;
            assert(k.skip(0) =~= k);
            while i < keys.len()
                invariant
                    i <= keys.len(),
                    k == entries_model(keys@),
                    sort_opts@ == Json::Object(k),
                    keys_order(a@, b@, k) == keys_order(a@, b@, k.skip(i as int)),
                decreases keys.len() - i,
            {
                proof {
                    assert(k.skip(i as int)[0] == k[i as int]);
                    assert(k.skip(i as int).drop_first() =~= k.skip(i + 1));
                }
                let c = key_rank(a, b, keys[i].0.as_str());
                if c != 0 {
                    return if descending(&keys[i].1) {
                        -c
                    } else {
                        c
                    };
                }
                i += 1;
            }
            0
        },
        _ => 0,
    }
}

/// The order of two documents under the sort options.
pub fn sort_json(a: &JsonValue, b: &JsonValue, sort_opts: &JsonValue) -> (r: Ordering)
    ensures
        ordering_number(r) == sort_order(a@, b@, sort_opts@),
{
    let c = sort_rank(a, b, sort_opts);
    if c < 0 {
        Ordering::Less
    } else if c == 0 {
        Ordering::Equal
    } else {
        Ordering::Greater
    }
}

/// `sorted` with `x` put in behind the last item that is not greater than
/// it.
pub open spec fn insert_sorted(sorted: Seq<Json>, x: Json, sort_opts: Json) -> Seq<Json>
    decreases sorted.len(),
{
    if sorted.len() > 0 && sort_order(sorted.last(), x, sort_opts) > 0 {
        insert_sorted(sorted.drop_last(), x, sort_opts).push(sorted.last())
    } else {
        sorted.push(x)
    }
}

/// The items in the order of the sort options. Each item in turn is put in
/// behind the last of the items before it that is not greater, so that items
/// that the options do not tell apart keep the order they came in.
pub open spec fn sort_items(items: Seq<Json>, sort_opts: Json) -> Seq<Json>
    decreases items.len(),
{
    if items.len() == 0 {
        items
    } else {
        insert_sorted(sort_items(items.drop_last(), sort_opts), items.last(), sort_opts)
    }
}

proof fn lemma_insert_position(sorted: Seq<Json>, x: Json, sort_opts: Json, p: int)
    requires
        0 <= p <= sorted.len(),
        forall|j: int| p <= j < sorted.len() ==> sort_order(#[trigger] sorted[j], x, sort_opts) > 0,
        p == 0 || sort_order(sorted[p - 1], x, sort_opts) <= 0,
    ensures
        insert_sorted(sorted, x, sort_opts) == sorted.insert(p, x),
    decreases sorted.len(),
{
    if sorted.len() > 0 && sort_order(sorted.last(), x, sort_opts) > 0 {
        assert(p < sorted.len());
        let shorter = sorted.drop_last();
        assert forall|j: int| p <= j < shorter.len() implies sort_order(
            #[trigger] shorter[j],
            x,
            sort_opts,
        ) > 0 by {
            assert(shorter[j] == sorted[j]);
        }
        lemma_insert_position(shorter, x, sort_opts, p);
        assert(shorter.insert(p, x).push(sorted.last()) =~= sorted.insert(p, x));
    } else {
        if p < sorted.len() {
            assert(sort_order(sorted[sorted.len() - 1], x, sort_opts) > 0);
        }
        assert(sorted.push(x) =~= sorted.insert(p, x));
    }
}

/// The models of a list of borrowed documents.
pub open spec fn refs_model(v: Seq<&JsonValue>) -> Seq<Json> {
    Seq::new(v.len(), |i: int| model(*v[i]))
}

fn sort_refs<'a>(items: Vec<&'a JsonValue>, sort_opts: &JsonValue) -> (r: Vec<&'a JsonValue>)
    ensures
        refs_model(r@) == sort_items(refs_model(items@), sort_opts@),
{
    let ghost all = refs_model(items@);
    let mut out: Vec<&'a JsonValue> = Vec::new();
    let mut i: usize = 0;
    assert(all.take(0) =~= Seq::<Json>::empty());
    assert(refs_model(out@) =~= Seq::<Json>::empty());
    while i < items.len()
        invariant
            i <= items.len(),
            all == refs_model(items@),
            refs_model(out@) == sort_items(all.take(i as int), sort_opts@),
            out.len() == i,
        decreases items.len() - i,
    {
        let x = items[i];
        let ghost sorted = refs_model(out@);
        let mut p: usize = out.len();
        while p > 0 && sort_rank(out[p - 1], x, sort_opts) > 0
            invariant
                p <= out.len(),
                sorted == refs_model(out@),
                forall|j: int|
                    p <= j < sorted.len() ==> sort_order(#[trigger] sorted[j], x@, sort_opts@) > 0,
            decreases p,
        {
            assert(sorted[p - 1] == out[p - 1]@);
            p -= 1;
        }
        proof {
            if p > 0 {
                assert(sorted[p - 1] == out[p - 1]@);
            }
            lemma_insert_position(sorted, x@, sort_opts@, p as int);
            assert(all.take(i + 1).drop_last() =~= all.take(i as int));
            assert(all.take(i + 1).last() == x@);
        }
        out.insert(p, x);
        proof {
            assert(refs_model(out@) =~= sorted.insert(p as int, x@));
        }
        i += 1;
    }
    assert(all.take(items.len() as int) =~= all);
    out
}

/// The items of a collection: those of an array, the values of an object in
/// the order of its entries, and none of anything else.
pub open spec fn collection_items(collection: Option<Json>) -> Seq<Json> {
    match collection {
        Some(Json::Array(a)) => a,
        Some(Json::Object(e)) => Seq::new(e.len(), |i: int| e[i].1),
        _ => Seq::empty(),
    }
}

/// The items that match the query, in the order they came in.
pub open spec fn filter_matching(items: Seq<Json>, query: Json) -> Seq<Json>
    decreases items.len(),
{
    if items.len() == 0 {
        items
    } else {
        let before = filter_matching(items.drop_last(), query);
        if query_matches(items.last(), query) {
            before.push(items.last())
        } else {
            before
        }
    }
}

/// The items that are left when `skip` items are dropped from the head and
/// at most `limit` of the rest are kept.
pub open spec fn page(items: Seq<Json>, skip: nat, limit: Option<nat>) -> Seq<Json> {
    let rest = if skip >= items.len() {
        Seq::empty()
    } else {
        items.skip(skip as int)
    };
    match limit {
        Some(l) => if l >= rest.len() {
            rest
        } else {
            rest.take(l as int)
        },
        None => rest,
    }
}

/// The object that holds, of the item, the listed fields and nothing else.
/// Each field that the item has is written into the object at its own path,
/// one after the other; a field that the item lacks leaves no trace.
pub open spec fn project(item: Json, fields: Seq<Seq<char>>) -> Json
    decreases fields.len(),
{
    if fields.len() == 0 {
        Json::Object(Seq::empty())
    } else {
        let before = project(item, fields.drop_last());
        match get_path(item, fields.last()) {
            Some(v) => set_path(before, fields.last(), v),
            None => before,
        }
    }
}

/// The item as a lookup returns it: projected onto the selected fields, or
/// as it is where none are selected.
pub open spec fn select_item(item: Json, select: Option<Seq<Seq<char>>>) -> Json {
    match select {
        Some(fields) => if fields.len() == 0 {
            item
        } else {
            project(item, fields)
        },
        None => item,
    }
}

/// The items after filtering and sorting, before paging and projection.
pub open spec fn matching_sorted(collection: Option<Json>, query: Json, plan: QueryPlan) -> Seq<
    Json,
> {
    let matching = filter_matching(collection_items(collection), query);
    match plan.sort {
        Some(s) => sort_items(matching, s),
        None => matching,
    }
}

/// What a lookup returns: the items of the collection that match the query,
/// sorted, then paged, then projected.
pub open spec fn find_result(collection: Option<Json>, query: Json, plan: QueryPlan) -> Seq<
    Json,
> {
    let paged = page(matching_sorted(collection, query, plan), plan.skip, plan.limit);
    Seq::new(paged.len(), |i: int| select_item(paged[i], plan.select))
}

/// The first item of the collection that matches the query.
pub open spec fn first_match(items: Seq<Json>, query: Json) -> Option<Json>
    decreases items.len(),
{
    if items.len() == 0 {
        None
    } else if query_matches(items[0], query) {
        Some(items[0])
    } else {
        first_match(items.drop_first(), query)
    }
}

fn collect_items<'a>(collection: Option<&'a JsonValue>) -> (r: Vec<&'a JsonValue>)
    ensures
        refs_model(r@) == collection_items(
            match collection {
                Some(c) => Some(c@),
                None => None,
            },
        ),
{
    let mut out: Vec<&'a JsonValue> = Vec::new();
    match collection {
        Some(JsonValue::Array(items)) => {
            proof {
                lemma_model_array(*items);
            }
            let mut i: usize = 0;
            while i < items.len()
                invariant
                    i <= items.len(),
                    out.len() == i,
                    forall|j: int| 0 <= j < i ==> model(*out@[j]) == model(items@[j]),
                decreases items.len() - i,
            {
                out.push(&items[i]);
                i += 1;
            }
            assert(refs_model(out@) =~= items_model(items@));
        },
        Some(JsonValue::Object(entries)) => {
            proof {
                lemma_model_object(*entries);
            }
            let mut i: usize = 0;
            while i < entries.len()
                invariant
                    i <= entries.len(),
                    out.len() == i,
                    forall|j: int| 0 <= j < i ==> model(*out@[j]) == model(entries@[j].1),
                decreases entries.len() - i,
            {
                out.push(&entries[i].1);
                i += 1;
            }
            assert(refs_model(out@) =~= Seq::new(
                entries_model(entries@).len(),
                |i: int| entries_model(entries@)[i].1,
            ));
        },
        _ => {
            assert(refs_model(out@) =~= Seq::<Json>::empty());
        },
    }
    out
}

fn filter_refs<'a>(items: Vec<&'a JsonValue>, query: &JsonValue) -> (r: Vec<&'a JsonValue>)
    ensures
        refs_model(r@) == filter_matching(refs_model(items@), query@),
{
    let ghost all = refs_model(items@);
    let mut out: Vec<&'a JsonValue> = Vec::new();
    let mut i: usize = 0;
    assert(all.take(0) =~= Seq::<Json>::empty());
    assert(refs_model(out@) =~= Seq::<Json>::empty());
    while i < items.len()
        invariant
            i <= items.len(),
            all == refs_model(items@),
            refs_model(out@) == filter_matching(all.take(i as int), query@),
        decreases items.len() - i,
    {
        let x = items[i];
        let ghost before = refs_model(out@);
        proof {
            assert(all.take(i + 1).drop_last() =~= all.take(i as int));
            assert(all.take(i + 1).last() == x@);
        }
        if matches_query(x, query) {
            out.push(x);
            proof {
                assert(refs_model(out@) =~= before.push(x@));
            }
        }
        i += 1;
    }
    assert(all.take(items.len() as int) =~= all);
    out
}

fn project_item(item: &JsonValue, fields: &Vec<String>) -> (r: JsonValue)
    ensures
        r@ == project(item@, segments_model(fields@)),
{
    let ghost f = segments_model(fields@);
    let mut acc = JsonValue::empty_object();
    let mut i: usize = 0;
    assert(f.take(0) =~= Seq::<Seq<char>>::empty());
    while i < fields.len()
        invariant
            i <= fields.len(),
            f == segments_model(fields@),
            acc@ == project(item@, f.take(i as int)),
        decreases fields.len() - i,
    {
        proof {
            assert(f.take(i + 1).drop_last() =~= f.take(i as int));
            assert(f.take(i + 1).last() == fields@[i as int]@);
        }
        match get_value_by_path(item, fields[i].as_str()) {
            Some(v) => {
                set_value_by_path(&mut acc, fields[i].as_str(), v.clone());
            },
            None => {},
        }
        i += 1;
    }
    assert(f.take(fields.len() as int) =~= f);
    acc
}

fn select_from(item: &JsonValue, select: &Option<Vec<String>>) -> (r: JsonValue)
    ensures
        r@ == select_item(
            item@,
            match select {
                Some(f) => Some(segments_model(f@)),
                None => None,
            },
        ),
{
    match select {
        Some(fields) => {
            if fields.len() == 0 {
                item.clone()
            } else {
                project_item(item, fields)
            }
        },
        None => item.clone(),
    }
}

/// The lookup in a collection: the items that match the query are sorted as
/// the options say, then `skip` of them are dropped, then at most `limit`
/// are kept, and each of those is projected onto the selected fields.
pub fn find_items(
    collection: Option<&JsonValue>,
    query: &JsonValue,
    options: &Option<QueryOptions>,
) -> (r: Vec<JsonValue>)
    ensures
        items_model(r@) == find_result(
            match collection {
                Some(c) => Some(c@),
                None => None,
            },
            query@,
            plan_of(*options),
        ),
{
    let ghost plan = plan_of(*options);
    let ghost coll = match collection {
        Some(c) => Some(c@),
        None => None,
    };
    let matching = filter_refs(collect_items(collection), query);
    let sorted = match options {
        Some(o) => match &o.sort {
            Some(s) => sort_refs(matching, s),
            None => matching,
        },
        None => matching,
    };
    assert(refs_model(sorted@) == matching_sorted(coll, query@, plan));
    let skip: usize = match options {
        Some(o) => match o.skip {
            Some(s) => s as usize,
            None => 0,
        },
        None => 0,
    };
    let start: usize = if skip >= sorted.len() {
        sorted.len()
    } else {
        skip
    };
    let rest: usize = sorted.len() - start;
    let count: usize = match options {
        Some(o) => match o.limit {
            Some(l) => if l as usize >= rest {
                rest
            } else {
                l as usize
            },
            None => rest,
        },
        None => rest,
    };
    let ghost paged = page(refs_model(sorted@), plan.skip, plan.limit);
    proof {
        assert(paged =~= refs_model(sorted@).subrange(start as int, start + count));
    }
    let no_select: Option<Vec<String>> = None;
    let mut out: Vec<JsonValue> = Vec::new();
    let mut i: usize = 0;
    while i < count
        invariant
            i <= count,
            start + count <= sorted.len(),
            out.len() == i,
            plan == plan_of(*options),
            no_select is None,
            paged == refs_model(sorted@).subrange(start as int, start + count),
            forall|j: int| 0 <= j < i ==> model(out@[j]) == select_item(paged[j], plan.select),
        decreases count - i,
    {
        let item = sorted[start + i];
        assert(paged[i as int] == item@);
        let select = match options {
            Some(o) => &o.select,
            None => &no_select,
        };
        out.push(select_from(item, select));
        i += 1;
    }
    assert(items_model(out@) =~= find_result(coll, query@, plan));
    out
}

/// The first item of the collection that matches the query, if any.
pub fn find_first(collection: Option<&JsonValue>, query: &JsonValue) -> (r: Option<JsonValue>)
    ensures
        match r {
            Some(v) => Some(v@),
            None => None,
        } == first_match(
            collection_items(
                match collection {
                    Some(c) => Some(c@),
                    None => None,
                },
            ),
            query@,
        ),
{
    let items = collect_items(collection);
    let ghost all = refs_model(items@);
    let mut i: usize = 0;
    assert(all.skip(0) =~= all);
    while i < items.len()
        invariant
            i <= items.len(),
            all == refs_model(items@),
            all == collection_items(
                match collection {
                    Some(c) => Some(c@),
                    None => None,
                },
            ),
            first_match(all, query@) == first_match(all.skip(i as int), query@),
        decreases items.len() - i,
    {
        proof {
            assert(all.skip(i as int)[0] == items@[i as int]@);
            assert(all.skip(i as int).drop_first() =~= all.skip(i + 1));
        }
        if matches_query(items[i], query) {
            return Some(items[i].clone());
        }
        i += 1;
    }
    None
}

} // verus!
