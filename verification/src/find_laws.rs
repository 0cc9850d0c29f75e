//! What holds of sorting, for every list of documents and every sort
//! options.

use crate::find::{insert_sorted, sort_items, sort_order};
use crate::json::Json;
use vstd::prelude::*;
use vstd::seq_lib::to_multiset_build;

verus! {

proof fn lemma_insert_sorted_keeps_items(sorted: Seq<Json>, x: Json, sort_opts: Json)
    ensures
        insert_sorted(sorted, x, sort_opts).to_multiset() == sorted.to_multiset().insert(x),
        insert_sorted(sorted, x, sort_opts).len() == sorted.len() + 1,
    decreases sorted.len(),
{
    if sorted.len() > 0 && sort_order(sorted.last(), x, sort_opts) > 0 {
        let shorter = sorted.drop_last();
        lemma_insert_sorted_keeps_items(shorter, x, sort_opts);
        to_multiset_build(insert_sorted(shorter, x, sort_opts), sorted.last());
        to_multiset_build(shorter, sorted.last());
        assert(shorter.push(sorted.last()) =~= sorted);
        assert(shorter.to_multiset().insert(x).insert(sorted.last()) =~= shorter.to_multiset().insert(
            sorted.last(),
        ).insert(x));
    } else {
        to_multiset_build(sorted, x);
    }
}

/// Sorting neither adds nor loses an item: the sorted list holds each item
/// as often as the list that was sorted.
pub proof fn lemma_sort_keeps_items(items: Seq<Json>, sort_opts: Json)
    ensures
        sort_items(items, sort_opts).to_multiset() == items.to_multiset(),
        sort_items(items, sort_opts).len() == items.len(),
    decreases items.len(),
{
    if items.len() > 0 {
        let shorter = items.drop_last();
        lemma_sort_keeps_items(shorter, sort_opts);
        lemma_insert_sorted_keeps_items(sort_items(shorter, sort_opts), items.last(), sort_opts);
        to_multiset_build(shorter, items.last());
        assert(shorter.push(items.last()) =~= items);
    }
}

/// Whether the sort options order the items of a list as an order should:
/// two items turned round have their order turned round, and an item that
/// is not behind a second, which is not behind a third, is not behind the
/// third.
pub open spec fn orders_consistently(items: Seq<Json>, sort_opts: Json) -> bool {
    &&& forall|i: int, j: int|
        0 <= i < items.len() && 0 <= j < items.len() ==> #[trigger] sort_order(
            items[i],
            items[j],
            sort_opts,
        ) == -sort_order(items[j], items[i], sort_opts)
    &&& forall|i: int, j: int, k: int|
        0 <= i < items.len() && 0 <= j < items.len() && 0 <= k < items.len() && #[trigger] sort_order(
            items[i],
            items[j],
            sort_opts,
        ) <= 0 && #[trigger] sort_order(items[j], items[k], sort_opts) <= 0 ==> sort_order(
            items[i],
            items[k],
            sort_opts,
        ) <= 0
}

/// Whether `sorted` is `items` put in order by the sort options, with
/// `places` telling where each item came from: `sorted[k]` is the item that
/// stood at `places[k]`, every item is taken once, no item stands before one
/// that the options put before it, and of two items that the options do not
/// tell apart the one that came first stands first.
pub open spec fn is_stable_order(
    items: Seq<Json>,
    sorted: Seq<Json>,
    places: Seq<int>,
    sort_opts: Json,
) -> bool {
    &&& sorted.len() == items.len()
    &&& places.len() == items.len()
    &&& forall|k: int|
        0 <= k < places.len() ==> 0 <= #[trigger] places[k] < items.len() && sorted[k]
            == items[places[k]]
    &&& forall|j: int, k: int|
        0 <= j < k < places.len() ==> #[trigger] places[j] != #[trigger] places[k]
    &&& forall|j: int, k: int|
        0 <= j < k < sorted.len() ==> in_order(sorted, places, sort_opts, j, k)
}

/// Whether the item at `j` may stand before the item at `k`: it is before
/// it in the order of the options, or the options do not tell the two apart
/// and it came first.
pub open spec fn in_order(
    sorted: Seq<Json>,
    places: Seq<int>,
    sort_opts: Json,
    j: int,
    k: int,
) -> bool {
    let c = sort_order(sorted[j], sorted[k], sort_opts);
    c < 0 || (c == 0 && places[j] < places[k])
}

proof fn lemma_insert_place(sorted: Seq<Json>, x: Json, sort_opts: Json) -> (p: int)
    ensures
        0 <= p <= sorted.len(),
        insert_sorted(sorted, x, sort_opts) == sorted.insert(p, x),
        forall|j: int| p <= j < sorted.len() ==> sort_order(#[trigger] sorted[j], x, sort_opts) > 0,
        p > 0 ==> sort_order(sorted[p - 1], x, sort_opts) <= 0,
    decreases sorted.len(),
{
    if sorted.len() > 0 && sort_order(sorted.last(), x, sort_opts) > 0 {
        let shorter = sorted.drop_last();
        let p = lemma_insert_place(shorter, x, sort_opts);
        assert(shorter.insert(p, x).push(sorted.last()) =~= sorted.insert(p, x));
        assert forall|j: int| p <= j < sorted.len() implies sort_order(
            #[trigger] sorted[j],
            x,
            sort_opts,
        ) > 0 by {
            if j < shorter.len() {
                assert(shorter[j] == sorted[j]);
            }
        }
        if p > 0 {
            assert(shorter[p - 1] == sorted[p - 1]);
        }
        p
    } else {
        assert(sorted.push(x) =~= sorted.insert(sorted.len() as int, x));
        sorted.len() as int
    }
}

/// Sorting puts the items in order and is stable, wherever the sort options
/// order the items consistently. The places that are returned tell where
/// each item of the sorted list came from.
pub proof fn lemma_sort_is_stable(items: Seq<Json>, sort_opts: Json) -> (places: Seq<int>)
    requires
        orders_consistently(items, sort_opts),
    ensures
        is_stable_order(items, sort_items(items, sort_opts), places, sort_opts),
    decreases items.len(),
{
    if items.len() == 0 {
        Seq::empty()
    } else {
        let n = items.len() - 1;
        let shorter = items.drop_last();
        let x = items.last();
        assert(orders_consistently(shorter, sort_opts)) by {
            assert forall|i: int| 0 <= i < shorter.len() implies shorter[i] == items[i] by {}
        }
        let before = lemma_sort_is_stable(shorter, sort_opts);
        let sorted = sort_items(shorter, sort_opts);
        let p = lemma_insert_place(sorted, x, sort_opts);
        let places = before.insert(p, n);
        let result = sorted.insert(p, x);
        assert(result == sort_items(items, sort_opts));
        assert forall|k: int| 0 <= k < places.len() implies 0 <= #[trigger] places[k] < items.len()
            && result[k] == items[places[k]] by {
            if k < p {
                assert(places[k] == before[k] && result[k] == sorted[k]);
                assert(sorted[k] == shorter[before[k]]);
            } else if k > p {
                assert(places[k] == before[k - 1] && result[k] == sorted[k - 1]);
                assert(sorted[k - 1] == shorter[before[k - 1]]);
            }
        }
        assert forall|j: int, k: int| 0 <= j < k < places.len() implies #[trigger] places[j]
            != #[trigger] places[k] by {
            let a = if j < p { j } else { j - 1 };
            let b = if k < p { k } else { k - 1 };
            if j != p {
                assert(places[j] == before[a] && before[a] < n);
            }
            if k != p {
                assert(places[k] == before[b] && before[b] < n);
            }
        }
        assert forall|j: int, k: int| 0 <= j < k < result.len() implies in_order(
            result,
            places,
            sort_opts,
            j,
            k,
        ) by {
            let a = if j < p { j } else { j - 1 };
            let b = if k < p { k } else { k - 1 };
            if j != p && k != p {
                assert(result[j] == sorted[a] && result[k] == sorted[b]);
                assert(places[j] == before[a] && places[k] == before[b]);
                assert(in_order(sorted, before, sort_opts, a, b));
            } else if k == p {
                assert(result[j] == sorted[j] && result[k] == x);
                assert(places[j] == before[j] && before[j] < n && places[k] == n);
                assert(sorted[j] == items[before[j]]) by {
                    assert(sorted[j] == shorter[before[j]]);
                }
                assert(sorted[p - 1] == items[before[p - 1]]) by {
                    assert(sorted[p - 1] == shorter[before[p - 1]]);
                }
                if j < p - 1 {
                    assert(in_order(sorted, before, sort_opts, j, p - 1));
                    assert(sort_order(items[before[j]], items[before[p - 1]], sort_opts) <= 0);
                    assert(sort_order(items[before[p - 1]], items[n], sort_opts) <= 0);
                }
                assert(sort_order(items[before[j]], items[n], sort_opts) <= 0);
            } else {
                assert(result[j] == x && result[k] == sorted[k - 1]);
                assert(sorted[k - 1] == items[before[k - 1]]) by {
                    assert(sorted[k - 1] == shorter[before[k - 1]]);
                }
                assert(sort_order(items[before[k - 1]], items[n], sort_opts) > 0);
                assert(sort_order(items[n], items[before[k - 1]], sort_opts) < 0);
            }
        }
        places
    }
}

} // verus!
