//! What holds of writing and deleting by path, for every document.

use crate::json::{
    is_first_key, key_index, keys_unique, lemma_key_index, lemma_key_index_none,
    lemma_key_index_some, well_formed, Json,
};
use crate::path::{
    child_of, delete_path, delete_segments, fresh_container, get_path, get_segments,
    is_container, pad_nulls, parse_index, set_path, set_segments, split_path,
};
use vstd::prelude::*;

verus! {

proof fn lemma_set_segments_idempotent(node: Json, segs: Seq<Seq<char>>, value: Json)
    ensures
        set_segments(set_segments(node, segs, value), segs, value) == set_segments(
            node,
            segs,
            value,
        ),
    decreases segs.len(),
{
    if segs.len() > 0 {
        let seg = segs[0];
        let rest = segs.drop_first();
        let base = if is_container(node) {
            node
        } else {
            fresh_container(seg)
        };
        match base {
            Json::Object(e) => {
                lemma_key_index(e, seg);
                match key_index(e, seg) {
                    Some(i) => {
                        let c = set_segments(e[i].1, rest, value);
                        let entries = e.update(i, (seg, c));
                        assert(is_first_key(entries, seg, i)) by {
                            assert forall|j: int| 0 <= j < i implies (#[trigger] entries[j]).0
                                != seg by {
                                assert(entries[j] == e[j]);
                            }
                        }
                        lemma_key_index_some(entries, seg, i);
                        lemma_set_segments_idempotent(e[i].1, rest, value);
                        assert(entries.update(i, (seg, set_segments(c, rest, value))) =~= entries);
                    },
                    None => {
                        let c = set_segments(Json::Null, rest, value);
                        let entries = e.push((seg, c));
                        let i = e.len() as int;
                        assert(is_first_key(entries, seg, i)) by {
                            assert forall|j: int| 0 <= j < i implies (#[trigger] entries[j]).0
                                != seg by {
                                assert(entries[j] == e[j]);
                            }
                        }
                        lemma_key_index_some(entries, seg, i);
                        lemma_set_segments_idempotent(Json::Null, rest, value);
                        assert(entries.update(i, (seg, set_segments(c, rest, value))) =~= entries);
                    },
                }
            },
            Json::Array(a) => {
                match parse_index(seg) {
                    Some(n) => {
                        let p = pad_nulls(a, n + 1);
                        let c = set_segments(p[n as int], rest, value);
                        let updated = p.update(n as int, c);
                        assert(pad_nulls(updated, n + 1) == updated);
                        lemma_set_segments_idempotent(p[n as int], rest, value);
                        assert(updated.update(n as int, set_segments(c, rest, value)) =~= updated);
                    },
                    None => {},
                }
            },
            _ => {},
        }
    }
}

/// Writing a value at a path twice leaves the document that writing it once
/// leaves.
pub proof fn lemma_set_idempotent(root: Json, path: Seq<char>, value: Json)
    ensures
        set_path(set_path(root, path, value), path, value) == set_path(root, path, value),
{
    if path.len() > 0 {
        lemma_set_segments_idempotent(root, split_path(path), value);
    }
}

/// Whether the last of the segments is the index of an item of an array that
/// has a later item. Deleting there moves the later items down, so that the
/// index names another item afterwards.
pub open spec fn delete_shifts(node: Json, segs: Seq<Seq<char>>) -> bool
    decreases segs.len(),
{
    if segs.len() == 0 {
        false
    } else if segs.len() == 1 {
        match node {
            Json::Array(a) => match parse_index(segs[0]) {
                Some(n) => n + 1 < a.len(),
                None => false,
            },
            _ => false,
        }
    } else {
        match child_of(node, segs[0]) {
            Some(c) => delete_shifts(c, segs.drop_first()),
            None => false,
        }
    }
}

proof fn lemma_delete_segments_idempotent(node: Json, segs: Seq<Seq<char>>)
    requires
        well_formed(node),
        !delete_shifts(node, segs),
    ensures
        delete_segments(delete_segments(node, segs), segs) == delete_segments(node, segs),
    decreases segs.len(),
{
    if segs.len() > 0 {
        let seg = segs[0];
        let rest = segs.drop_first();
        match node {
            Json::Object(e) => {
                lemma_key_index(e, seg);
                match key_index(e, seg) {
                    Some(i) => {
                        if rest.len() == 0 {
                            let entries = e.remove(i);
                            assert forall|j: int| 0 <= j < entries.len() implies (#[trigger] entries[j]).0
                                != seg by {
                                if j < i {
                                    assert(entries[j] == e[j]);
                                } else {
                                    assert(entries[j] == e[j + 1]);
                                }
                            }
                            lemma_key_index_none(entries, seg);
                        } else {
                            let c = delete_segments(e[i].1, rest);
                            let entries = e.update(i, (e[i].0, c));
                            assert(is_first_key(entries, seg, i)) by {
                                assert forall|j: int| 0 <= j < i implies (#[trigger] entries[j]).0
                                    != seg by {
                                    assert(entries[j] == e[j]);
                                }
                            }
                            lemma_key_index_some(entries, seg, i);
                            assert(well_formed(e[i].1));
                            lemma_delete_segments_idempotent(e[i].1, rest);
                            assert(entries.update(i, (entries[i].0, delete_segments(c, rest))) =~= entries);
                        }
                    },
                    None => {},
                }
            },
            Json::Array(a) => {
                match parse_index(seg) {
                    Some(n) => {
                        if n < a.len() {
                            if rest.len() == 0 {
                            } else {
                                let c = delete_segments(a[n as int], rest);
                                let items = a.update(n as int, c);
                                assert(well_formed(a[n as int]));
                                lemma_delete_segments_idempotent(a[n as int], rest);
                                assert(items.update(n as int, delete_segments(c, rest)) =~= items);
                            }
                        }
                    },
                    None => {},
                }
            },
            _ => {},
        }
    }
}

/// Deleting a path twice leaves the document that deleting it once leaves,
/// unless the path ends at an item of an array that has a later item: there
/// the second deletion removes the item that moved down.
pub proof fn lemma_delete_idempotent(root: Json, path: Seq<char>)
    requires
        well_formed(root),
        !(path.len() > 0 && delete_shifts(root, split_path(path))),
    ensures
        delete_path(delete_path(root, path), path) == delete_path(root, path),
{
    if path.len() > 0 {
        lemma_delete_segments_idempotent(root, split_path(path));
    }
}

/// Where deleting moves a later item down, deleting twice removes two items:
/// the law above has no more exceptions than it must.
pub proof fn lemma_delete_twice_differs(node: Json, segs: Seq<Seq<char>>)
    requires
        well_formed(node),
        delete_shifts(node, segs),
    ensures
        delete_segments(delete_segments(node, segs), segs) != delete_segments(node, segs),
    decreases segs.len(),
{
    let seg = segs[0];
    let rest = segs.drop_first();
    if segs.len() == 1 {
        let a = node->Array_0;
        let n = parse_index(seg)->0 as int;
        assert(a.remove(n).remove(n).len() != a.remove(n).len());
    } else {
        match node {
            Json::Object(e) => {
                lemma_key_index(e, seg);
                let i = key_index(e, seg)->0;
                let c = delete_segments(e[i].1, rest);
                let entries = e.update(i, (e[i].0, c));
                assert(is_first_key(entries, seg, i)) by {
                    assert forall|j: int| 0 <= j < i implies (#[trigger] entries[j]).0 != seg by {
                        assert(entries[j] == e[j]);
                    }
                }
                lemma_key_index_some(entries, seg, i);
                assert(well_formed(e[i].1));
                lemma_delete_twice_differs(e[i].1, rest);
                let again = entries.update(i, (entries[i].0, delete_segments(c, rest)));
                assert(again[i].1 != entries[i].1);
            },
            Json::Array(a) => {
                let n = parse_index(seg)->0 as int;
                let c = delete_segments(a[n], rest);
                let items = a.update(n, c);
                assert(well_formed(a[n]));
                lemma_delete_twice_differs(a[n], rest);
                let again = items.update(n, delete_segments(c, rest));
                assert(again[n] != items[n]);
            },
            _ => {},
        }
    }
}

proof fn lemma_set_segments_well_formed(node: Json, segs: Seq<Seq<char>>, value: Json)
    requires
        well_formed(node),
        well_formed(value),
    ensures
        well_formed(set_segments(node, segs, value)),
    decreases segs.len(),
{
    if segs.len() > 0 {
        let seg = segs[0];
        let rest = segs.drop_first();
        let base = if is_container(node) {
            node
        } else {
            fresh_container(seg)
        };
        match base {
            Json::Object(e) => {
                lemma_key_index(e, seg);
                match key_index(e, seg) {
                    Some(i) => {
                        assert(well_formed(e[i].1));
                        lemma_set_segments_well_formed(e[i].1, rest, value);
                        let entries = e.update(i, (seg, set_segments(e[i].1, rest, value)));
                        assert(keys_unique(entries)) by {
                            assert forall|j: int, k: int| 0 <= j < k < entries.len() implies entries[j].0
                                != entries[k].0 by {
                                assert(entries[j].0 == e[j].0);
                                assert(entries[k].0 == e[k].0);
                            }
                        }
                        assert forall|j: int| 0 <= j < entries.len() implies well_formed(
                            (#[trigger] entries[j]).1,
                        ) by {
                            if j != i {
                                assert(entries[j] == e[j]);
                            }
                        }
                    },
                    None => {
                        lemma_set_segments_well_formed(Json::Null, rest, value);
                        let entries = e.push((seg, set_segments(Json::Null, rest, value)));
                        assert(keys_unique(entries)) by {
                            assert forall|j: int, k: int| 0 <= j < k < entries.len() implies entries[j].0
                                != entries[k].0 by {
                                assert(entries[j] == e[j]);
                                if k < e.len() {
                                    assert(entries[k] == e[k]);
                                }
                            }
                        }
                        assert forall|j: int| 0 <= j < entries.len() implies well_formed(
                            (#[trigger] entries[j]).1,
                        ) by {
                            if j < e.len() {
                                assert(entries[j] == e[j]);
                            }
                        }
                    },
                }
            },
            Json::Array(a) => {
                match parse_index(seg) {
                    Some(n) => {
                        let p = pad_nulls(a, n + 1);
                        assert forall|j: int| 0 <= j < p.len() implies well_formed(
                            #[trigger] p[j],
                        ) by {
                            if j < a.len() {
                                assert(p[j] == a[j]);
                            }
                        }
                        lemma_set_segments_well_formed(p[n as int], rest, value);
                        let updated = p.update(n as int, set_segments(p[n as int], rest, value));
                        assert forall|j: int| 0 <= j < updated.len() implies well_formed(
                            #[trigger] updated[j],
                        ) by {
                            if j != n {
                                assert(updated[j] == p[j]);
                            }
                        }
                    },
                    None => {},
                }
            },
            _ => {},
        }
    }
}

/// Writing a well-formed value into a well-formed document leaves a
/// well-formed document.
pub proof fn lemma_set_well_formed(root: Json, path: Seq<char>, value: Json)
    requires
        well_formed(root),
        well_formed(value),
    ensures
        well_formed(set_path(root, path, value)),
{
    if path.len() > 0 {
        lemma_set_segments_well_formed(root, split_path(path), value);
    }
}

proof fn lemma_delete_segments_well_formed(node: Json, segs: Seq<Seq<char>>)
    requires
        well_formed(node),
    ensures
        well_formed(delete_segments(node, segs)),
    decreases segs.len(),
{
    if segs.len() > 0 {
        let seg = segs[0];
        let rest = segs.drop_first();
        match node {
            Json::Object(e) => {
                lemma_key_index(e, seg);
                match key_index(e, seg) {
                    Some(i) => {
                        if rest.len() == 0 {
                            let entries = e.remove(i);
                            assert forall|j: int| 0 <= j < entries.len() implies #[trigger] entries[j]
                                == e[if j < i {
                                j
                            } else {
                                j + 1
                            }] by {}
                            assert(keys_unique(entries)) by {
                                assert forall|j: int, k: int|
                                    0 <= j < k < entries.len() implies entries[j].0 != entries[k].0 by {
                                    let j1 = if j < i {
                                        j
                                    } else {
                                        j + 1
                                    };
                                    let k1 = if k < i {
                                        k
                                    } else {
                                        k + 1
                                    };
                                    assert(entries[j] == e[j1]);
                                    assert(entries[k] == e[k1]);
                                }
                            }
                            assert forall|j: int| 0 <= j < entries.len() implies well_formed(
                                (#[trigger] entries[j]).1,
                            ) by {
                                let j1 = if j < i {
                                    j
                                } else {
                                    j + 1
                                };
                                assert(entries[j] == e[j1]);
                                assert(well_formed(e[j1].1));
                            }
                        } else {
                            assert(well_formed(e[i].1));
                            lemma_delete_segments_well_formed(e[i].1, rest);
                            let entries = e.update(i, (e[i].0, delete_segments(e[i].1, rest)));
                            assert(keys_unique(entries)) by {
                                assert forall|j: int, k: int|
                                    0 <= j < k < entries.len() implies entries[j].0 != entries[k].0 by {
                                    assert(entries[j].0 == e[j].0);
                                    assert(entries[k].0 == e[k].0);
                                }
                            }
                            assert forall|j: int| 0 <= j < entries.len() implies well_formed(
                                (#[trigger] entries[j]).1,
                            ) by {
                                if j != i {
                                    assert(entries[j] == e[j]);
                                }
                            }
                        }
                    },
                    None => {},
                }
            },
            Json::Array(a) => {
                match parse_index(seg) {
                    Some(n) => {
                        if n < a.len() {
                            if rest.len() == 0 {
                                let items = a.remove(n as int);
                                assert forall|j: int| 0 <= j < items.len() implies well_formed(
                                    #[trigger] items[j],
                                ) by {
                                    let j1 = if j < n {
                                        j
                                    } else {
                                        j + 1
                                    };
                                    assert(items[j] == a[j1]);
                                    assert(well_formed(a[j1]));
                                }
                            } else {
                                assert(well_formed(a[n as int]));
                                lemma_delete_segments_well_formed(a[n as int], rest);
                                let items = a.update(n as int, delete_segments(a[n as int], rest));
                                assert forall|j: int| 0 <= j < items.len() implies well_formed(
                                    #[trigger] items[j],
                                ) by {
                                    if j != n {
                                        assert(items[j] == a[j]);
                                    }
                                }
                            }
                        }
                    },
                    None => {},
                }
            },
            _ => {},
        }
    }
}

/// Deleting from a well-formed document leaves a well-formed document.
pub proof fn lemma_delete_well_formed(root: Json, path: Seq<char>)
    requires
        well_formed(root),
    ensures
        well_formed(delete_path(root, path)),
{
    if path.len() > 0 {
        lemma_delete_segments_well_formed(root, split_path(path));
    } else {
        assert(keys_unique(Seq::<(Seq<char>, Json)>::empty()));
    }
}

/// Whether writing along the segments comes to a halt: on the way there is
/// an array that a segment which is no index is to lead into. The written
/// value then has no place, and the document stays as it is.
pub open spec fn set_blocked(node: Json, segs: Seq<Seq<char>>) -> bool
    decreases segs.len(),
{
    if segs.len() == 0 {
        false
    } else {
        match node {
            Json::Array(a) => match parse_index(segs[0]) {
                Some(n) => n < a.len() && set_blocked(a[n as int], segs.drop_first()),
                None => true,
            },
            _ => match child_of(node, segs[0]) {
                Some(c) => set_blocked(c, segs.drop_first()),
                None => false,
            },
        }
    }
}

proof fn lemma_set_segments_blocked(node: Json, segs: Seq<Seq<char>>, value: Json)
    requires
        set_blocked(node, segs),
    ensures
        set_segments(node, segs, value) == node,
    decreases segs.len(),
{
    let seg = segs[0];
    let rest = segs.drop_first();
    match node {
        Json::Object(e) => {
            lemma_key_index(e, seg);
            let i = key_index(e, seg)->0;
            lemma_set_segments_blocked(e[i].1, rest, value);
            assert(e.update(i, (seg, e[i].1)) =~= e);
        },
        Json::Array(a) => {
            match parse_index(seg) {
                Some(n) => {
                    lemma_set_segments_blocked(a[n as int], rest, value);
                    assert(pad_nulls(a, n + 1) == a);
                    assert(a.update(n as int, a[n as int]) =~= a);
                },
                None => {},
            }
        },
        _ => {},
    }
}

proof fn lemma_set_segments_read_back(node: Json, segs: Seq<Seq<char>>, value: Json)
    requires
        !set_blocked(node, segs),
    ensures
        get_segments(set_segments(node, segs, value), segs) == Some(value),
    decreases segs.len(),
{
    if segs.len() > 0 {
        let seg = segs[0];
        let rest = segs.drop_first();
        let base = if is_container(node) {
            node
        } else {
            fresh_container(seg)
        };
        match base {
            Json::Object(e) => {
                lemma_key_index(e, seg);
                match key_index(e, seg) {
                    Some(i) => {
                        let c = set_segments(e[i].1, rest, value);
                        let entries = e.update(i, (seg, c));
                        assert(is_first_key(entries, seg, i)) by {
                            assert forall|j: int| 0 <= j < i implies (#[trigger] entries[j]).0
                                != seg by {
                                assert(entries[j] == e[j]);
                            }
                        }
                        lemma_key_index_some(entries, seg, i);
                        lemma_set_segments_read_back(e[i].1, rest, value);
                    },
                    None => {
                        let c = set_segments(Json::Null, rest, value);
                        let entries = e.push((seg, c));
                        let i = e.len() as int;
                        assert(is_first_key(entries, seg, i)) by {
                            assert forall|j: int| 0 <= j < i implies (#[trigger] entries[j]).0
                                != seg by {
                                assert(entries[j] == e[j]);
                            }
                        }
                        lemma_key_index_some(entries, seg, i);
                        lemma_set_segments_read_back(Json::Null, rest, value);
                    },
                }
            },
            Json::Array(a) => {
                match parse_index(seg) {
                    Some(n) => {
                        let p = pad_nulls(a, n + 1);
                        if n >= a.len() {
                            assert(p[n as int] == Json::Null);
                        }
                        lemma_set_segments_read_back(p[n as int], rest, value);
                    },
                    None => {},
                }
            },
            _ => {},
        }
    }
}

/// What is written at a path is read back at that path, unless the writing
/// came to a halt at an array; then the document is as it was.
pub proof fn lemma_set_then_get(root: Json, path: Seq<char>, value: Json)
    ensures
        path.len() == 0 || !set_blocked(root, split_path(path)) ==> get_path(
            set_path(root, path, value),
            path,
        ) == Some(value),
        path.len() > 0 && set_blocked(root, split_path(path)) ==> set_path(root, path, value)
            == root,
{
    if path.len() > 0 {
        if set_blocked(root, split_path(path)) {
            lemma_set_segments_blocked(root, split_path(path), value);
        } else {
            lemma_set_segments_read_back(root, split_path(path), value);
        }
    }
}

proof fn lemma_delete_segments_gone(node: Json, segs: Seq<Seq<char>>)
    requires
        well_formed(node),
        segs.len() > 0,
        !delete_shifts(node, segs),
    ensures
        get_segments(delete_segments(node, segs), segs) is None,
    decreases segs.len(),
{
    let seg = segs[0];
    let rest = segs.drop_first();
    match node {
        Json::Object(e) => {
            lemma_key_index(e, seg);
            match key_index(e, seg) {
                Some(i) => {
                    if rest.len() == 0 {
                        let entries = e.remove(i);
                        assert forall|j: int| 0 <= j < entries.len() implies (#[trigger] entries[j]).0
                            != seg by {
                            if j < i {
                                assert(entries[j] == e[j]);
                            } else {
                                assert(entries[j] == e[j + 1]);
                            }
                        }
                        lemma_key_index_none(entries, seg);
                    } else {
                        let c = delete_segments(e[i].1, rest);
                        let entries = e.update(i, (e[i].0, c));
                        assert(is_first_key(entries, seg, i)) by {
                            assert forall|j: int| 0 <= j < i implies (#[trigger] entries[j]).0
                                != seg by {
                                assert(entries[j] == e[j]);
                            }
                        }
                        lemma_key_index_some(entries, seg, i);
                        assert(well_formed(e[i].1));
                        lemma_delete_segments_gone(e[i].1, rest);
                    }
                },
                None => {},
            }
        },
        Json::Array(a) => {
            match parse_index(seg) {
                Some(n) => {
                    if n < a.len() && rest.len() > 0 {
                        assert(well_formed(a[n as int]));
                        lemma_delete_segments_gone(a[n as int], rest);
                    }
                },
                None => {},
            }
        },
        _ => {},
    }
}

proof fn lemma_split_nonempty(path: Seq<char>)
    ensures
        split_path(path).len() >= 1,
    decreases path.len(),
{
    if path.len() > 0 {
        lemma_split_nonempty(path.drop_last());
    }
}

/// After a path is deleted there is nothing at that path, unless the path
/// ends at an item of an array that has a later item: there the later item
/// has moved to its place.
pub proof fn lemma_delete_then_get(root: Json, path: Seq<char>)
    requires
        well_formed(root),
        path.len() > 0,
        !delete_shifts(root, split_path(path)),
    ensures
        get_path(delete_path(root, path), path) is None,
{
    lemma_split_nonempty(path);
    lemma_delete_segments_gone(root, split_path(path));
}

/// Writing below a container leaves it a container of its kind, and leaves
/// alone every entry and every item but the one that the first segment
/// names: only what is no container, or is missing, is replaced by a new
/// container.
pub proof fn lemma_set_keeps_containers(node: Json, segs: Seq<Seq<char>>, value: Json)
    requires
        segs.len() > 0,
    ensures
        node matches Json::Object(e) ==> (set_segments(node, segs, value) matches Json::Object(
            entries,
        ) && entries.len() >= e.len() && forall|i: int|
            0 <= i < e.len() ==> (#[trigger] entries[i]).0 == e[i].0 && (e[i].0 != segs[0] ==> entries[i]
                == e[i])),
        node matches Json::Array(a) ==> (set_segments(node, segs, value) matches Json::Array(items)
            && items.len() >= a.len() && forall|i: int|
            0 <= i < a.len() && parse_index(segs[0]) != Some(i as nat) ==> #[trigger] items[i]
                == a[i]),
{
    let seg = segs[0];
    match node {
        Json::Object(e) => {
            lemma_key_index(e, seg);
        },
        Json::Array(a) => {},
        _ => {},
    }
}

/// Whether the way `other` parts from the way `segs`: after the segments
/// that the two share comes one at which they differ. Where both of these
/// are indices, they must be different numbers, and `other` must go on
/// behind its index: an array counts its items by number, whatever the
/// number is written like, and writing behind its end fills the places
/// before with nulls.
pub open spec fn ways_part(segs: Seq<Seq<char>>, other: Seq<Seq<char>>) -> bool
    decreases segs.len(),
{
    segs.len() > 0 && other.len() > 0 && if segs[0] == other[0] {
        ways_part(segs.drop_first(), other.drop_first())
    } else {
        match (parse_index(segs[0]), parse_index(other[0])) {
            (Some(n), Some(m)) => n != m && other.len() > 1,
            _ => true,
        }
    }
}

proof fn lemma_other_key_after_update(
    e: Seq<(Seq<char>, Json)>,
    i: int,
    c: Json,
    key: Seq<char>,
)
    requires
        0 <= i < e.len(),
        e[i].0 != key,
    ensures
        child_of(Json::Object(e.update(i, (e[i].0, c))), key) == child_of(Json::Object(e), key),
{
    let entries = e.update(i, (e[i].0, c));
    lemma_key_index(e, key);
    match key_index(e, key) {
        Some(k) => {
            assert(is_first_key(entries, key, k)) by {
                assert(entries[k] == e[k]);
                assert forall|j: int| 0 <= j < k implies (#[trigger] entries[j]).0 != key by {
                    assert(e[j].0 != key);
                }
            }
            lemma_key_index_some(entries, key, k);
        },
        None => {
            assert forall|j: int| 0 <= j < entries.len() implies (#[trigger] entries[j]).0
                != key by {
                assert(e[j].0 != key);
            }
            lemma_key_index_none(entries, key);
        },
    }
}

proof fn lemma_other_key_after_push(
    e: Seq<(Seq<char>, Json)>,
    seg: Seq<char>,
    c: Json,
    key: Seq<char>,
)
    requires
        seg != key,
    ensures
        child_of(Json::Object(e.push((seg, c))), key) == child_of(Json::Object(e), key),
{
    let entries = e.push((seg, c));
    lemma_key_index(e, key);
    match key_index(e, key) {
        Some(k) => {
            assert(is_first_key(entries, key, k)) by {
                assert(entries[k] == e[k]);
                assert forall|j: int| 0 <= j < k implies (#[trigger] entries[j]).0 != key by {
                    assert(entries[j] == e[j]);
                }
            }
            lemma_key_index_some(entries, key, k);
        },
        None => {
            assert forall|j: int| 0 <= j < entries.len() implies (#[trigger] entries[j]).0
                != key by {
                if j < e.len() {
                    assert(entries[j] == e[j]);
                }
            }
            lemma_key_index_none(entries, key);
        },
    }
}

proof fn lemma_set_segments_keeps(
    node: Json,
    segs: Seq<Seq<char>>,
    other: Seq<Seq<char>>,
    value: Json,
)
    requires
        ways_part(segs, other),
    ensures
        get_segments(set_segments(node, segs, value), other) == get_segments(node, other),
    decreases segs.len(),
{
    let seg = segs[0];
    let rest = segs.drop_first();
    let key = other[0];
    let onward = other.drop_first();
    let base = if is_container(node) {
        node
    } else {
        fresh_container(seg)
    };
    let after = set_segments(node, segs, value);
    if seg == key {
        reveal_with_fuel(ways_part, 2);
        assert(onward.len() > 0);
        assert(get_segments(Json::Null, onward) is None);
    }
    match base {
        Json::Object(e) => {
            lemma_key_index(e, seg);
            match key_index(e, seg) {
                Some(i) => {
                    let c = set_segments(e[i].1, rest, value);
                    let entries = e.update(i, (seg, c));
                    assert(after == Json::Object(entries));
                    assert(node == base);
                    if seg == key {
                        assert(is_first_key(entries, seg, i)) by {
                            assert forall|j: int| 0 <= j < i implies (#[trigger] entries[j]).0
                                != seg by {
                                assert(entries[j] == e[j]);
                            }
                        }
                        lemma_key_index_some(entries, seg, i);
                        lemma_set_segments_keeps(e[i].1, rest, onward, value);
                    } else {
                        lemma_other_key_after_update(e, i, c, key);
                    }
                },
                None => {
                    let c = set_segments(Json::Null, rest, value);
                    let entries = e.push((seg, c));
                    assert(after == Json::Object(entries));
                    if seg == key {
                        let i = e.len() as int;
                        assert(is_first_key(entries, seg, i)) by {
                            assert forall|j: int| 0 <= j < i implies (#[trigger] entries[j]).0
                                != seg by {
                                assert(entries[j] == e[j]);
                            }
                        }
                        lemma_key_index_some(entries, seg, i);
                        lemma_set_segments_keeps(Json::Null, rest, onward, value);
                        assert(child_of(node, key) is None);
                    } else {
                        lemma_other_key_after_push(e, seg, c, key);
                        if !is_container(node) {
                            assert(e.len() == 0);
                            lemma_key_index_none(e, key);
                        }
                    }
                },
            }
        },
        Json::Array(a) => {
            match parse_index(seg) {
                Some(n) => {
                    let padded = pad_nulls(a, n + 1);
                    let c = set_segments(padded[n as int], rest, value);
                    assert(after == Json::Array(padded.update(n as int, c)));
                    if !is_container(node) {
                        assert(a.len() == 0);
                    }
                    if seg == key {
                        lemma_set_segments_keeps(padded[n as int], rest, onward, value);
                        if n >= a.len() {
                            assert(padded[n as int] == Json::Null);
                        }
                    } else {
                        match parse_index(key) {
                            Some(m) => {
                                assert(onward.len() > 0);
                                assert(get_segments(Json::Null, onward) is None);
                                if m < padded.len() && m >= a.len() {
                                    assert(padded[m as int] == Json::Null);
                                }
                            },
                            None => {},
                        }
                    }
                },
                None => {},
            }
        },
        _ => {},
    }
}

/// Writing at one path leaves what is read at another path as it was,
/// where the ways of the two paths part.
pub proof fn lemma_set_keeps_other_paths(root: Json, path: Seq<char>, other: Seq<char>, value: Json)
    requires
        path.len() > 0,
        other.len() > 0,
        ways_part(split_path(path), split_path(other)),
    ensures
        get_path(set_path(root, path, value), other) == get_path(root, other),
{
    lemma_set_segments_keeps(root, split_path(path), split_path(other), value);
}

} // verus!
