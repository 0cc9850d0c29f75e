//! Dotted paths: how a path is cut into segments, when a segment is an
//! array index, and reading, writing and deleting the node a path names.

use crate::json::{
    entries_model, find_key, items_model, key_index, lemma_key_index, lemma_model_array,
    lemma_model_object, Json, JsonValue,
};
use vstd::prelude::*;
use vstd::string::*;

verus! {

/// The segments of a path: the stretches between its dots. Every character
/// either is a dot, which opens a new (empty) segment, or extends the last
/// segment. Nothing is escaped, and the empty path has one empty segment.
pub open spec fn split_path(path: Seq<char>) -> Seq<Seq<char>>
    decreases path.len(),
{
    if path.len() == 0 {
        seq![Seq::empty()]
    } else {
        let before = split_path(path.drop_last());
        if path.last() == '.' {
            before.push(Seq::empty())
        } else {
            before.update(before.len() - 1, before.last().push(path.last()))
        }
    }
}

/// Whether a character is a decimal digit.
pub open spec fn is_digit(c: char) -> bool {
    '0' <= c <= '9'
}

/// The number that a string of decimal digits writes.
pub open spec fn digits_value(s: Seq<char>) -> nat
    decreases s.len(),
{
    if s.len() == 0 {
        0
    } else {
        (digits_value(s.drop_last()) * 10 + (s.last() as int - '0' as int)) as nat
    }
}

/// The digits of a segment: the segment itself, without one leading `+`.
pub open spec fn index_digits(seg: Seq<char>) -> Seq<char> {
    if seg.len() > 0 && seg[0] == '+' {
        seg.skip(1)
    } else {
        seg
    }
}

/// The array index that a segment names: the segment is one or more decimal
/// digits, with or without one `+` in front, and the number fits in `usize`.
/// Any other segment names no index.
pub open spec fn parse_index(seg: Seq<char>) -> Option<nat> {
    let d = index_digits(seg);
    if d.len() > 0 && (forall|i: int| 0 <= i < d.len() ==> is_digit(#[trigger] d[i]))
        && digits_value(d) <= usize::MAX {
        Some(digits_value(d))
    } else {
        None
    }
}

proof fn lemma_digits_prefix(s: Seq<char>, k: int)
    requires
        0 <= k <= s.len(),
        forall|i: int| 0 <= i < s.len() ==> is_digit(#[trigger] s[i]),
    ensures
        digits_value(s.take(k)) <= digits_value(s),
    decreases s.len() - k,
{
    if k < s.len() {
        lemma_digits_prefix(s, k + 1);
        assert(s.take(k + 1).drop_last() =~= s.take(k));
        assert(s.take(k + 1).last() == s[k]);
        assert(is_digit(s[k]));
    } else {
        assert(s.take(k) =~= s);
    }
}

/// The array index that a segment names, if it names one.
pub fn segment_index(seg: &str) -> (r: Option<usize>)
    ensures
        match r {
            Some(n) => parse_index(seg@) == Some(n as nat),
            None => parse_index(seg@) is None,
        },
{
    let n = seg.unicode_len();
    let start: usize = if n > 0 && seg.get_char(0) == '+' {
        1
    } else {
        0
    };
    let ghost d = index_digits(seg@);
    assert(d =~= seg@.skip(start as int));
    if start == n {
        return None;
    }
    let mut acc: usize = 0;
    let mut i: usize = start;
    while i < n
        invariant
            start <= i <= n,
            n == seg@.len(),
            d == seg@.skip(start as int),
            d == index_digits(seg@),
            acc == digits_value(d.take(i - start)),
            forall|j: int| 0 <= j < i - start ==> is_digit(#[trigger] d[j]),
        decreases n - i,
    {
        let c = seg.get_char(i);
        assert(c == d[i - start]);
        if !('0' <= c && c <= '9') {
            assert(!is_digit(d[i - start]));
            return None;
        }
        let digit: usize = (c as u32 - '0' as u32) as usize;
        proof {
            assert(d.take(i - start + 1).drop_last() =~= d.take(i - start));
            assert(d.take(i - start + 1).last() == c);
        }
        if acc > (usize::MAX - digit) / 10 {
            proof {
                let k = i - start + 1;
                assert(digits_value(d.take(k)) > usize::MAX);
                if forall|j: int| 0 <= j < d.len() ==> is_digit(#[trigger] d[j]) {
                    lemma_digits_prefix(d, k);
                }
            }
            return None;
        }
        acc = acc * 10 + digit;
        i += 1;
    }
    assert(d.take(n - start) =~= d);
    Some(acc)
}

/// The views of a list of segments.
pub open spec fn segments_model(segs: Seq<String>) -> Seq<Seq<char>> {
    Seq::new(segs.len(), |i: int| segs[i]@)
}

/// Cuts a path into its segments.
pub fn split_segments(path: &str) -> (segs: Vec<String>)
    ensures
        segments_model(segs@) == split_path(path@),
        segs.len() >= 1,
{
    let n = path.unicode_len();
    let mut segs: Vec<String> = Vec::new();
    let mut start: usize = 0;
    let mut i: usize = 0;
    proof {
        assert(path@.take(0) =~= Seq::<char>::empty());
        assert(path@.subrange(0, 0) =~= Seq::<char>::empty());
        assert(segments_model(segs@).push(Seq::<char>::empty()) =~= seq![Seq::<char>::empty()]);
    }
    while i < n
        invariant
            start <= i <= n,
            n == path@.len(),
            split_path(path@.take(i as int)) == segments_model(segs@).push(
                path@.subrange(start as int, i as int),
            ),
        decreases n - i,
    {
        let c = path.get_char(i);
        proof {
            assert(path@.take(i + 1).drop_last() =~= path@.take(i as int));
            assert(path@.take(i + 1).last() == c);
        }
        if c == '.' {
            let ghost before = segments_model(segs@);
            let piece = path.substring_char(start, i);
            segs.push(String::from_str(piece));
            start = i + 1;
            proof {
                assert(segments_model(segs@) =~= before.push(piece@));
                assert(path@.subrange(start as int, i + 1) =~= Seq::<char>::empty());
            }
        } else {
            proof {
                let before = segments_model(segs@).push(path@.subrange(start as int, i as int));
                assert(path@.subrange(start as int, i as int).push(c) =~= path@.subrange(
                    start as int,
                    i + 1,
                ));
                assert(before.update(before.len() - 1, before.last().push(c)) =~= segments_model(
                    segs@,
                ).push(path@.subrange(start as int, i + 1)));
            }
        }
        i += 1;
    }
    let ghost before = segments_model(segs@);
    let piece = path.substring_char(start, n);
    segs.push(String::from_str(piece));
    proof {
        assert(path@.take(n as int) =~= path@);
        assert(segments_model(segs@) =~= before.push(piece@));
    }
    segs
}

/// The child of a node that a segment names: the first entry with that key
/// in an object, the item at that index in an array, and nothing in any
/// other node.
pub open spec fn child_of(node: Json, seg: Seq<char>) -> Option<Json> {
    match node {
        Json::Object(e) => match key_index(e, seg) {
            Some(i) => Some(e[i].1),
            None => None,
        },
        Json::Array(a) => match parse_index(seg) {
            Some(n) => if n < a.len() {
                Some(a[n as int])
            } else {
                None
            },
            None => None,
        },
        _ => None,
    }
}

/// The node reached from `node` by following the segments in order.
pub open spec fn get_segments(node: Json, segs: Seq<Seq<char>>) -> Option<Json>
    decreases segs.len(),
{
    if segs.len() == 0 {
        Some(node)
    } else {
        match child_of(node, segs[0]) {
            Some(c) => get_segments(c, segs.drop_first()),
            None => None,
        }
    }
}

/// The node that a path names. The empty path names the root.
pub open spec fn get_path(root: Json, path: Seq<char>) -> Option<Json> {
    if path.len() == 0 {
        Some(root)
    } else {
        get_segments(root, split_path(path))
    }
}

/// Whether a node is an array or an object.
pub open spec fn is_container(node: Json) -> bool {
    node is Array || node is Object
}

/// The empty container that a segment calls for: an array where the segment
/// is an index, an object otherwise.
pub open spec fn fresh_container(seg: Seq<char>) -> Json {
    if parse_index(seg) is Some {
        Json::Array(Seq::empty())
    } else {
        Json::Object(Seq::empty())
    }
}

/// `a`, extended with nulls to the length `len` where it is shorter.
pub open spec fn pad_nulls(a: Seq<Json>, len: nat) -> Seq<Json> {
    if a.len() >= len {
        a
    } else {
        a + Seq::new((len - a.len()) as nat, |i: int| Json::Null)
    }
}

/// The node that results from writing `value` at the place the segments name
/// below `node`.
///
/// With no segment left, the node is replaced by the value. Otherwise a node
/// that is no container first becomes the empty container its segment calls
/// for. In an object the entry with the segment's key is written to, in
/// place, or a new entry is added at the end. In an array the segment must be
/// an index; the array is padded with nulls up to and including it, and the
/// item there is written to. An array is left alone by any other segment.
pub open spec fn set_segments(node: Json, segs: Seq<Seq<char>>, value: Json) -> Json
    decreases segs.len(),
{
    if segs.len() == 0 {
        value
    } else {
        let seg = segs[0];
        let rest = segs.drop_first();
        let base = if is_container(node) {
            node
        } else {
            fresh_container(seg)
        };
        match base {
            Json::Object(e) => match key_index(e, seg) {
                Some(i) => Json::Object(e.update(i, (seg, set_segments(e[i].1, rest, value)))),
                None => Json::Object(e.push((seg, set_segments(Json::Null, rest, value)))),
            },
            Json::Array(a) => match parse_index(seg) {
                Some(n) => {
                    let padded = pad_nulls(a, n + 1);
                    Json::Array(
                        padded.update(n as int, set_segments(padded[n as int], rest, value)),
                    )
                },
                None => base,
            },
            _ => base,
        }
    }
}

/// The document that results from writing `value` at `path`. The empty path
/// replaces the whole document.
pub open spec fn set_path(root: Json, path: Seq<char>, value: Json) -> Json {
    if path.len() == 0 {
        value
    } else {
        set_segments(root, split_path(path), value)
    }
}

/// The node that results from removing the place the segments name below
/// `node`.
///
/// The last segment removes: from an object the first entry with its key,
/// from an array the item at its index, the later items moving down by one.
/// The segments before it only lead there. Wherever the way is missing, the
/// node stays as it is.
pub open spec fn delete_segments(node: Json, segs: Seq<Seq<char>>) -> Json
    decreases segs.len(),
{
    if segs.len() == 0 {
        node
    } else {
        let seg = segs[0];
        let rest = segs.drop_first();
        match node {
            Json::Object(e) => match key_index(e, seg) {
                Some(i) => if rest.len() == 0 {
                    Json::Object(e.remove(i))
                } else {
                    Json::Object(e.update(i, (e[i].0, delete_segments(e[i].1, rest))))
                },
                None => node,
            },
            Json::Array(a) => match parse_index(seg) {
                Some(n) => if n < a.len() {
                    if rest.len() == 0 {
                        Json::Array(a.remove(n as int))
                    } else {
                        Json::Array(a.update(n as int, delete_segments(a[n as int], rest)))
                    }
                } else {
                    node
                },
                None => node,
            },
            _ => node,
        }
    }
}

/// The document that results from deleting `path`. The empty path leaves the
/// empty object.
pub open spec fn delete_path(root: Json, path: Seq<char>) -> Json {
    if path.len() == 0 {
        Json::Object(Seq::empty())
    } else {
        delete_segments(root, split_path(path))
    }
}

proof fn lemma_skip_step(segs: Seq<String>, i: int)
    requires
        0 <= i < segs.len(),
    ensures
        segments_model(segs).skip(i).len() > 0,
        segments_model(segs).skip(i)[0] == segs[i]@,
        segments_model(segs).skip(i).drop_first() == segments_model(segs).skip(i + 1),
{
    assert(segments_model(segs).skip(i).drop_first() =~= segments_model(segs).skip(i + 1));
}

fn get_at<'a>(node: &'a JsonValue, segs: &Vec<String>, i: usize) -> (r: Option<&'a JsonValue>)
    requires
        i <= segs.len(),
    ensures
        match r {
            Some(v) => get_segments(node@, segments_model(segs@).skip(i as int)) == Some(v@),
            None => get_segments(node@, segments_model(segs@).skip(i as int)) is None,
        },
    decreases segs.len() - i,
{
    if i == segs.len() {
        return Some(node);
    }
    let seg = &segs[i];
    proof {
        lemma_skip_step(segs@, i as int);
    }
    match node {
        JsonValue::Object(entries) => {
            proof {
                lemma_model_object(*entries);
            }
            match find_key(entries, seg) {
                Some(k) => get_at(&entries[k].1, segs, i + 1),
                None => None,
            }
        },
        JsonValue::Array(items) => {
            proof {
                lemma_model_array(*items);
            }
            match segment_index(seg.as_str()) {
                Some(n) => if n < items.len() {
                    get_at(&items[n], segs, i + 1)
                } else {
                    None
                },
                None => None,
            }
        },
        _ => None,
    }
}

/// The node that `path` names in the document, if there is one.
pub fn get_value_by_path<'a>(root: &'a JsonValue, path: &str) -> (r: Option<&'a JsonValue>)
    ensures
        match r {
            Some(v) => get_path(root@, path@) == Some(v@),
            None => get_path(root@, path@) is None,
        },
{
    if path.unicode_len() == 0 {
        return Some(root);
    }
    let segs = split_segments(path);
    assert(segments_model(segs@).skip(0) =~= segments_model(segs@));
    get_at(root, &segs, 0)
}

fn is_container_node(node: &JsonValue) -> (r: bool)
    ensures
        r == is_container(node@),
{
    match node {
        JsonValue::Object(_) => true,
        JsonValue::Array(_) => true,
        _ => false,
    }
}

fn set_at(node: &mut JsonValue, segs: &Vec<String>, i: usize, value: JsonValue)
    requires
        i <= segs.len(),
    ensures
        final(node)@ == set_segments(old(node)@, segments_model(segs@).skip(i as int), value@),
    decreases segs.len() - i,
{
    if i == segs.len() {
        *node = value;
        return ;
    }
    let seg = &segs[i];
    let index = segment_index(seg.as_str());
    let ghost rest = segments_model(segs@).skip(i + 1);
    let ghost val = value@;
    proof {
        lemma_skip_step(segs@, i as int);
    }
    if !is_container_node(node) {
        *node = match index {
            Some(_) => JsonValue::empty_array(),
            None => JsonValue::empty_object(),
        };
    }
    match node {
        JsonValue::Object(entries) => {
            let ghost before = *entries;
            let ghost e = entries_model(entries@);
            proof {
                lemma_model_object(before);
            }
            match find_key(entries, seg) {
                Some(k) => {
                    proof {
                        lemma_key_index(e, seg@);
                    }
                    set_at(&mut entries[k].1, segs, i + 1, value);
                    proof {
                        lemma_model_object(*entries);
                        assert(entries_model(entries@) =~= e.update(
                            k as int,
                            (seg@, set_segments(e[k as int].1, rest, val)),
                        ));
                    }
                },
                None => {
                    let mut child = JsonValue::Null;
                    set_at(&mut child, segs, i + 1, value);
                    entries.push((seg.clone(), child));
                    proof {
                        lemma_model_object(*entries);
                        assert(entries_model(entries@) =~= e.push(
                            (seg@, set_segments(Json::Null, rest, val)),
                        ));
                    }
                },
            }
        },
        JsonValue::Array(items) => {
            let ghost a = items_model(items@);
            proof {
                lemma_model_array(*items);
            }
            match index {
                Some(n) => {
                    while items.len() <= n
                        invariant
                            items.len() >= a.len(),
                            items.len() == a.len() || items.len() <= n + 1,
                            items_model(items@) == a + Seq::new(
                                (items.len() - a.len()) as nat,
                                |j: int| Json::Null,
                            ),
                        decreases n + 1 - items.len(),
                    {
                        let ghost prev = items_model(items@);
                        items.push(JsonValue::Null);
                        proof {
                            assert(items_model(items@) =~= prev.push(Json::Null));
                            assert(items_model(items@) =~= a + Seq::new(
                                (items.len() - a.len()) as nat,
                                |j: int| Json::Null,
                            ));
                        }
                    }
                    let ghost padded = items_model(items@);
                    proof {
                        assert(padded =~= pad_nulls(a, (n + 1) as nat));
                    }
                    set_at(&mut items[n], segs, i + 1, value);
                    proof {
                        lemma_model_array(*items);
                        assert(items_model(items@) =~= padded.update(
                            n as int,
                            set_segments(padded[n as int], rest, val),
                        ));
                    }
                },
                None => {},
            }
        },
        _ => {},
    }
}

/// Writes `value` at `path`, creating the containers on the way that are
/// missing.
pub fn set_value_by_path(root: &mut JsonValue, path: &str, value: JsonValue)
    ensures
        final(root)@ == set_path(old(root)@, path@, value@),
{
    if path.unicode_len() == 0 {
        *root = value;
        return ;
    }
    let segs = split_segments(path);
    assert(segments_model(segs@).skip(0) =~= segments_model(segs@));
    set_at(root, &segs, 0, value);
}

fn delete_at(node: &mut JsonValue, segs: &Vec<String>, i: usize)
    requires
        i <= segs.len(),
    ensures
        final(node)@ == delete_segments(old(node)@, segments_model(segs@).skip(i as int)),
    decreases segs.len() - i,
{
    if i == segs.len() {
        return ;
    }
    let seg = &segs[i];
    let last = i + 1 == segs.len();
    let ghost rest = segments_model(segs@).skip(i + 1);
    proof {
        lemma_skip_step(segs@, i as int);
    }
    match node {
        JsonValue::Object(entries) => {
            let ghost e = entries_model(entries@);
            proof {
                lemma_model_object(*entries);
            }
            match find_key(entries, seg) {
                Some(k) => {
                    proof {
                        lemma_key_index(e, seg@);
                    }
                    if last {
                        entries.remove(k);
                        proof {
                            lemma_model_object(*entries);
                            assert(entries_model(entries@) =~= e.remove(k as int));
                        }
                    } else {
                        delete_at(&mut entries[k].1, segs, i + 1);
                        proof {
                            lemma_model_object(*entries);
                            assert(entries_model(entries@) =~= e.update(
                                k as int,
                                (e[k as int].0, delete_segments(e[k as int].1, rest)),
                            ));
                        }
                    }
                },
                None => {},
            }
        },
        JsonValue::Array(items) => {
            let ghost a = items_model(items@);
            proof {
                lemma_model_array(*items);
            }
            match segment_index(seg.as_str()) {
                Some(n) => {
                    if n < items.len() {
                        if last {
                            items.remove(n);
                            proof {
                                lemma_model_array(*items);
                                assert(items_model(items@) =~= a.remove(n as int));
                            }
                        } else {
                            delete_at(&mut items[n], segs, i + 1);
                            proof {
                                lemma_model_array(*items);
                                assert(items_model(items@) =~= a.update(
                                    n as int,
                                    delete_segments(a[n as int], rest),
                                ));
                            }
                        }
                    }
                },
                None => {},
            }
        },
        _ => {},
    }
}

/// Deletes the node at `path`. The empty path leaves the empty object in
/// place of the document.
pub fn delete_value_by_path(root: &mut JsonValue, path: &str)
    ensures
        final(root)@ == delete_path(old(root)@, path@),
{
    if path.unicode_len() == 0 {
        *root = JsonValue::empty_object();
        return ;
    }
    let segs = split_segments(path);
    assert(segments_model(segs@).skip(0) =~= segments_model(segs@));
    delete_at(root, &segs, 0);
}

} // verus!
