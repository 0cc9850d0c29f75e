//! The write-ahead log: one record for each change, one record on each
//! line, replayed in order.

use crate::codec::{json_text, parse_document, parse_json, write_json};
use crate::envelope::{
    aes_gcm_seal, decrypt_value, envelope_json, is_sealed_with, opened, seal,
    sealing_fails_with, KEY_LENGTH, NONCE_LENGTH,
};
use crate::error::DbError;
use crate::json::{
    entries_model, keys_unique, lemma_model_object, object_field, text_equals, well_formed,
    Json, JsonValue,
};
use crate::path::{delete_path, delete_value_by_path, set_path, set_value_by_path};
use crate::path_laws::{lemma_delete_well_formed, lemma_set_well_formed};
use vstd::prelude::*;
use vstd::slice::{slice_subrange, slice_to_vec};
use vstd::string::*;

verus! {

/// A change to the document.
#[derive(Debug)]
pub enum Operation {
    /// Write `value` at `path`.
    Put { path: String, value: JsonValue },
    /// Delete what is at `path`.
    Delete { path: String },
}

/// The mathematical content of a change.
pub enum Change {
    Put { path: Seq<char>, value: Json },
    Delete { path: Seq<char> },
}

impl View for Operation {
    type V = Change;

    open spec fn view(&self) -> Change {
        match self {
            Operation::Put { path, value } => Change::Put { path: path@, value: value@ },
            Operation::Delete { path } => Change::Delete { path: path@ },
        }
    }
}

impl Change {
    /// A change is well formed when the value it writes is.
    pub open spec fn wf(self) -> bool {
        match self {
            Change::Put { path, value } => well_formed(value),
            Change::Delete { path } => true,
        }
    }
}

/// The document after a change.
pub open spec fn apply_change(tree: Json, change: Change) -> Json {
    match change {
        Change::Put { path, value } => set_path(tree, path, value),
        Change::Delete { path } => delete_path(tree, path),
    }
}

/// The document after a list of changes, made in order.
pub open spec fn apply_changes(tree: Json, changes: Seq<Change>) -> Json
    decreases changes.len(),
{
    if changes.len() == 0 {
        tree
    } else {
        apply_change(apply_changes(tree, changes.drop_last()), changes.last())
    }
}

/// A well-formed change leaves a well-formed document well formed.
pub proof fn lemma_apply_well_formed(tree: Json, change: Change)
    requires
        well_formed(tree),
        change.wf(),
    ensures
        well_formed(apply_change(tree, change)),
{
    match change {
        Change::Put { path, value } => lemma_set_well_formed(tree, path, value),
        Change::Delete { path } => lemma_delete_well_formed(tree, path),
    }
}

/// Makes a change to the document.
pub fn apply_operation(tree: &mut JsonValue, op: &Operation)
    ensures
        final(tree)@ == apply_change(old(tree)@, op@),
{
    match op {
        Operation::Put { path, value } => set_value_by_path(tree, path.as_str(), value.clone()),
        Operation::Delete { path } => delete_value_by_path(tree, path.as_str()),
    }
}

/// A change as a document: an object with the one entry `Set`, which holds
/// `path` and `value`, or with the one entry `Delete`, which holds `path`.
pub open spec fn change_json(change: Change) -> Json {
    match change {
        Change::Put { path, value } => Json::Object(
            seq![
                (
                    "Set"@,
                    Json::Object(seq![("path"@, Json::String(path)), ("value"@, value)]),
                ),
            ],
        ),
        Change::Delete { path } => Json::Object(
            seq![("Delete"@, Json::Object(seq![("path"@, Json::String(path))]))],
        ),
    }
}

/// The change that a document stands for, if it stands for one: an object
/// with one entry, named `Set` or `Delete`, whose value has a string under
/// `path` and, for `Set`, a value under `value`.
pub open spec fn json_change(doc: Json) -> Option<Change> {
    match doc {
        Json::Object(e) => if e.len() == 1 {
            let body = e[0].1;
            match object_field(body, "path"@) {
                Some(Json::String(path)) => if e[0].0 == "Set"@ {
                    match object_field(body, "value"@) {
                        Some(value) => Some(Change::Put { path, value }),
                        None => None,
                    }
                } else if e[0].0 == "Delete"@ {
                    Some(Change::Delete { path })
                } else {
                    None
                },
                _ => None,
            }
        } else {
            None
        },
        _ => None,
    }
}

proof fn lemma_change_json_well_formed(change: Change)
    requires
        change.wf(),
    ensures
        well_formed(change_json(change)),
{
    reveal_strlit("path");
    reveal_strlit("value");
    let outer = change_json(change)->Object_0;
    let inner = outer[0].1->Object_0;
    assert(keys_unique(outer));
    assert(keys_unique(inner)) by {
        if inner.len() == 2 {
            assert(inner[0].0.len() == 4 && inner[1].0.len() == 5);
        }
    }
    assert forall|i: int| 0 <= i < inner.len() implies well_formed((#[trigger] inner[i]).1) by {}
    assert(well_formed(outer[0].1));
    assert forall|i: int| 0 <= i < outer.len() implies well_formed((#[trigger] outer[i]).1) by {}
}

/// The document that stands for a change.
pub fn operation_value(op: &Operation) -> (r: JsonValue)
    ensures
        r@ == change_json(op@),
{
    let mut body: Vec<(String, JsonValue)> = Vec::new();
    let tag = match op {
        Operation::Put { path, value } => {
            body.push((String::from_str("path"), JsonValue::String(path.clone())));
            body.push((String::from_str("value"), value.clone()));
            String::from_str("Set")
        },
        Operation::Delete { path } => {
            body.push((String::from_str("path"), JsonValue::String(path.clone())));
            String::from_str("Delete")
        },
    };
    let mut outer: Vec<(String, JsonValue)> = Vec::new();
    proof {
        lemma_model_object(body);
        assert(entries_model(body@) =~= change_json(op@)->Object_0[0].1->Object_0);
    }
    outer.push((tag, JsonValue::Object(body)));
    proof {
        lemma_model_object(outer);
        assert(entries_model(outer@) =~= change_json(op@)->Object_0);
    }
    JsonValue::Object(outer)
}

/// The change that a document stands for, if it stands for one.
pub fn decode_operation(doc: &JsonValue) -> (r: Option<Operation>)
    ensures
        match r {
            Some(op) => json_change(doc@) == Some(op@),
            None => json_change(doc@) is None,
        },
{
    match doc {
        JsonValue::Object(entries) => {
            proof {
                lemma_model_object(*entries);
            }
            if entries.len() != 1 {
                return None;
            }
            let body = &entries[0].1;
            let path = match body.field("path") {
                Some(JsonValue::String(p)) => p.clone(),
                _ => {
                    return None;
                },
            };
            if text_equals(entries[0].0.as_str(), "Set") {
                match body.field("value") {
                    Some(value) => Some(Operation::Put { path, value: value.clone() }),
                    None => None,
                }
            } else if text_equals(entries[0].0.as_str(), "Delete") {
                Some(Operation::Delete { path })
            } else {
                None
            }
        },
        _ => None,
    }
}

/// The line feed that ends a record.
pub const LINE_FEED: u8 = 10;

/// The record of a change in a log without encryption: the compact JSON
/// text of the change.
pub open spec fn plain_record(change: Change) -> Seq<u8> {
    json_text(change_json(change))
}

/// The record of a change in an encrypted log: the compact JSON text of the
/// envelope of the plain record, sealed under the key and a nonce.
pub open spec fn sealed_record(change: Change, key: Seq<u8>, nonce: Seq<u8>) -> Seq<u8> {
    json_text(envelope_json(nonce, aes_gcm_seal(key, nonce, plain_record(change))))
}

/// Whether a line is the record of the change sealed under the key and the
/// nonce, with the line feed that ends it.
pub open spec fn is_sealed_line(line: Seq<u8>, change: Change, key: Seq<u8>, nonce: Seq<u8>) -> bool {
    nonce.len() == NONCE_LENGTH && line == sealed_record(change, key, nonce).push(LINE_FEED)
}

/// Whether a line is the record of the change sealed under the key and some
/// nonce of 12 bytes, with the line feed that ends it.
pub open spec fn is_sealed_record(line: Seq<u8>, change: Change, key: Seq<u8>) -> bool {
    exists|nonce: Seq<u8>| is_sealed_line(line, change, key, nonce)
}

/// Whether a line is a record of the change, with the line feed that ends
/// it.
pub open spec fn is_record_line(line: Seq<u8>, change: Change, key: Option<Seq<u8>>) -> bool {
    match key {
        None => line == plain_record(change).push(LINE_FEED),
        Some(k) => is_sealed_record(line, change, k),
    }
}

/// Whether recording the change may fail with the error. Without a key
/// nothing fails; with a key, sealing the plain record may.
pub open spec fn record_fails_with(e: DbError, change: Change, key: Option<Seq<u8>>) -> bool {
    key is Some && sealing_fails_with(e, plain_record(change))
}

/// Whether recording one of the changes may fail with the error.
pub open spec fn records_fail_with(e: DbError, changes: Seq<Change>, key: Option<Seq<u8>>) -> bool {
    exists|i: int| 0 <= i < changes.len() && record_fails_with(e, #[trigger] changes[i], key)
}

/// The line that records a change in the log: the change as compact JSON
/// text, sealed in an envelope where there is a key, and a line feed.
/// Without a key this succeeds. With a key it fails only where the random
/// source gives no nonce, or where the plain record is longer than the
/// cipher takes.
pub fn encode_record(op: &Operation, key: &Option<Vec<u8>>) -> (r: Result<Vec<u8>, DbError>)
    requires
        op@.wf(),
        key matches Some(k) ==> k@.len() == KEY_LENGTH,
    ensures
        key is None ==> r is Ok,
        match r {
            Ok(line) => is_record_line(
                line@,
                op@,
                match key {
                    Some(k) => Some(k@),
                    None => None,
                },
            ),
            Err(e) => record_fails_with(
                e,
                op@,
                match key {
                    Some(k) => Some(k@),
                    None => None,
                },
            ),
        },
{
    let doc = operation_value(op);
    proof {
        lemma_change_json_well_formed(op@);
    }
    let plain = match write_json(&doc, false) {
        Ok(text) => text,
        Err(e) => {
            return Err(e);
        },
    };
    let ghost mut witness: Seq<u8> = Seq::empty();
    let mut line = match key {
        Some(k) => {
            let envelope = match seal(k.as_slice(), plain.as_slice()) {
                Ok(v) => v,
                Err(e) => {
                    return Err(e);
                },
            };
            let text = match write_json(&envelope, false) {
                Ok(text) => text,
                Err(e) => {
                    return Err(e);
                },
            };
            proof {
                let nonce = choose|nonce: Seq<u8>| is_sealed_with(envelope@, k@, plain@, nonce);
                assert(text@ == sealed_record(op@, k@, nonce));
                witness = nonce;
            }
            text
        },
        None => plain,
    };
    line.push(LINE_FEED);
    proof {
        if let Some(k) = key {
            assert(is_sealed_line(line@, op@, k@, witness));
        }
    }
    Ok(line)
}

/// The lines of a log: the stretches between its line feeds.
pub open spec fn split_lines(log: Seq<u8>) -> Seq<Seq<u8>>
    decreases log.len(),
{
    if log.len() == 0 {
        seq![Seq::empty()]
    } else {
        let before = split_lines(log.drop_last());
        if log.last() == LINE_FEED {
            before.push(Seq::empty())
        } else {
            before.update(before.len() - 1, before.last().push(log.last()))
        }
    }
}

/// The change that a line of the log records, if it records one. An empty
/// line records nothing, nor does a line that is no JSON text, nor one whose
/// document stands for no change. In an encrypted log the line is an
/// envelope, and what it holds is read in the same way; an envelope that
/// cannot be opened records nothing.
pub open spec fn record_change(line: Seq<u8>, key: Option<Seq<u8>>) -> Option<Change> {
    if line.len() == 0 {
        None
    } else {
        match parse_document(line) {
            None => None,
            Some(doc) => match key {
                None => json_change(doc),
                Some(k) => match opened(doc, k) {
                    Ok(plaintext) => match parse_document(plaintext) {
                        Some(inner) => json_change(inner),
                        None => None,
                    },
                    Err(_) => None,
                },
            },
        }
    }
}

/// The document after the changes that the lines record, made in order. A
/// line that records nothing is passed over.
pub open spec fn replay_lines(tree: Json, lines: Seq<Seq<u8>>, key: Option<Seq<u8>>) -> Json
    decreases lines.len(),
{
    if lines.len() == 0 {
        tree
    } else {
        let before = replay_lines(tree, lines.drop_last(), key);
        match record_change(lines.last(), key) {
            Some(change) => apply_change(before, change),
            None => before,
        }
    }
}

/// The document after the log has been replayed over it.
pub open spec fn replay(tree: Json, log: Seq<u8>, key: Option<Seq<u8>>) -> Json {
    replay_lines(tree, split_lines(log), key)
}

/// The change that a line of the log records, if it records one.
pub fn decode_record(line: &[u8], key: &Option<Vec<u8>>) -> (r: Option<Operation>)
    requires
        key matches Some(k) ==> k@.len() == KEY_LENGTH,
    ensures
        match r {
            Some(op) => record_change(
                line@,
                match key {
                    Some(k) => Some(k@),
                    None => None,
                },
            ) == Some(op@) && op@.wf(),
            None => record_change(
                line@,
                match key {
                    Some(k) => Some(k@),
                    None => None,
                },
            ) is None,
        },
{
    if line.len() == 0 {
        return None;
    }
    let doc = match parse_json(line) {
        Some(v) => v,
        None => {
            return None;
        },
    };
    let inner = match key {
        Some(k) => {
            let plaintext = match decrypt_value(&doc, k.as_slice()) {
                Ok(p) => p,
                Err(_) => {
                    return None;
                },
            };
            match parse_json(plaintext.as_slice()) {
                Some(v) => v,
                None => {
                    return None;
                },
            }
        },
        None => doc,
    };
    let r = decode_operation(&inner);
    proof {
        lemma_json_change_well_formed(inner@);
    }
    r
}

proof fn lemma_json_change_well_formed(doc: Json)
    requires
        well_formed(doc),
    ensures
        json_change(doc) matches Some(c) ==> c.wf(),
{
    if json_change(doc) is Some {
        let e = doc->Object_0;
        let body = e[0].1;
        assert(well_formed(body));
        if json_change(doc)->0 is Put {
            let inner = body->Object_0;
            crate::json::lemma_key_index(inner, "value"@);
            let i = crate::json::key_index(inner, "value"@)->0;
            assert(well_formed(inner[i].1));
        }
    }
}

/// Cuts a log into its lines.
pub fn log_lines(log: &[u8]) -> (lines: Vec<Vec<u8>>)
    ensures
        lines_model(lines@) == split_lines(log@),
{
    let n = log.len();
    let mut lines: Vec<Vec<u8>> = Vec::new();
    let mut start: usize = 0;
    let mut i: usize = 0;
    proof {
        assert(log@.take(0) =~= Seq::<u8>::empty());
        assert(log@.subrange(0, 0) =~= Seq::<u8>::empty());
        assert(lines_model(lines@).push(Seq::<u8>::empty()) =~= seq![Seq::<u8>::empty()]);
    }
    while i < n
        invariant
            start <= i <= n,
            n == log@.len(),
            split_lines(log@.take(i as int)) == lines_model(lines@).push(
                log@.subrange(start as int, i as int),
            ),
        decreases n - i,
    {
        let c = log[i];
        proof {
            assert(log@.take(i + 1).drop_last() =~= log@.take(i as int));
            assert(log@.take(i + 1).last() == c);
        }
        if c == LINE_FEED {
            let ghost before = lines_model(lines@);
            let piece = slice_to_vec(slice_subrange(log, start, i));
            lines.push(piece);
            start = i + 1;
            proof {
                assert(lines_model(lines@) =~= before.push(piece@));
                assert(log@.subrange(start as int, i + 1) =~= Seq::<u8>::empty());
            }
        } else {
            proof {
                let before = lines_model(lines@).push(log@.subrange(start as int, i as int));
                assert(log@.subrange(start as int, i as int).push(c) =~= log@.subrange(
                    start as int,
                    i + 1,
                ));
                assert(before.update(before.len() - 1, before.last().push(c)) =~= lines_model(
                    lines@,
                ).push(log@.subrange(start as int, i + 1)));
            }
        }
        i += 1;
    }
    let ghost before = lines_model(lines@);
    let piece = slice_to_vec(slice_subrange(log, start, n));
    lines.push(piece);
    proof {
        assert(log@.take(n as int) =~= log@);
        assert(lines_model(lines@) =~= before.push(piece@));
    }
    lines
}

/// The contents of a list of lines.
pub open spec fn lines_model(lines: Seq<Vec<u8>>) -> Seq<Seq<u8>> {
    Seq::new(lines.len(), |i: int| lines[i]@)
}

/// Replays a log over the document: every line that records a change makes
/// that change, in the order of the lines.
pub fn replay_log(tree: &mut JsonValue, log: &[u8], key: &Option<Vec<u8>>)
    requires
        key matches Some(k) ==> k@.len() == KEY_LENGTH,
    ensures
        final(tree)@ == replay(
            old(tree)@,
            log@,
            match key {
                Some(k) => Some(k@),
                None => None,
            },
        ),
        well_formed(old(tree)@) ==> well_formed(final(tree)@),
{
    let ghost start = tree@;
    let ghost k = match key {
        Some(k) => Some(k@),
        None => None,
    };
    let lines = log_lines(log);
    let ghost all = lines_model(lines@);
    let mut i: usize = 0;
    assert(all.take(0) =~= Seq::<Seq<u8>>::empty());
    while i < lines.len()
        invariant
            i <= lines.len(),
            all == lines_model(lines@),
            key matches Some(k) ==> k@.len() == KEY_LENGTH,
            k == match key {
                Some(k) => Some(k@),
                None => None,
            },
            tree@ == replay_lines(start, all.take(i as int), k),
            well_formed(start) ==> well_formed(tree@),
        decreases lines.len() - i,
    {
        proof {
            assert(all.take(i + 1).drop_last() =~= all.take(i as int));
            assert(all.take(i + 1).last() == lines@[i as int]@);
        }
        match decode_record(lines[i].as_slice(), key) {
            Some(op) => {
                proof {
                    if well_formed(tree@) {
                        lemma_apply_well_formed(tree@, op@);
                    }
                }
                apply_operation(tree, &op);
            },
            None => {},
        }
        i += 1;
    }
    assert(all.take(lines.len() as int) =~= all);
}

} // verus!
