//! The store: a document in memory, the pending part of its write-ahead
//! log, and the operations on them. The store reads and writes no file; it
//! takes the bytes of a snapshot and of a log, and hands out the bytes to
//! write.
//!
//! A change is made in one step by `set`, `delete` and `batch`, which keep
//! its records pending until they are taken out, or in two, by `record` and
//! then `apply`, so that a host can put the record on disk before the
//! document changes.

use crate::codec::{document_text, json_text, parse_document, parse_json, write_json};
use crate::envelope::{
    aes_gcm_seal, decrypt_value, envelope_json, get_string_field, is_sealed_with, opened, seal,
    sealing_fails_with, string_field, KEY_LENGTH, NONCE_LENGTH,
};
use crate::error::DbError;
use crate::find::{find_first, find_items, find_result, first_match, plan_of, collection_items, QueryOptions};
use crate::hexcode::{hex_bytes, hex_decode, is_hex_text};
use crate::json::{
    items_model, keys_unique, lemma_model_array, object_field, text_equals, well_formed, Json,
    JsonValue,
};
use crate::path::{get_path, get_value_by_path};
use crate::wal::{
    apply_change, apply_changes, apply_operation, encode_record, is_record_line,
    lemma_apply_well_formed, record_fails_with, records_fail_with, replay, replay_log, Change,
    Operation,
};
use vstd::prelude::*;
use vstd::string::*;

verus! {

/// The store.
pub struct DatabaseCore {
    data: JsonValue,
    encryption_key: Option<Vec<u8>>,
    pretty_print: bool,
    use_wal: bool,
    wal: Vec<u8>,
}

/// The mathematical content of the store.
pub struct DatabaseState {
    /// The document.
    pub data: Json,
    /// The key, where the store encrypts.
    pub key: Option<Seq<u8>>,
    /// Whether a snapshot without encryption is indented.
    pub pretty: bool,
    /// Whether changes are logged.
    pub use_wal: bool,
    /// The records that were logged and not yet taken out.
    pub wal: Seq<u8>,
}

impl DatabaseState {
    /// The document is well formed, and the key has 32 bytes.
    pub open spec fn wf(self) -> bool {
        &&& well_formed(self.data)
        &&& self.key is Some ==> self.key->0.len() == KEY_LENGTH
    }
}

/// The bytes of a key.
pub open spec fn key_model(key: Option<Vec<u8>>) -> Option<Seq<u8>> {
    match key {
        Some(k) => Some(k@),
        None => None,
    }
}

/// The document that a snapshot holds under the key of the store, or the
/// failure to read it. A snapshot is JSON text: the document itself without
/// a key, and with a key an envelope whose plaintext is the JSON text of the
/// document.
pub open spec fn snapshot_document(bytes: Seq<u8>, key: Option<Seq<u8>>) -> Result<Json, DbError> {
    match parse_document(bytes) {
        None => Err(DbError::InvalidSnapshot),
        Some(doc) => match key {
            None => Ok(doc),
            Some(k) => match opened(doc, k) {
                Err(e) => Err(e),
                Ok(plaintext) => match parse_document(plaintext) {
                    Some(inner) => Ok(inner),
                    None => Err(DbError::InvalidPlaintext),
                },
            },
        },
    }
}

/// The document that loading gives: that of the snapshot, or the empty
/// object where there is no snapshot, with the log replayed over it where
/// there is a log.
pub open spec fn loaded_document(
    snapshot: Option<Seq<u8>>,
    log: Option<Seq<u8>>,
    key: Option<Seq<u8>>,
) -> Result<Json, DbError> {
    let base = match snapshot {
        Some(bytes) => snapshot_document(bytes, key),
        None => Ok(Json::Object(Seq::empty())),
    };
    match base {
        Ok(doc) => match log {
            Some(l) => Ok(replay(doc, l, key)),
            None => Ok(doc),
        },
        Err(e) => Err(e),
    }
}

/// Whether the bytes are the snapshot of the document sealed under the key
/// and the nonce.
pub open spec fn is_sealed_snapshot(bytes: Seq<u8>, data: Json, key: Seq<u8>, nonce: Seq<u8>) -> bool {
    nonce.len() == NONCE_LENGTH && bytes == json_text(
        envelope_json(nonce, aes_gcm_seal(key, nonce, json_text(data))),
    )
}

/// Whether the bytes are the snapshot of the document sealed under the key
/// and some nonce of 12 bytes.
pub open spec fn is_encrypted_snapshot(bytes: Seq<u8>, data: Json, key: Seq<u8>) -> bool {
    exists|nonce: Seq<u8>| is_sealed_snapshot(bytes, data, key, nonce)
}

/// Whether the bytes are a snapshot of the store: without a key the JSON
/// text of the document, indented or compact as the store is set up; with a
/// key the compact JSON text of an envelope that seals the compact JSON text
/// of the document under the key and some nonce of 12 bytes.
pub open spec fn is_snapshot(bytes: Seq<u8>, state: DatabaseState) -> bool {
    match state.key {
        None => bytes == document_text(state.data, state.pretty),
        Some(k) => is_encrypted_snapshot(bytes, state.data, k),
    }
}

/// Whether the bytes are the records of the changes, one after the other,
/// the record of each change lying between one cut and the next.
pub open spec fn records_cut_at(
    bytes: Seq<u8>,
    changes: Seq<Change>,
    key: Option<Seq<u8>>,
    cuts: Seq<int>,
) -> bool {
    &&& cuts.len() == changes.len() + 1
    &&& cuts[0] == 0
    &&& cuts[changes.len() as int] == bytes.len()
    &&& forall|i: int|
        0 <= i < changes.len() ==> cut_holds(bytes, #[trigger] changes[i], key, cuts[i], cuts[i + 1])
}

/// Whether the stretch of the bytes between two cuts is a record of the
/// change.
pub open spec fn cut_holds(
    bytes: Seq<u8>,
    change: Change,
    key: Option<Seq<u8>>,
    from: int,
    to: int,
) -> bool {
    0 <= from <= to <= bytes.len() && is_record_line(bytes.subrange(from, to), change, key)
}

/// Whether the bytes are the records of the changes, one after the other.
pub open spec fn is_records(bytes: Seq<u8>, changes: Seq<Change>, key: Option<Seq<u8>>) -> bool {
    exists|cuts: Seq<int>| records_cut_at(bytes, changes, key, cuts)
}

/// The records of some changes, with the record of one more change behind
/// them, are the records of all of them.
pub proof fn lemma_records_extend(
    bytes: Seq<u8>,
    changes: Seq<Change>,
    key: Option<Seq<u8>>,
    cuts: Seq<int>,
    record: Seq<u8>,
    change: Change,
)
    requires
        records_cut_at(bytes, changes, key, cuts),
        is_record_line(record, change, key),
    ensures
        records_cut_at(
            bytes + record,
            changes.push(change),
            key,
            cuts.push((bytes.len() + record.len()) as int),
        ),
{
    let all = bytes + record;
    let more = changes.push(change);
    let marks = cuts.push((bytes.len() + record.len()) as int);
    assert forall|i: int| 0 <= i < more.len() implies cut_holds(
        all,
        #[trigger] more[i],
        key,
        marks[i],
        marks[i + 1],
    ) by {
        if i < changes.len() {
            assert(cut_holds(bytes, changes[i], key, cuts[i], cuts[i + 1]));
            assert(more[i] == changes[i]);
            assert(marks[i] == cuts[i] && marks[i + 1] == cuts[i + 1]);
            assert(all.subrange(marks[i], marks[i + 1]) =~= bytes.subrange(cuts[i], cuts[i + 1]));
        } else {
            assert(marks[i] == bytes.len());
            assert(all.subrange(marks[i], marks[i + 1]) =~= record);
        }
    }
}

/// Whether the pending log `after` is the pending log `before` with the
/// records of the changes behind it, where the store logs, and the same
/// where it does not.
pub open spec fn logged(
    before: Seq<u8>,
    after: Seq<u8>,
    changes: Seq<Change>,
    state: DatabaseState,
) -> bool {
    if state.use_wal {
        &&& after.len() >= before.len()
        &&& after.take(before.len() as int) == before
        &&& is_records(after.skip(before.len() as int), changes, state.key)
    } else {
        after == before
    }
}

/// The change that an item of a batch asks for, if it asks for one. An item
/// names its kind under `type` and its path under `path`, each the empty
/// text where it is missing or no string. The kind `set` writes what the
/// item has under `value`, or `null`; the kind `delete` deletes; any other
/// kind asks for nothing.
pub open spec fn batch_change(item: Json) -> Option<Change> {
    let kind = match string_field(item, "type"@) {
        Some(s) => s,
        None => Seq::empty(),
    };
    let path = match string_field(item, "path"@) {
        Some(s) => s,
        None => Seq::empty(),
    };
    if kind == "set"@ {
        Some(
            Change::Put {
                path,
                value: match object_field(item, "value"@) {
                    Some(v) => v,
                    None => Json::Null,
                },
            },
        )
    } else if kind == "delete"@ {
        Some(Change::Delete { path })
    } else {
        None
    }
}

/// The changes that the items of a batch ask for, in order.
pub open spec fn batch_changes(items: Seq<Json>) -> Seq<Change>
    decreases items.len(),
{
    if items.len() == 0 {
        Seq::empty()
    } else {
        let before = batch_changes(items.drop_last());
        match batch_change(items.last()) {
            Some(c) => before.push(c),
            None => before,
        }
    }
}

/// The snapshot to load from when a temporary file may have been left
/// behind: the temporary file where there is one, and the main file
/// otherwise. A temporary file is a complete snapshot that was not yet put
/// in the place of the main file.
pub fn recover_snapshot(temp: Option<Vec<u8>>, main: Option<Vec<u8>>) -> (r: Option<Vec<u8>>)
    ensures
        temp is Some ==> r == temp,
        temp is None ==> r == main,
{
    match temp {
        Some(bytes) => Some(bytes),
        None => main,
    }
}

impl View for DatabaseCore {
    type V = DatabaseState;

    closed spec fn view(&self) -> DatabaseState {
        DatabaseState {
            data: self.data@,
            key: key_model(self.encryption_key),
            pretty: self.pretty_print,
            use_wal: self.use_wal,
            wal: self.wal@,
        }
    }
}

fn batch_operation(item: &JsonValue) -> (r: Option<Operation>)
    ensures
        match r {
            Some(op) => batch_change(item@) == Some(op@),
            None => batch_change(item@) is None,
        },
        well_formed(item@) ==> (r matches Some(op) ==> op@.wf()),
{
    let kind = match get_string_field(item, "type") {
        Some(s) => s.clone(),
        None => String::from_str(""),
    };
    let path = match get_string_field(item, "path") {
        Some(s) => s.clone(),
        None => String::from_str(""),
    };
    proof {
        reveal_strlit("");
        assert(""@ =~= Seq::<char>::empty());
    }
    if text_equals(kind.as_str(), "set") {
        let value = match item.field("value") {
            Some(v) => v.clone(),
            None => JsonValue::Null,
        };
        proof {
            if well_formed(item@) && object_field(item@, "value"@) is Some {
                let e = item@->Object_0;
                crate::json::lemma_key_index(e, "value"@);
                let i = crate::json::key_index(e, "value"@)->0;
                assert(well_formed(e[i].1));
            }
        }
        Some(Operation::Put { path, value })
    } else if text_equals(kind.as_str(), "delete") {
        Some(Operation::Delete { path })
    } else {
        None
    }
}

/// The views of a list of operations.
pub open spec fn operations_model(ops: Seq<Operation>) -> Seq<Change> {
    Seq::new(ops.len(), |i: int| ops[i]@)
}

/// The operations that the items of a batch ask for, in order. An item
/// that asks for nothing is passed over.
pub fn batch_operations(ops: &Vec<JsonValue>) -> (r: Vec<Operation>)
    requires
        forall|i: int| 0 <= i < ops.len() ==> well_formed(#[trigger] ops[i]@),
    ensures
        operations_model(r@) == batch_changes(items_model(ops@)),
        forall|j: int| 0 <= j < r.len() ==> (#[trigger] r[j])@.wf(),
{
    let ghost items = items_model(ops@);
    let mut operations: Vec<Operation> = Vec::new();
    let mut i: usize = 0;
    proof {
        assert(items.take(0) =~= Seq::<Json>::empty());
        assert(operations_model(operations@) =~= Seq::<Change>::empty());
    }
    while i < ops.len()
        invariant
            i <= ops.len(),
            items == items_model(ops@),
            forall|j: int| 0 <= j < ops.len() ==> well_formed(#[trigger] ops[j]@),
            operations_model(operations@) == batch_changes(items.take(i as int)),
            forall|j: int| 0 <= j < operations.len() ==> (#[trigger] operations[j])@.wf(),
        decreases ops.len() - i,
    {
        proof {
            assert(items.take(i + 1).drop_last() =~= items.take(i as int));
            assert(items.take(i + 1).last() == ops[i as int]@);
        }
        let ghost so_far = operations_model(operations@);
        match batch_operation(&ops[i]) {
            Some(op) => {
                operations.push(op);
                proof {
                    assert(operations_model(operations@) =~= so_far.push(op@));
                }
            },
            None => {},
        }
        i += 1;
    }
    proof {
        assert(items.take(ops.len() as int) =~= items);
    }
    operations
}

/// The items of a batch that is given as JSON text, where the text is an
/// array.
pub open spec fn batch_text_items(text: Seq<char>) -> Option<Seq<Json>> {
    match parse_document(vstd::utf8::encode_utf8(text)) {
        Some(Json::Array(items)) => Some(items),
        _ => None,
    }
}

/// Reads a batch that is given as JSON text. The text must be an array.
pub fn batch_items(ops_json: &str) -> (r: Result<Vec<JsonValue>, DbError>)
    ensures
        match r {
            Ok(items) => batch_text_items(ops_json@) == Some(items_model(items@)) && forall|
                i: int,
            |
                0 <= i < items.len() ==> well_formed(#[trigger] items[i]@),
            Err(e) => batch_text_items(ops_json@) is None && e == DbError::InvalidBatch,
        },
{
    match parse_json(ops_json.as_bytes()) {
        Some(JsonValue::Array(items)) => {
            proof {
                lemma_model_array(items);
                assert forall|i: int| 0 <= i < items.len() implies well_formed(
                    #[trigger] items[i]@,
                ) by {
                    assert(items_model(items@)[i] == items[i]@);
                    assert(JsonValue::Array(items)@->Array_0[i] == items[i]@);
                }
            }
            Ok(items)
        },
        _ => Err(DbError::InvalidBatch),
    }
}

impl DatabaseCore {
    /// A store with the empty object as its document. The key is given in
    /// hexadecimal and must have 32 bytes; without a key the store does not
    /// encrypt. Snapshots are indented and changes are logged unless asked
    /// otherwise.
    pub fn new(
        encryption_key: Option<String>,
        pretty_print: Option<bool>,
        use_wal: Option<bool>,
    ) -> (r: Result<DatabaseCore, DbError>)
        ensures
            match r {
                Ok(db) => {
                    &&& db@.wf()
                    &&& db@.data == Json::Object(Seq::empty())
                    &&& db@.wal == Seq::<u8>::empty()
                    &&& db@.pretty == match pretty_print {
                        Some(p) => p,
                        None => true,
                    }
                    &&& db@.use_wal == match use_wal {
                        Some(w) => w,
                        None => true,
                    }
                    &&& match encryption_key {
                        Some(k) => is_hex_text(k@) && hex_bytes(k@).len() == KEY_LENGTH && db@.key
                            == Some(hex_bytes(k@)),
                        None => db@.key is None,
                    }
                },
                Err(e) => encryption_key is Some && (if !is_hex_text(encryption_key->0@) {
                    e == DbError::InvalidKeyHex
                } else {
                    hex_bytes(encryption_key->0@).len() != KEY_LENGTH && e
                        == DbError::InvalidKeyLength
                }),
            },
    {
        let key = match encryption_key {
            Some(text) => match hex_decode(text.as_str()) {
                Ok(bytes) => {
                    if bytes.len() != KEY_LENGTH {
                        return Err(DbError::InvalidKeyLength);
                    }
                    Some(bytes)
                },
                Err(_) => {
                    return Err(DbError::InvalidKeyHex);
                },
            },
            None => None,
        };
        let data = JsonValue::empty_object();
        proof {
            assert(keys_unique(Seq::<(Seq<char>, Json)>::empty()));
        }
        Ok(
            DatabaseCore {
                data,
                encryption_key: key,
                pretty_print: match pretty_print {
                    Some(p) => p,
                    None => true,
                },
                use_wal: match use_wal {
                    Some(w) => w,
                    None => true,
                },
                wal: Vec::new(),
            },
        )
    }

    fn read_snapshot(&self, bytes: &[u8]) -> (r: Result<JsonValue, DbError>)
        requires
            self@.wf(),
        ensures
            match r {
                Ok(doc) => snapshot_document(bytes@, self@.key) == Ok::<Json, DbError>(doc@)
                    && well_formed(doc@),
                Err(e) => snapshot_document(bytes@, self@.key) == Err::<Json, DbError>(e),
            },
    {
        let doc = match parse_json(bytes) {
            Some(v) => v,
            None => {
                return Err(DbError::InvalidSnapshot);
            },
        };
        match &self.encryption_key {
            None => Ok(doc),
            Some(k) => {
                let plaintext = match decrypt_value(&doc, k.as_slice()) {
                    Ok(p) => p,
                    Err(e) => {
                        return Err(e);
                    },
                };
                match parse_json(plaintext.as_slice()) {
                    Some(inner) => Ok(inner),
                    None => Err(DbError::InvalidPlaintext),
                }
            },
        }
    }

    /// Loads the document: from the snapshot, or the empty object where
    /// there is none, and then replays the log over it where there is one.
    /// Where the snapshot cannot be read, the store stays as it is.
    pub fn load(&mut self, snapshot: Option<Vec<u8>>, log: Option<Vec<u8>>) -> (r: Result<
        (),
        DbError,
    >)
        requires
            old(self)@.wf(),
        ensures
            final(self)@.wf(),
            match r {
                Ok(()) => loaded_document(key_model(snapshot), key_model(log), old(self)@.key)
                    == Ok::<Json, DbError>(final(self)@.data) && final(self)@ == (DatabaseState {
                    data: final(self)@.data,
                    ..old(self)@
                }),
                Err(e) => loaded_document(key_model(snapshot), key_model(log), old(self)@.key)
                    == Err::<Json, DbError>(e) && final(self)@ == old(self)@,
            },
    {
        let mut data = match snapshot {
            Some(bytes) => match self.read_snapshot(bytes.as_slice()) {
                Ok(doc) => doc,
                Err(e) => {
                    return Err(e);
                },
            },
            None => {
                proof {
                    assert(keys_unique(Seq::<(Seq<char>, Json)>::empty()));
                }
                JsonValue::empty_object()
            },
        };
        match log {
            Some(bytes) => {
                replay_log(&mut data, bytes.as_slice(), &self.encryption_key);
            },
            None => {},
        }
        self.data = data;
        Ok(())
    }

    /// The snapshot of the store, to be written in place of the one on disk.
    /// Without a key this succeeds. With a key it fails only where the
    /// random source gives no nonce, or where the text of the document is
    /// longer than the cipher takes.
    pub fn save(&self) -> (r: Result<Vec<u8>, DbError>)
        requires
            self@.wf(),
        ensures
            self@.key is None ==> r is Ok,
            match r {
                Ok(bytes) => is_snapshot(bytes@, self@),
                Err(e) => self@.key is Some && sealing_fails_with(e, json_text(self@.data)),
            },
    {
        match &self.encryption_key {
            None => write_json(&self.data, self.pretty_print),
            Some(k) => {
                let plain = match write_json(&self.data, false) {
                    Ok(text) => text,
                    Err(e) => {
                        return Err(e);
                    },
                };
                let envelope = match seal(k.as_slice(), plain.as_slice()) {
                    Ok(v) => v,
                    Err(e) => {
                        return Err(e);
                    },
                };
                let text = match write_json(&envelope, false) {
                    Ok(text) => text,
                    Err(e) => {
                        return Err(e);
                    },
                };
                proof {
                    let nonce = choose|nonce: Seq<u8>|
                        is_sealed_with(envelope@, k@, plain@, nonce);
                    assert(is_sealed_snapshot(text@, self.data@, k@, nonce));
                }
                Ok(text)
            },
        }
    }

    /// Whether the store logs its changes.
    pub fn logs(&self) -> (r: bool)
        ensures
            r == self@.use_wal,
    {
        self.use_wal
    }

    /// The records that were logged since they were last taken out. They
    /// are to be appended to the log on disk.
    pub fn take_wal(&mut self) -> (r: Vec<u8>)
        ensures
            r@ == old(self)@.wal,
            final(self)@ == (DatabaseState { wal: Seq::empty(), ..old(self)@ }),
    {
        let mut out: Vec<u8> = Vec::new();
        out.append(&mut self.wal);
        out
    }

    /// The value at the path, or `null` where there is none. No path, like
    /// the empty path, asks for the whole document.
    pub fn get_value(&self, path: Option<String>) -> (r: JsonValue)
        ensures
            r@ == match get_path(
                self@.data,
                match path {
                    Some(p) => p@,
                    None => Seq::empty(),
                },
            ) {
                Some(v) => v,
                None => Json::Null,
            },
    {
        match path {
            Some(p) => match get_value_by_path(&self.data, p.as_str()) {
                Some(v) => v.clone(),
                None => JsonValue::Null,
            },
            None => self.data.clone(),
        }
    }

    /// Whether there is a value at the path.
    pub fn has(&self, path: String) -> (r: bool)
        ensures
            r == get_path(self@.data, path@) is Some,
    {
        get_value_by_path(&self.data, path.as_str()).is_some()
    }

    /// The line that records a change, to be appended to the log before the
    /// change is made; no bytes where the store does not log. Without a key
    /// this succeeds.
    pub fn record(&self, op: &Operation) -> (r: Result<Vec<u8>, DbError>)
        requires
            self@.wf(),
            op@.wf(),
        ensures
            !self@.use_wal || self@.key is None ==> r is Ok,
            match r {
                Ok(line) => if self@.use_wal {
                    is_record_line(line@, op@, self@.key)
                } else {
                    line@.len() == 0
                },
                Err(e) => self@.use_wal && record_fails_with(e, op@, self@.key),
            },
    {
        if self.use_wal {
            encode_record(op, &self.encryption_key)
        } else {
            Ok(Vec::new())
        }
    }

    /// The lines that record some changes, one after the other, to be
    /// appended to the log before the changes are made; no bytes where the
    /// store does not log. Without a key this succeeds; where one change
    /// cannot be recorded, none is.
    pub fn record_all(&self, ops: &Vec<Operation>) -> (r: Result<Vec<u8>, DbError>)
        requires
            self@.wf(),
            forall|i: int| 0 <= i < ops.len() ==> (#[trigger] ops[i])@.wf(),
        ensures
            !self@.use_wal || self@.key is None ==> r is Ok,
            match r {
                Ok(bytes) => if self@.use_wal {
                    is_records(bytes@, operations_model(ops@), self@.key)
                } else {
                    bytes@.len() == 0
                },
                Err(e) => self@.use_wal && records_fail_with(
                    e,
                    operations_model(ops@),
                    self@.key,
                ),
            },
    {
        let mut buffer: Vec<u8> = Vec::new();
        if !self.use_wal {
            return Ok(buffer);
        }
        let ghost changes = operations_model(ops@);
        let ghost mut cuts: Seq<int> = seq![0int];
        let mut j: usize = 0;
        while j < ops.len()
            invariant
                j <= ops.len(),
                self@.wf(),
                self@.use_wal,
                changes == operations_model(ops@),
                forall|k: int| 0 <= k < ops.len() ==> (#[trigger] ops[k])@.wf(),
                records_cut_at(buffer@, changes.take(j as int), self@.key, cuts),
            decreases ops.len() - j,
        {
            let mut line = match self.record(&ops[j]) {
                Ok(l) => l,
                Err(e) => {
                    proof {
                        assert(record_fails_with(e, changes[j as int], self@.key));
                    }
                    return Err(e);
                },
            };
            let ghost record = line@;
            let ghost earlier = buffer@;
            let ghost old_cuts = cuts;
            buffer.append(&mut line);
            proof {
                lemma_records_extend(
                    earlier,
                    changes.take(j as int),
                    self@.key,
                    old_cuts,
                    record,
                    ops[j as int]@,
                );
                cuts = old_cuts.push(buffer@.len() as int);
                assert(buffer@ =~= earlier + record);
                assert(changes.take(j + 1) =~= changes.take(j as int).push(ops[j as int]@));
            }
            j += 1;
        }
        proof {
            assert(changes.take(ops.len() as int) =~= changes);
        }
        Ok(buffer)
    }

    /// Makes a change to the document, and nothing else: the change is not
    /// logged.
    pub fn apply(&mut self, op: &Operation)
        requires
            old(self)@.wf(),
            op@.wf(),
        ensures
            final(self)@.wf(),
            final(self)@ == (DatabaseState {
                data: apply_change(old(self)@.data, op@),
                ..old(self)@
            }),
    {
        proof {
            lemma_apply_well_formed(self.data@, op@);
        }
        apply_operation(&mut self.data, op);
    }

    /// Makes some changes to the document, in order, and nothing else: the
    /// changes are not logged.
    pub fn apply_all(&mut self, ops: &Vec<Operation>)
        requires
            old(self)@.wf(),
            forall|i: int| 0 <= i < ops.len() ==> (#[trigger] ops[i])@.wf(),
        ensures
            final(self)@.wf(),
            final(self)@ == (DatabaseState {
                data: apply_changes(old(self)@.data, operations_model(ops@)),
                ..old(self)@
            }),
    {
        let ghost changes = operations_model(ops@);
        let ghost start = self.data@;
        let mut j: usize = 0;
        proof {
            assert(changes.take(0) =~= Seq::<Change>::empty());
        }
        while j < ops.len()
            invariant
                j <= ops.len(),
                changes == operations_model(ops@),
                forall|k: int| 0 <= k < ops.len() ==> (#[trigger] ops[k])@.wf(),
                self@ == (DatabaseState {
                    data: apply_changes(start, changes.take(j as int)),
                    ..old(self)@
                }),
                self@.wf(),
            decreases ops.len() - j,
        {
            proof {
                assert(changes.take(j + 1).drop_last() =~= changes.take(j as int));
                assert(changes.take(j + 1).last() == ops[j as int]@);
            }
            self.apply(&ops[j]);
            j += 1;
        }
        proof {
            assert(changes.take(ops.len() as int) =~= changes);
        }
    }

    fn commit(&mut self, op: Operation) -> (r: Result<(), DbError>)
        requires
            old(self)@.wf(),
            op@.wf(),
        ensures
            final(self)@.wf(),
            !old(self)@.use_wal || old(self)@.key is None ==> r is Ok,
            match r {
                Ok(()) => final(self)@ == (DatabaseState {
                    data: apply_change(old(self)@.data, op@),
                    wal: final(self)@.wal,
                    ..old(self)@
                }) && logged(old(self)@.wal, final(self)@.wal, seq![op@], old(self)@),
                Err(e) => final(self)@ == old(self)@ && old(self)@.use_wal && record_fails_with(
                    e,
                    op@,
                    old(self)@.key,
                ),
            },
    {
        let ghost before = self.wal@;
        let mut line = match self.record(&op) {
            Ok(l) => l,
            Err(e) => {
                return Err(e);
            },
        };
        let ghost record = line@;
        self.wal.append(&mut line);
        proof {
            let after = self.wal@;
            let rest = after.skip(before.len() as int);
            assert(after.take(before.len() as int) =~= before);
            assert(rest =~= record);
            if self@.use_wal {
                let cuts = seq![0int, rest.len() as int];
                assert(rest.subrange(0, rest.len() as int) =~= rest);
                assert(records_cut_at(rest, seq![op@], self@.key, cuts));
            } else {
                assert(after =~= before);
            }
        }
        self.apply(&op);
        Ok(())
    }

    /// Writes the value at the path. The change is logged first, where the
    /// store logs; where it cannot be logged, the store stays as it is.
    pub fn set(&mut self, path: String, value: JsonValue) -> (r: Result<(), DbError>)
        requires
            old(self)@.wf(),
            well_formed(value@),
        ensures
            final(self)@.wf(),
            !old(self)@.use_wal || old(self)@.key is None ==> r is Ok,
            match r {
                Ok(()) => final(self)@ == (DatabaseState {
                    data: apply_change(
                        old(self)@.data,
                        Change::Put { path: path@, value: value@ },
                    ),
                    wal: final(self)@.wal,
                    ..old(self)@
                }) && logged(
                    old(self)@.wal,
                    final(self)@.wal,
                    seq![Change::Put { path: path@, value: value@ }],
                    old(self)@,
                ),
                Err(e) => final(self)@ == old(self)@ && old(self)@.use_wal && record_fails_with(
                    e,
                    Change::Put { path: path@, value: value@ },
                    old(self)@.key,
                ),
            },
    {
        self.commit(Operation::Put { path, value })
    }

    /// Deletes what is at the path. The change is logged first, where the
    /// store logs; where it cannot be logged, the store stays as it is.
    pub fn delete(&mut self, path: String) -> (r: Result<(), DbError>)
        requires
            old(self)@.wf(),
        ensures
            final(self)@.wf(),
            !old(self)@.use_wal || old(self)@.key is None ==> r is Ok,
            match r {
                Ok(()) => final(self)@ == (DatabaseState {
                    data: apply_change(old(self)@.data, Change::Delete { path: path@ }),
                    wal: final(self)@.wal,
                    ..old(self)@
                }) && logged(
                    old(self)@.wal,
                    final(self)@.wal,
                    seq![Change::Delete { path: path@ }],
                    old(self)@,
                ),
                Err(e) => final(self)@ == old(self)@ && old(self)@.use_wal && record_fails_with(
                    e,
                    Change::Delete { path: path@ },
                    old(self)@.key,
                ),
            },
    {
        self.commit(Operation::Delete { path })
    }

    /// Makes the changes that the items of a batch ask for, in order. All of
    /// them are logged first, where the store logs; where one cannot be
    /// logged, the store stays as it is.
    pub fn batch(&mut self, ops: Vec<JsonValue>) -> (r: Result<(), DbError>)
        requires
            old(self)@.wf(),
            forall|i: int| 0 <= i < ops.len() ==> well_formed(#[trigger] ops[i]@),
        ensures
            final(self)@.wf(),
            !old(self)@.use_wal || old(self)@.key is None ==> r is Ok,
            match r {
                Ok(()) => final(self)@ == (DatabaseState {
                    data: apply_changes(old(self)@.data, batch_changes(items_model(ops@))),
                    wal: final(self)@.wal,
                    ..old(self)@
                }) && logged(
                    old(self)@.wal,
                    final(self)@.wal,
                    batch_changes(items_model(ops@)),
                    old(self)@,
                ),
                Err(e) => final(self)@ == old(self)@ && old(self)@.use_wal && records_fail_with(
                    e,
                    batch_changes(items_model(ops@)),
                    old(self)@.key,
                ),
            },
    {
        let ghost before = self.wal@;
        let operations = batch_operations(&ops);
        let mut records = match self.record_all(&operations) {
            Ok(bytes) => bytes,
            Err(e) => {
                return Err(e);
            },
        };
        let ghost lines = records@;
        self.wal.append(&mut records);
        proof {
            let after = self.wal@;
            assert(after.take(before.len() as int) =~= before);
            assert(after.skip(before.len() as int) =~= lines);
            if !self@.use_wal {
                assert(after =~= before);
            }
        }
        self.apply_all(&operations);
        Ok(())
    }

    /// Makes the changes that a batch in JSON text asks for. The text must
    /// be an array; its items are taken as `batch` takes them.
    pub fn batch_from_json(&mut self, ops_json: String) -> (r: Result<(), DbError>)
        requires
            old(self)@.wf(),
        ensures
            final(self)@.wf(),
            match parse_document(vstd::utf8::encode_utf8(ops_json@)) {
                Some(Json::Array(items)) => {
                    &&& !old(self)@.use_wal || old(self)@.key is None ==> r is Ok
                    &&& match r {
                        Ok(()) => final(self)@ == (DatabaseState {
                            data: apply_changes(old(self)@.data, batch_changes(items)),
                            wal: final(self)@.wal,
                            ..old(self)@
                        }) && logged(
                            old(self)@.wal,
                            final(self)@.wal,
                            batch_changes(items),
                            old(self)@,
                        ),
                        Err(e) => final(self)@ == old(self)@ && old(self)@.use_wal
                            && records_fail_with(e, batch_changes(items), old(self)@.key),
                    }
                },
                _ => r == Err::<(), DbError>(DbError::InvalidBatch) && final(self)@ == old(
                    self,
                )@,
            },
    {
        match batch_items(ops_json.as_str()) {
            Ok(items) => self.batch(items),
            Err(e) => Err(e),
        }
    }

    /// The lookup in the collection at the path.
    pub fn find(&self, path: String, query: JsonValue, options: Option<QueryOptions>) -> (r: Vec<
        JsonValue,
    >)
        ensures
            items_model(r@) == find_result(get_path(self@.data, path@), query@, plan_of(options)),
    {
        find_items(get_value_by_path(&self.data, path.as_str()), &query, &options)
    }

    /// The first item of the collection at the path that matches the query.
    pub fn find_one(&self, path: String, query: JsonValue) -> (r: Option<JsonValue>)
        ensures
            match r {
                Some(v) => Some(v@),
                None => None,
            } == first_match(collection_items(get_path(self@.data, path@)), query@),
    {
        find_first(get_value_by_path(&self.data, path.as_str()), &query)
    }
}

} // verus!
