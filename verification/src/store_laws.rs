//! What holds of saving, logging and loading, for every document and every
//! list of changes.
//!
//! Reading JSON text and opening sealed text are the work of outside code,
//! and that they undo writing and sealing is not proved here. Each law below
//! therefore names what it takes of them, as the condition under which it
//! holds, and proves the rest: the framing of records and envelopes, and the
//! order in which changes are replayed.

use crate::codec::{document_text, json_text, parse_document};
use crate::database::{
    cut_holds, is_records, is_sealed_snapshot, is_snapshot, loaded_document, logged,
    records_cut_at, DatabaseState,
};
use crate::envelope::{aes_gcm_open, aes_gcm_seal, envelope_json, NONCE_LENGTH, TAG_LENGTH};
use crate::error::DbError;
use crate::json::Json;
use crate::wal::{
    apply_change, apply_changes, change_json, is_record_line, is_sealed_line, plain_record,
    record_change, replay, sealed_record, Change, LINE_FEED,
};
use crate::wal_laws::{
    ends_records, is_one_line, lemma_change_round_trip, lemma_envelope_round_trip,
    lemma_replay_append,
};
use vstd::prelude::*;

verus! {

/// Whether the JSON text of a document reads back as the document.
pub open spec fn reads_back(doc: Json) -> bool {
    parse_document(json_text(doc)) == Some(doc)
}

/// Whether a plaintext that was sealed under the key and the nonce opens
/// again, the sealed text being at least as long as its tag.
pub open spec fn opens_again(key: Seq<u8>, nonce: Seq<u8>, plaintext: Seq<u8>) -> bool {
    let sealed = aes_gcm_seal(key, nonce, plaintext);
    sealed.len() >= TAG_LENGTH && aes_gcm_open(key, nonce, sealed) == Some(plaintext)
}

/// A snapshot without encryption holds the document it was made of, where
/// its text reads back.
pub proof fn lemma_plain_snapshot_round_trip(doc: Json, pretty: bool)
    ensures
        parse_document(document_text(doc, pretty)) == Some(doc) ==> loaded_document(
            Some(document_text(doc, pretty)),
            None,
            None,
        ) == Ok::<Json, DbError>(doc),
{
}

/// An encrypted snapshot holds the document it was made of, where the text
/// of the document and that of the envelope read back and the sealed text
/// opens again.
pub proof fn lemma_sealed_snapshot_round_trip(
    bytes: Seq<u8>,
    doc: Json,
    key: Seq<u8>,
    nonce: Seq<u8>,
)
    requires
        is_sealed_snapshot(bytes, doc, key, nonce),
    ensures
        reads_back(doc) && reads_back(
            envelope_json(nonce, aes_gcm_seal(key, nonce, json_text(doc))),
        ) && opens_again(key, nonce, json_text(doc)) ==> loaded_document(
            Some(bytes),
            None,
            Some(key),
        ) == Ok::<Json, DbError>(doc),
{
    let sealed = aes_gcm_seal(key, nonce, json_text(doc));
    if sealed.len() >= TAG_LENGTH {
        lemma_envelope_round_trip(nonce, sealed, key);
    }
}

/// Whether the document of the store, sealed under the key of the store and
/// the nonce, reads back and opens again.
pub open spec fn sealed_reads_back(state: DatabaseState, nonce: Seq<u8>) -> bool {
    let key = state.key->0;
    &&& reads_back(envelope_json(nonce, aes_gcm_seal(key, nonce, json_text(state.data))))
    &&& opens_again(key, nonce, json_text(state.data))
}

/// Whether a snapshot of the store reads back: without a key its text, and
/// with a key the text of the document and, under every nonce, that of the
/// envelope, the sealed text opening again.
pub open spec fn snapshot_reads_back(state: DatabaseState) -> bool {
    match state.key {
        None => parse_document(document_text(state.data, state.pretty)) == Some(state.data),
        Some(_) => reads_back(state.data) && forall|nonce: Seq<u8>|
            nonce.len() == NONCE_LENGTH ==> #[trigger] sealed_reads_back(state, nonce),
    }
}

/// Loading what was saved gives the document that was saved, where the
/// snapshot reads back.
pub proof fn lemma_snapshot_recovers(bytes: Seq<u8>, state: DatabaseState)
    ensures
        is_snapshot(bytes, state) && snapshot_reads_back(state) ==> loaded_document(
            Some(bytes),
            None,
            state.key,
        ) == Ok::<Json, DbError>(state.data),
{
    if is_snapshot(bytes, state) && snapshot_reads_back(state) {
        match state.key {
            None => {
                lemma_plain_snapshot_round_trip(state.data, state.pretty);
            },
            Some(k) => {
                let nonce = choose|nonce: Seq<u8>|
                    is_sealed_snapshot(bytes, state.data, k, nonce);
                assert(is_sealed_snapshot(bytes, state.data, k, nonce));
                assert(sealed_reads_back(state, nonce));
                lemma_sealed_snapshot_round_trip(bytes, state.data, k, nonce);
            },
        }
    }
}

/// A record without encryption stands for the change it was made of, where
/// its text reads back and is not empty.
pub proof fn lemma_plain_record_round_trip(change: Change)
    ensures
        reads_back(change_json(change)) && plain_record(change).len() > 0 ==> record_change(
            plain_record(change),
            None,
        ) == Some(change),
{
    lemma_change_round_trip(change);
}

/// An encrypted record stands for the change it was made of, where the text
/// of the change and that of the envelope read back, neither is empty, and
/// the sealed text opens again.
pub proof fn lemma_sealed_record_round_trip(change: Change, key: Seq<u8>, nonce: Seq<u8>)
    requires
        nonce.len() == NONCE_LENGTH,
    ensures
        reads_back(change_json(change)) && reads_back(
            envelope_json(nonce, aes_gcm_seal(key, nonce, plain_record(change))),
        ) && opens_again(key, nonce, plain_record(change)) && sealed_record(
            change,
            key,
            nonce,
        ).len() > 0 ==> record_change(sealed_record(change, key, nonce), Some(key)) == Some(
            change,
        ),
{
    lemma_change_round_trip(change);
    let sealed = aes_gcm_seal(key, nonce, plain_record(change));
    if sealed.len() >= TAG_LENGTH {
        lemma_envelope_round_trip(nonce, sealed, key);
    }
}

/// Whether every record of one of the changes stands on one line and is
/// read as that change.
pub open spec fn records_read_back(changes: Seq<Change>, key: Option<Seq<u8>>) -> bool {
    forall|line: Seq<u8>, i: int|
        0 <= i < changes.len() && #[trigger] is_record_line(line, changes[i], key) ==> is_one_line(
            line.drop_last(),
        ) && record_change(line.drop_last(), key) == Some(changes[i])
}

proof fn lemma_record_line_ends(line: Seq<u8>, change: Change, key: Option<Seq<u8>>)
    requires
        is_record_line(line, change, key),
    ensures
        line.len() > 0,
        line.last() == LINE_FEED,
        line == line.drop_last().push(LINE_FEED),
{
    match key {
        None => {},
        Some(k) => {
            let nonce = choose|nonce: Seq<u8>| is_sealed_line(line, change, k, nonce);
            assert(is_sealed_line(line, change, k, nonce));
        },
    }
    assert(line =~= line.drop_last().push(line.last()));
}

proof fn lemma_records_split(
    bytes: Seq<u8>,
    changes: Seq<Change>,
    key: Option<Seq<u8>>,
    cuts: Seq<int>,
)
    requires
        records_cut_at(bytes, changes, key, cuts),
        changes.len() > 0,
    ensures
        0 <= cuts[changes.len() - 1] <= bytes.len(),
        records_cut_at(
            bytes.take(cuts[changes.len() - 1]),
            changes.drop_last(),
            key,
            cuts.drop_last(),
        ),
        is_record_line(bytes.skip(cuts[changes.len() - 1]), changes.last(), key),
{
    let n = changes.len() as int - 1;
    let earlier = changes.drop_last();
    let marks = cuts.drop_last();
    assert(cut_holds(bytes, changes[n], key, cuts[n], cuts[n + 1]));
    let head = bytes.take(cuts[n]);
    assert(bytes.skip(cuts[n]) =~= bytes.subrange(cuts[n], cuts[n + 1]));
    assert forall|i: int| 0 <= i < earlier.len() implies cut_holds(
        head,
        #[trigger] earlier[i],
        key,
        marks[i],
        marks[i + 1],
    ) by {
        assert(cut_holds(bytes, changes[i], key, cuts[i], cuts[i + 1]));
        lemma_cuts_ordered(bytes, changes, key, cuts, i + 1, n);
        assert(head.subrange(marks[i], marks[i + 1]) =~= bytes.subrange(cuts[i], cuts[i + 1]));
    }
}

proof fn lemma_read_back_earlier(changes: Seq<Change>, key: Option<Seq<u8>>)
    requires
        records_read_back(changes, key),
        changes.len() > 0,
    ensures
        records_read_back(changes.drop_last(), key),
{
    let earlier = changes.drop_last();
    assert forall|l: Seq<u8>, i: int|
        0 <= i < earlier.len() && #[trigger] is_record_line(l, earlier[i], key) implies is_one_line(
        l.drop_last(),
    ) && record_change(l.drop_last(), key) == Some(earlier[i]) by {
        assert(earlier[i] == changes[i]);
        assert(is_record_line(l, changes[i], key));
    }
}

proof fn lemma_records_replay(
    tree: Json,
    bytes: Seq<u8>,
    changes: Seq<Change>,
    key: Option<Seq<u8>>,
    cuts: Seq<int>,
)
    requires
        records_cut_at(bytes, changes, key, cuts),
        records_read_back(changes, key),
    ensures
        ends_records(bytes),
        replay(tree, bytes, key) == apply_changes(tree, changes),
    decreases changes.len(),
{
    if changes.len() == 0 {
        assert(bytes =~= Seq::<u8>::empty());
        let lines = crate::wal::split_lines(bytes);
        assert(lines.len() == 1 && lines.last() == Seq::<u8>::empty());
        assert(record_change(lines.last(), key) is None);
        assert(lines.drop_last().len() == 0);
        assert(crate::wal::replay_lines(tree, lines.drop_last(), key) == tree);
    } else {
        let n = changes.len() as int - 1;
        let head = bytes.take(cuts[n]);
        let line = bytes.skip(cuts[n]);
        lemma_records_split(bytes, changes, key, cuts);
        lemma_read_back_earlier(changes, key);
        lemma_records_replay(tree, head, changes.drop_last(), key, cuts.drop_last());
        lemma_record_line_ends(line, changes[n], key);
        assert(is_record_line(line, changes[n], key));
        lemma_replay_append(tree, head, line.drop_last(), key);
        assert(head + line.drop_last().push(LINE_FEED) =~= bytes);
    }
}

/// The records of some changes, followed by the records of more changes,
/// are the records of all of them.
pub proof fn lemma_records_join(
    first: Seq<u8>,
    second: Seq<u8>,
    changes: Seq<Change>,
    more: Seq<Change>,
    key: Option<Seq<u8>>,
)
    requires
        is_records(first, changes, key),
        is_records(second, more, key),
    ensures
        is_records(first + second, changes + more, key),
    decreases more.len(),
{
    let cuts = choose|cuts: Seq<int>| records_cut_at(second, more, key, cuts);
    if more.len() == 0 {
        assert(first + second =~= first);
        assert(changes + more =~= changes);
    } else {
        let n = more.len() as int - 1;
        let head = second.take(cuts[n]);
        let line = second.skip(cuts[n]);
        lemma_records_split(second, more, key, cuts);
        assert(is_records(head, more.drop_last(), key));
        lemma_records_join(first, head, changes, more.drop_last(), key);
        let joined = choose|joined: Seq<int>|
            records_cut_at(first + head, changes + more.drop_last(), key, joined);
        crate::database::lemma_records_extend(
            first + head,
            changes + more.drop_last(),
            key,
            joined,
            line,
            more.last(),
        );
        assert((first + head) + line =~= first + second);
        assert((changes + more.drop_last()).push(more.last()) =~= changes + more);
    }
}

proof fn lemma_cuts_ordered(
    bytes: Seq<u8>,
    changes: Seq<Change>,
    key: Option<Seq<u8>>,
    cuts: Seq<int>,
    i: int,
    j: int,
)
    requires
        records_cut_at(bytes, changes, key, cuts),
        0 <= i <= j <= changes.len(),
    ensures
        0 <= cuts[i] <= cuts[j] <= bytes.len(),
    decreases j - i,
{
    if i < j {
        assert(cut_holds(bytes, changes[i], key, cuts[i], cuts[i + 1]));
        lemma_cuts_ordered(bytes, changes, key, cuts, i + 1, j);
    } else if i < changes.len() {
        assert(cut_holds(bytes, changes[i], key, cuts[i], cuts[i + 1]));
    } else if i > 0 {
        assert(cut_holds(bytes, changes[i - 1], key, cuts[i - 1], cuts[i]));
    }
}

/// Replaying the records of a list of changes makes those changes, in their
/// order, where every record stands on one line and is read as its change.
/// So what was logged and reached the disk is what loading recovers.
pub proof fn lemma_log_recovers(
    tree: Json,
    bytes: Seq<u8>,
    changes: Seq<Change>,
    key: Option<Seq<u8>>,
)
    ensures
        is_records(bytes, changes, key) && records_read_back(changes, key) ==> replay(
            tree,
            bytes,
            key,
        ) == apply_changes(tree, changes),
{
    if is_records(bytes, changes, key) && records_read_back(changes, key) {
        let cuts = choose|cuts: Seq<int>| records_cut_at(bytes, changes, key, cuts);
        lemma_records_replay(tree, bytes, changes, key, cuts);
    }
}

/// Making some changes and then more changes is making all of them.
pub proof fn lemma_apply_changes_join(tree: Json, changes: Seq<Change>, more: Seq<Change>)
    ensures
        apply_changes(apply_changes(tree, changes), more) == apply_changes(tree, changes + more),
    decreases more.len(),
{
    if more.len() == 0 {
        assert(changes + more =~= changes);
    } else {
        lemma_apply_changes_join(tree, changes, more.drop_last());
        assert((changes + more).drop_last() =~= changes + more.drop_last());
        assert((changes + more).last() == more.last());
    }
}

/// What one operation of the store logs behind what an earlier one logged
/// is what both logged: the pending log grows by the records of all the
/// changes, in their order.
pub proof fn lemma_logged_chain(
    before: Seq<u8>,
    between: Seq<u8>,
    after: Seq<u8>,
    changes: Seq<Change>,
    more: Seq<Change>,
    state: DatabaseState,
)
    requires
        logged(before, between, changes, state),
        logged(between, after, more, state),
    ensures
        logged(before, after, changes + more, state),
{
    if state.use_wal {
        let first = between.skip(before.len() as int);
        let second = after.skip(between.len() as int);
        assert(after.take(before.len() as int) =~= between.take(before.len() as int)) by {
            assert(after.take(between.len() as int) == between);
        }
        lemma_records_join(first, second, changes, more, state.key);
        assert(after.skip(before.len() as int) =~= first + second) by {
            assert(after.take(between.len() as int) == between);
            assert(after =~= after.take(between.len() as int) + second);
        }
    } else {
        assert(changes + more == changes + more);
    }
}

/// A store that began with the empty object and logged all its changes is
/// recovered from its log alone, where every record stands on one line and
/// is read as its change: loading the log gives the document that the
/// changes made.
pub proof fn lemma_store_recovers(log: Seq<u8>, changes: Seq<Change>, state: DatabaseState)
    ensures
        state.use_wal && logged(Seq::empty(), log, changes, state) && records_read_back(
            changes,
            state.key,
        ) ==> loaded_document(None, Some(log), state.key) == Ok::<Json, DbError>(
            apply_changes(Json::Object(Seq::empty()), changes),
        ),
{
    if state.use_wal && logged(Seq::empty(), log, changes, state) && records_read_back(
        changes,
        state.key,
    ) {
        assert(log.skip(0) =~= log);
        lemma_log_recovers(Json::Object(Seq::empty()), log, changes, state.key);
    }
}

} // verus!
