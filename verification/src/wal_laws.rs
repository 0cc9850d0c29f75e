//! What holds of the records of the log and of the envelope, for every
//! change and every log.

use crate::envelope::{
    aes_gcm_open, envelope_json, is_envelope, opened, string_field, NONCE_LENGTH, TAG_LENGTH,
};
use crate::error::DbError;
use crate::hexcode::{hex_text, lemma_hex_round_trip};
use crate::json::{is_first_key, lemma_key_index_some, Json};
use crate::wal::{
    apply_change, change_json, json_change, record_change, replay, replay_lines, split_lines,
    Change, LINE_FEED,
};
use vstd::prelude::*;

verus! {

/// The document that stands for a change stands for that change and for no
/// other.
pub proof fn lemma_change_round_trip(change: Change)
    ensures
        json_change(change_json(change)) == Some(change),
{
    reveal_strlit("Set");
    reveal_strlit("Delete");
    reveal_strlit("path");
    reveal_strlit("value");
    let outer = change_json(change)->Object_0;
    let body = outer[0].1;
    let inner = body->Object_0;
    assert("Set"@.len() == 3 && "Delete"@.len() == 6);
    assert("path"@.len() == 4 && "value"@.len() == 5);
    assert(is_first_key(inner, "path"@, 0));
    lemma_key_index_some(inner, "path"@, 0);
    match change {
        Change::Put { path, value } => {
            assert(is_first_key(inner, "value"@, 1)) by {
                assert(inner[0].0 != "value"@);
            }
            lemma_key_index_some(inner, "value"@, 1);
        },
        Change::Delete { path } => {},
    }
}

/// Opening the envelope of a sealed text hands to the cipher the nonce and
/// the sealed text that the envelope was made of: what the envelope adds
/// around them is taken off again without loss.
pub proof fn lemma_envelope_round_trip(nonce: Seq<u8>, sealed: Seq<u8>, key: Seq<u8>)
    requires
        nonce.len() == NONCE_LENGTH,
        sealed.len() >= TAG_LENGTH,
    ensures
        is_envelope(envelope_json(nonce, sealed)),
        opened(envelope_json(nonce, sealed), key) == match aes_gcm_open(key, nonce, sealed) {
            Some(plaintext) => Ok::<Seq<u8>, DbError>(plaintext),
            None => Err::<Seq<u8>, DbError>(DbError::DecryptionFailed),
        },
{
    reveal_strlit("iv");
    reveal_strlit("content");
    reveal_strlit("tag");
    let v = envelope_json(nonce, sealed);
    let e = v->Object_0;
    let split = sealed.len() - TAG_LENGTH;
    assert("iv"@.len() == 2 && "content"@.len() == 7 && "tag"@.len() == 3);
    assert(is_first_key(e, "iv"@, 0));
    lemma_key_index_some(e, "iv"@, 0);
    assert(is_first_key(e, "content"@, 1)) by {
        assert(e[0].0 != "content"@);
    }
    lemma_key_index_some(e, "content"@, 1);
    assert(is_first_key(e, "tag"@, 2)) by {
        assert(e[0].0 != "tag"@);
        assert(e[1].0 != "tag"@);
    }
    lemma_key_index_some(e, "tag"@, 2);
    lemma_hex_round_trip(nonce);
    lemma_hex_round_trip(sealed.take(split));
    lemma_hex_round_trip(sealed.skip(split));
    assert(string_field(v, "iv"@) == Some(hex_text(nonce)));
    assert(string_field(v, "content"@) == Some(hex_text(sealed.take(split))));
    assert(string_field(v, "tag"@) == Some(hex_text(sealed.skip(split))));
    assert(sealed.take(split) + sealed.skip(split) =~= sealed);
}

proof fn lemma_split_extend(log: Seq<u8>, more: Seq<u8>)
    requires
        forall|i: int| 0 <= i < more.len() ==> more[i] != LINE_FEED,
    ensures
        split_lines(log).len() >= 1,
        split_lines(log + more) == split_lines(log).update(
            split_lines(log).len() - 1,
            split_lines(log).last() + more,
        ),
    decreases more.len(),
{
    lemma_split_nonempty(log);
    let lines = split_lines(log);
    if more.len() == 0 {
        assert(log + more =~= log);
        assert(lines.last() + more =~= lines.last());
        assert(lines.update(lines.len() - 1, lines.last()) =~= lines);
    } else {
        let shorter = more.drop_last();
        lemma_split_extend(log, shorter);
        assert((log + more).drop_last() =~= log + shorter);
        assert((log + more).last() == more.last());
        assert(more.last() != LINE_FEED);
        let before = split_lines(log + shorter);
        assert(before.last() == lines.last() + shorter);
        assert((lines.last() + shorter).push(more.last()) =~= lines.last() + more);
        assert(before.update(before.len() - 1, before.last().push(more.last())) =~= lines.update(
            lines.len() - 1,
            lines.last() + more,
        ));
    }
}

proof fn lemma_split_nonempty(log: Seq<u8>)
    ensures
        split_lines(log).len() >= 1,
    decreases log.len(),
{
    if log.len() > 0 {
        lemma_split_nonempty(log.drop_last());
    }
}

/// Whether a log can take another record: it is empty, or it ends with a
/// line feed.
pub open spec fn ends_records(log: Seq<u8>) -> bool {
    log.len() == 0 || log.last() == LINE_FEED
}

/// Whether a text can stand on one line: it holds no line feed.
pub open spec fn is_one_line(text: Seq<u8>) -> bool {
    forall|i: int| 0 <= i < text.len() ==> text[i] != LINE_FEED
}

/// Replaying a log with one more line behind it makes the changes of the
/// log first and then the change that the new line records, if it records
/// one. So every record that is appended is replayed, and in the order in
/// which the records were appended.
pub proof fn lemma_replay_append(tree: Json, log: Seq<u8>, line: Seq<u8>, key: Option<Seq<u8>>)
    requires
        ends_records(log),
        is_one_line(line),
    ensures
        ends_records(log + line.push(LINE_FEED)),
        replay(tree, log + line.push(LINE_FEED), key) == match record_change(line, key) {
            Some(change) => apply_change(replay(tree, log, key), change),
            None => replay(tree, log, key),
        },
{
    let lines = split_lines(log);
    lemma_split_extend(log, line);
    assert(lines.last() == Seq::<u8>::empty()) by {
        if log.len() > 0 {
            lemma_split_nonempty(log.drop_last());
        }
    }
    let kept = lines.drop_last();
    let with_line = split_lines(log + line);
    assert(with_line =~= kept.push(line)) by {
        assert(lines.last() + line =~= line);
    }
    let all = log + line.push(LINE_FEED);
    assert(all.drop_last() =~= log + line);
    assert(all.last() == LINE_FEED);
    let after = split_lines(all);
    assert(after == with_line.push(Seq::<u8>::empty()));
    assert(after.drop_last() =~= with_line);
    assert(with_line.drop_last() =~= kept);
    assert(lines =~= kept.push(Seq::<u8>::empty()));
    assert(record_change(Seq::<u8>::empty(), key) is None);
    assert(replay_lines(tree, lines, key) == replay_lines(tree, kept, key));
    assert(replay_lines(tree, after, key) == replay_lines(tree, with_line, key));
}

} // verus!
