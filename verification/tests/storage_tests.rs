use json_store::codec::{parse_json, write_json};
use json_store::database::DatabaseCore;
use json_store::error::{DbError, ErrorKind};
use json_store::json::{JsonNumber, JsonValue};
use json_store::storage::Files;

const KEY_HEX: &str = "1f1e1d1c1b1a191817161514131211100f0e0d0c0b0a09080706050403020100";

fn open(key: Option<&str>) -> DatabaseCore {
    DatabaseCore::new(key.map(|k| k.to_string()), Some(false), None).expect("opens")
}

fn num(i: i128) -> JsonValue {
    JsonValue::Number(JsonNumber::Integer(i))
}

fn root(db: &DatabaseCore) -> String {
    String::from_utf8(write_json(&db.get_value(None), false).unwrap()).unwrap()
}

fn fill(db: &mut DatabaseCore) {
    db.set("user.name".to_string(), JsonValue::String("Ada".to_string())).unwrap();
    db.set("items.2".to_string(), parse_json(br#"{"v":[1.5,null,true]}"#).unwrap()).unwrap();
    db.set("n".to_string(), num(-7)).unwrap();
    db.delete("items.0".to_string()).unwrap();
    db.batch(vec![parse_json(br#"{"type":"set","path":"b","value":"x"}"#).unwrap()]).unwrap();
}

#[test]
fn new_files_do_not_exist() {
    let files = Files::new();
    assert!(files.snapshot.is_none());
    assert!(files.temp.is_none());
    assert!(files.log.is_none());
}

#[test]
fn the_steps_change_one_file_each() {
    let mut files = Files::new();
    files.append_log(vec![1, 2]);
    files.append_log(vec![3]);
    assert_eq!(files.log, Some(vec![1, 2, 3]));
    files.write_temp(vec![9]);
    assert_eq!(files.temp, Some(vec![9]));
    assert_eq!(files.snapshot, None);
    files.promote_temp();
    assert_eq!(files.snapshot, Some(vec![9]));
    assert_eq!(files.temp, None);
    files.promote_temp();
    assert_eq!(files.snapshot, Some(vec![9]));
    files.truncate_log();
    assert_eq!(files.log, Some(vec![]));
    assert_eq!(files.snapshot, Some(vec![9]));
}

#[test]
fn saving_and_loading_gives_the_same_document() {
    for key in [None, Some(KEY_HEX)] {
        let mut db = open(key);
        fill(&mut db);
        let mut files = Files::new();
        db.save_to(&mut files).unwrap();
        let mut again = open(key);
        again.load_from(&mut files).unwrap();
        assert_eq!(root(&again), root(&db));
        assert_eq!(root(&again), r#"{"user":{"name":"Ada"},"items":[null,{"v":[1.5,null,true]}],"n":-7,"b":"x"}"#);
    }
}

#[test]
fn after_saving_the_log_is_empty_and_no_temporary_file_is_left() {
    let mut db = open(None);
    let mut files = Files::new();
    fill(&mut db);
    db.flush_to(&mut files);
    assert!(!files.log.as_ref().unwrap().is_empty());
    db.set("later".to_string(), num(1)).unwrap();
    db.save_to(&mut files).unwrap();
    assert_eq!(files.log, Some(vec![]));
    assert_eq!(files.temp, None);
    assert_eq!(files.snapshot, Some(write_json(&db.get_value(None), false).unwrap()));
    assert!(db.take_wal().is_empty());
}

#[test]
fn a_store_without_a_log_leaves_the_log_alone() {
    let mut db = DatabaseCore::new(None, Some(false), Some(false)).unwrap();
    let mut files = Files::new();
    files.append_log(b"{\"Set\":{\"path\":\"old\",\"value\":1}}\n".to_vec());
    db.set("a".to_string(), num(1)).unwrap();
    db.flush_to(&mut files);
    db.save_to(&mut files).unwrap();
    assert_eq!(files.log, Some(b"{\"Set\":{\"path\":\"old\",\"value\":1}}\n".to_vec()));
    assert_eq!(files.snapshot, Some(b"{\"a\":1}".to_vec()));
}

#[test]
fn changes_that_were_flushed_survive_a_crash() {
    for key in [None, Some(KEY_HEX)] {
        let mut files = Files::new();
        let mut db = open(key);
        db.set("one".to_string(), num(1)).unwrap();
        db.flush_to(&mut files);
        db.set("two".to_string(), num(2)).unwrap();
        db.set("three".to_string(), num(3)).unwrap();
        db.flush_to(&mut files);
        drop(db);
        let mut again = open(key);
        again.load_from(&mut files).unwrap();
        assert_eq!(root(&again), r#"{"one":1,"two":2,"three":3}"#);
    }
}

#[test]
fn changes_that_were_not_flushed_are_lost_and_the_earlier_ones_stay() {
    let mut files = Files::new();
    let mut db = open(None);
    db.set("one".to_string(), num(1)).unwrap();
    db.flush_to(&mut files);
    db.set("two".to_string(), num(2)).unwrap();
    drop(db);
    let mut again = open(None);
    again.load_from(&mut files).unwrap();
    assert_eq!(root(&again), r#"{"one":1}"#);
}

#[test]
fn the_log_is_replayed_over_the_saved_snapshot() {
    let mut files = Files::new();
    let mut db = open(Some(KEY_HEX));
    db.set("a".to_string(), num(1)).unwrap();
    db.save_to(&mut files).unwrap();
    db.set("b".to_string(), num(2)).unwrap();
    db.delete("a".to_string()).unwrap();
    db.flush_to(&mut files);
    let mut again = open(Some(KEY_HEX));
    again.load_from(&mut files).unwrap();
    assert_eq!(root(&again), r#"{"b":2}"#);
}

#[test]
fn a_temporary_file_without_a_snapshot_is_loaded() {
    let mut db = open(None);
    db.set("a".to_string(), num(1)).unwrap();
    let mut files = Files::new();
    files.write_temp(db.save().unwrap());
    let mut again = open(None);
    again.load_from(&mut files).unwrap();
    assert_eq!(root(&again), r#"{"a":1}"#);
    assert_eq!(files.temp, None);
    assert_eq!(files.snapshot, Some(b"{\"a\":1}".to_vec()));
}

#[test]
fn a_temporary_file_beside_a_snapshot_replaces_it() {
    let mut files = Files::new();
    files.write_temp(b"{\"old\":true}".to_vec());
    files.promote_temp();
    files.write_temp(b"{\"new\":true}".to_vec());
    let mut db = open(None);
    db.load_from(&mut files).unwrap();
    assert_eq!(root(&db), r#"{"new":true}"#);
    assert_eq!(files.snapshot, Some(b"{\"new\":true}".to_vec()));
}

#[test]
fn loading_from_no_files_gives_the_empty_object() {
    let mut db = open(None);
    db.set("a".to_string(), num(1)).unwrap();
    let mut files = Files::new();
    db.load_from(&mut files).unwrap();
    assert_eq!(root(&db), "{}");
    assert_eq!(files.snapshot, None);
}

#[test]
fn ten_keys_and_one_corrupted_byte() {
    for key in [None, Some(KEY_HEX)] {
        let mut db = open(key);
        for i in 0..10 {
            db.set(format!("k{i}"), num(i)).unwrap();
        }
        let mut files = Files::new();
        db.save_to(&mut files).unwrap();
        let bytes = files.snapshot.as_mut().unwrap();
        let at = if key.is_some() { bytes.len() / 2 } else { 0 };
        bytes[at] = if bytes[at] == b'0' { b'1' } else { b'0' };
        let mut again = open(key);
        let failure = again.load_from(&mut files).unwrap_err();
        if key.is_some() {
            assert_eq!(failure, DbError::DecryptionFailed);
            assert_eq!(failure.kind(), ErrorKind::Crypto);
        } else {
            assert_eq!(failure, DbError::InvalidSnapshot);
            assert_eq!(failure.kind(), ErrorKind::Parse);
        }
        assert_eq!(root(&again), "{}");
    }
}
