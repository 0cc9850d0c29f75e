use json_store::codec::{parse_json, write_json, written};
use json_store::envelope::{decrypt_value, drawn, seal, seal_with_nonce};
use json_store::error::{DbError, ErrorKind};
use json_store::json::{JsonNumber, JsonValue};

fn doc(text: &str) -> JsonValue {
    parse_json(text.as_bytes()).expect("valid JSON")
}

fn text(v: &JsonValue) -> String {
    String::from_utf8(write_json(v, false).expect("encodes")).expect("utf8")
}

fn field(v: &JsonValue, name: &str) -> String {
    match v.field(name) {
        Some(JsonValue::String(s)) => s.clone(),
        other => panic!("no string under {name}: {other:?}"),
    }
}

#[test]
fn parse_reads_every_kind_of_value() {
    assert!(matches!(doc("null"), JsonValue::Null));
    assert!(matches!(doc("true"), JsonValue::Bool(true)));
    assert!(matches!(doc("-12"), JsonValue::Number(JsonNumber::Integer(-12))));
    assert!(matches!(doc("0"), JsonValue::Number(JsonNumber::Integer(0))));
    assert!(matches!(
        doc("18446744073709551615"),
        JsonValue::Number(JsonNumber::Integer(18446744073709551615))
    ));
    assert!(matches!(doc("1.5"), JsonValue::Number(JsonNumber::Float(_))));
    assert!(matches!(doc("1e3"), JsonValue::Number(JsonNumber::Float(_))));
    match doc(r#""a\nb""#) {
        JsonValue::String(s) => assert_eq!(s, "a\nb"),
        other => panic!("{other:?}"),
    }
    match doc("[1,[2]]") {
        JsonValue::Array(items) => assert_eq!(items.len(), 2),
        other => panic!("{other:?}"),
    }
}

#[test]
fn parse_keeps_the_order_of_keys() {
    match doc(r#"{"z":1,"a":2,"m":3}"#) {
        JsonValue::Object(entries) => {
            let keys: Vec<&str> = entries.iter().map(|(k, _)| k.as_str()).collect();
            assert_eq!(keys, vec!["z", "a", "m"]);
        }
        other => panic!("{other:?}"),
    }
}

#[test]
fn parse_keeps_one_entry_for_a_key_written_twice() {
    let v = doc(r#"{"a":1,"b":2,"a":3}"#);
    assert!(v.is_well_formed());
    assert_eq!(text(&v), r#"{"a":3,"b":2}"#);
}

#[test]
fn parse_refuses_what_is_no_json() {
    assert!(parse_json(b"").is_none());
    assert!(parse_json(b"{").is_none());
    assert!(parse_json(b"{\"a\":}").is_none());
    assert!(parse_json(b"1 2").is_none());
    assert!(parse_json(b"nul").is_none());
    assert!(parse_json(&[0xff, 0xfe]).is_none());
    assert!(parse_json(b"[1,]").is_none());
}

#[test]
fn write_gives_compact_and_indented_text() {
    let v = doc(r#"{ "a" : [1, 2.5, "x"], "b" : { "c" : null } }"#);
    assert_eq!(text(&v), r#"{"a":[1,2.5,"x"],"b":{"c":null}}"#);
    let pretty = String::from_utf8(write_json(&v, true).unwrap()).unwrap();
    assert_eq!(
        pretty,
        "{\n  \"a\": [\n    1,\n    2.5,\n    \"x\"\n  ],\n  \"b\": {\n    \"c\": null\n  }\n}"
    );
}

#[test]
fn write_takes_values_built_by_hand() {
    let v = JsonValue::Object(vec![
        ("k".to_string(), JsonValue::Array(vec![JsonValue::Bool(false), JsonValue::Null])),
        ("n".to_string(), JsonValue::Number(JsonNumber::Integer(-3))),
        ("s".to_string(), JsonValue::String("q\"t".to_string())),
        ("u".to_string(), JsonValue::Number(JsonNumber::Integer(u64::MAX as i128))),
    ]);
    assert_eq!(text(&v), r#"{"k":[false,null],"n":-3,"s":"q\"t","u":18446744073709551615}"#);
}

#[test]
fn text_reads_back_as_the_same_document() {
    for source in [
        "null",
        "[]",
        "{}",
        r#"{"a":{"b":[1,-2,3.25,"x",true,null,{"c":"é"}]},"z":""}"#,
        "18446744073709551615",
        "-9223372036854775808",
        "1e300",
    ] {
        let v = doc(source);
        let again = doc(&text(&v));
        assert!(v.equals(&again), "{source}");
        assert_eq!(text(&v), text(&again));
    }
}

#[test]
fn written_maps_the_result_of_the_writer() {
    assert_eq!(written(Ok(vec![1, 2])), Ok(vec![1, 2]));
    let failure = serde_json::from_str::<serde_json::Value>("x").unwrap_err();
    assert_eq!(written(Err(failure)), Err(DbError::EncodingFailed));
}

#[test]
fn drawn_maps_the_result_of_the_random_source() {
    assert_eq!(drawn(Ok(vec![7; 12])), Ok(vec![7; 12]));
    let failure = rand::Error::new("no entropy");
    assert_eq!(drawn(Err(failure)), Err(DbError::RandomSource));
}

#[test]
fn the_envelope_holds_nonce_content_and_tag_in_hex() {
    let key = [0u8; 32];
    let nonce = [0u8; 12];
    let envelope = seal_with_nonce(&key, &nonce, &[0u8; 16]).unwrap();
    assert_eq!(
        text(&envelope),
        concat_envelope(
            "000000000000000000000000",
            "cea7403d4d606b6e074ec5d3baf39d18",
            "d0d1c8a799996bf0265b98b5d48ab919"
        )
    );
    let empty = seal_with_nonce(&key, &nonce, &[]).unwrap();
    assert_eq!(field(&empty, "content"), "");
    assert_eq!(field(&empty, "tag"), "530f8afbc74536b9a963b4f1c4cb738b");
}

fn concat_envelope(iv: &str, content: &str, tag: &str) -> String {
    format!("{{\"iv\":\"{iv}\",\"content\":\"{content}\",\"tag\":\"{tag}\"}}")
}

#[test]
fn the_envelope_writes_the_nonce_it_was_given() {
    let key = [1u8; 32];
    let nonce: Vec<u8> = (0u8..12).collect();
    let envelope = seal_with_nonce(&key, &nonce, b"secret").unwrap();
    assert_eq!(field(&envelope, "iv"), "000102030405060708090a0b");
    assert_eq!(field(&envelope, "content").len(), 12);
    assert_eq!(field(&envelope, "tag").len(), 32);
    assert_ne!(field(&envelope, "content"), "736563726574");
}

#[test]
fn opening_gives_back_the_plaintext() {
    let key = [9u8; 32];
    for plaintext in [&b""[..], b"x", b"{\"a\":1}", &[0u8; 1000][..]] {
        let envelope = seal(&key, plaintext).unwrap();
        assert_eq!(decrypt_value(&envelope, &key), Ok(plaintext.to_vec()));
    }
}

#[test]
fn opening_accepts_upper_case_hex_and_any_order_of_fields() {
    let key = [0u8; 32];
    let envelope = doc(
        r#"{"tag":"D0D1C8A799996BF0265B98B5D48AB919","extra":1,"content":"CEA7403D4D606B6E074EC5D3BAF39D18","iv":"000000000000000000000000"}"#,
    );
    assert_eq!(decrypt_value(&envelope, &key), Ok(vec![0u8; 16]));
}

#[test]
fn fresh_nonces_differ() {
    let key = [3u8; 32];
    let a = seal(&key, b"same").unwrap();
    let b = seal(&key, b"same").unwrap();
    assert_eq!(field(&a, "iv").len(), 24);
    assert_ne!(field(&a, "iv"), field(&b, "iv"));
    assert_ne!(text(&a), text(&b));
}

#[test]
fn opening_under_another_key_fails() {
    let envelope = seal(&[1u8; 32], b"secret").unwrap();
    assert_eq!(decrypt_value(&envelope, &[2u8; 32]), Err(DbError::DecryptionFailed));
}

#[test]
fn opening_a_changed_envelope_fails() {
    let key = [0u8; 32];
    let good = concat_envelope(
        "000000000000000000000000",
        "cea7403d4d606b6e074ec5d3baf39d18",
        "d0d1c8a799996bf0265b98b5d48ab919",
    );
    assert_eq!(decrypt_value(&doc(&good), &key), Ok(vec![0u8; 16]));
    for position in [8usize, 45, 90] {
        let mut bytes = good.clone().into_bytes();
        bytes[position] = if bytes[position] == b'0' { b'1' } else { b'0' };
        let changed = doc(&String::from_utf8(bytes).unwrap());
        assert_eq!(decrypt_value(&changed, &key), Err(DbError::DecryptionFailed), "{position}");
    }
}

#[test]
fn what_is_no_envelope_is_refused() {
    let key = [0u8; 32];
    let tag = "d0d1c8a799996bf0265b98b5d48ab919";
    let content = "cea7403d4d606b6e074ec5d3baf39d18";
    let iv = "000000000000000000000000";
    let refused = |t: &str| assert_eq!(decrypt_value(&doc(t), &key), Err(DbError::InvalidEnvelope), "{t}");
    refused("null");
    refused("[]");
    refused("{}");
    refused(&format!(r#"{{"content":"{content}","tag":"{tag}"}}"#));
    refused(&format!(r#"{{"iv":"{iv}","tag":"{tag}"}}"#));
    refused(&format!(r#"{{"iv":"{iv}","content":"{content}"}}"#));
    refused(&format!(r#"{{"iv":12,"content":"{content}","tag":"{tag}"}}"#));
    refused(&format!(r#"{{"iv":"zz","content":"{content}","tag":"{tag}"}}"#));
    refused(&format!(r#"{{"iv":"{iv}","content":"abc","tag":"{tag}"}}"#));
    refused(&format!(r#"{{"iv":"{iv}","content":"{content}","tag":"xy"}}"#));
    refused(&format!(r#"{{"iv":"0000","content":"{content}","tag":"{tag}"}}"#));
    refused(&format!(r#"{{"iv":"{iv}00","content":"{content}","tag":"{tag}"}}"#));
}

#[test]
fn a_short_tag_fails_the_check() {
    let key = [0u8; 32];
    let envelope = doc(r#"{"iv":"000000000000000000000000","content":"","tag":"00"}"#);
    assert_eq!(decrypt_value(&envelope, &key), Err(DbError::DecryptionFailed));
}

#[test]
fn errors_have_kinds_and_messages() {
    let all = [
        (DbError::InvalidKeyHex, ErrorKind::Configuration, "Invalid hex key"),
        (DbError::InvalidKeyLength, ErrorKind::Configuration, "Encryption key must be 32 bytes"),
        (DbError::InvalidSnapshot, ErrorKind::Parse, "Invalid JSON in snapshot"),
        (DbError::InvalidEnvelope, ErrorKind::Parse, "Invalid encrypted envelope"),
        (DbError::DecryptionFailed, ErrorKind::Crypto, "Decryption failed"),
        (DbError::InvalidPlaintext, ErrorKind::Parse, "Invalid JSON after decryption"),
        (DbError::InvalidBatch, ErrorKind::Input, "Invalid JSON"),
        (DbError::EncodingFailed, ErrorKind::Io, "Failed to encode JSON"),
        (DbError::EncryptionFailed, ErrorKind::Crypto, "Encryption failed"),
        (DbError::RandomSource, ErrorKind::Io, "No random bytes"),
    ];
    for (error, kind, message) in all {
        assert_eq!(error.kind(), kind);
        assert_eq!(error.message(), message);
    }
}
