//! The encrypted envelope: a plaintext sealed with AES-256-GCM under a
//! 96-bit nonce, and written as a JSON object of three hexadecimal texts.

use crate::error::DbError;
use crate::hexcode::{hex_bytes, hex_decode, hex_encode, hex_text, is_hex_text};
use crate::json::{
    entries_model, find_key, key_index, keys_unique, lemma_model_object, well_formed, Json,
    JsonValue,
};
use aes_gcm::aead::{Aead, KeyInit};
use aes_gcm::{Aes256Gcm, Key, Nonce};
use rand::rngs::OsRng;
use rand::RngCore;
use vstd::prelude::*;
use vstd::slice::slice_subrange;
use vstd::string::*;

verus! {

/// `aes_gcm::Error`, the failure of the cipher.
#[verifier::external_type_specification]
#[verifier::external_body]
pub struct ExAeadError(aes_gcm::Error);

/// `rand::Error`, the failure of the random source.
#[verifier::external_type_specification]
#[verifier::external_body]
pub struct ExRandError(rand::Error);

/// The length of a key.
pub const KEY_LENGTH: usize = 32;

/// The length of a nonce.
pub const NONCE_LENGTH: usize = 12;

/// The length of the authentication tag at the end of a sealed text.
pub const TAG_LENGTH: usize = 16;

/// The longest plaintext that can be sealed.
pub const MAX_PLAINTEXT: u64 = 0x10_0000_0000;

/// What AES-256-GCM makes of a plaintext under a key and a nonce, without
/// associated data: the ciphertext, followed by the tag.
pub uninterp spec fn aes_gcm_seal(key: Seq<u8>, nonce: Seq<u8>, plaintext: Seq<u8>) -> Seq<u8>;

/// The plaintext that AES-256-GCM gets out of a sealed text under a key and
/// a nonce, without associated data, or nothing where the sealed text does
/// not stand the check.
pub uninterp spec fn aes_gcm_open(key: Seq<u8>, nonce: Seq<u8>, sealed: Seq<u8>) -> Option<
    Seq<u8>,
>;

/// `Aes256Gcm::encrypt` under a key of 32 bytes and a nonce of 12 bytes. It
/// fails on a plaintext longer than 2^36 bytes and on no other; what it
/// returns is as long as the plaintext and 16 bytes more, and depends on the
/// key, the nonce and the plaintext alone.
#[verifier::external_body]
fn aes_encrypt(key: &[u8], nonce: &[u8], plaintext: &[u8]) -> (r: Result<Vec<u8>, aes_gcm::Error>)
    requires
        key@.len() == KEY_LENGTH,
        nonce@.len() == NONCE_LENGTH,
    ensures
        r is Ok <==> plaintext@.len() <= MAX_PLAINTEXT,
        r matches Ok(sealed) ==> sealed@ == aes_gcm_seal(key@, nonce@, plaintext@)
            && sealed@.len() == plaintext@.len() + TAG_LENGTH,
{
    Aes256Gcm::new(Key::<Aes256Gcm>::from_slice(key)).encrypt(Nonce::from_slice(nonce), plaintext)
}

/// `Aes256Gcm::decrypt` under a key of 32 bytes and a nonce of 12 bytes.
/// Whether it succeeds, and the plaintext it gives, depend on the key, the
/// nonce and the sealed text alone.
#[verifier::external_body]
fn aes_decrypt(key: &[u8], nonce: &[u8], sealed: &[u8]) -> (r: Result<Vec<u8>, aes_gcm::Error>)
    requires
        key@.len() == KEY_LENGTH,
        nonce@.len() == NONCE_LENGTH,
    ensures
        r is Ok <==> aes_gcm_open(key@, nonce@, sealed@) is Some,
        r matches Ok(plaintext) ==> Some(plaintext@) == aes_gcm_open(key@, nonce@, sealed@),
{
    Aes256Gcm::new(Key::<Aes256Gcm>::from_slice(key)).decrypt(Nonce::from_slice(nonce), sealed)
}

/// `OsRng::try_fill_bytes` on 12 bytes: random bytes from the operating
/// system, or its failure to give any.
#[verifier::external_body]
fn random_nonce() -> (r: Result<Vec<u8>, rand::Error>)
    ensures
        r matches Ok(nonce) ==> nonce@.len() == NONCE_LENGTH,
{
    let mut nonce = [0u8; 12];
    OsRng.try_fill_bytes(&mut nonce).map(|_| nonce.to_vec())
}

/// The envelope of a sealed text: an object with the nonce under `iv`, the
/// ciphertext under `content` and the tag, the last 16 bytes of the sealed
/// text, under `tag`, each in hexadecimal.
pub open spec fn envelope_json(nonce: Seq<u8>, sealed: Seq<u8>) -> Json {
    let split = sealed.len() - TAG_LENGTH;
    Json::Object(
        seq![
            ("iv"@, Json::String(hex_text(nonce))),
            ("content"@, Json::String(hex_text(sealed.take(split)))),
            ("tag"@, Json::String(hex_text(sealed.skip(split)))),
        ],
    )
}

/// An envelope is a well-formed document: its three keys differ.
pub proof fn lemma_envelope_well_formed(nonce: Seq<u8>, sealed: Seq<u8>)
    ensures
        well_formed(envelope_json(nonce, sealed)),
{
    reveal_strlit("iv");
    reveal_strlit("content");
    reveal_strlit("tag");
    let e = envelope_json(nonce, sealed)->Object_0;
    assert(e[0].0.len() == 2 && e[1].0.len() == 7 && e[2].0.len() == 3);
    assert(keys_unique(e));
    assert forall|i: int| 0 <= i < e.len() implies well_formed((#[trigger] e[i]).1) by {}
}

/// Seals a plaintext under a key and a given nonce and puts the result in
/// its envelope. Only a plaintext longer than 2^36 bytes cannot be sealed.
pub fn seal_with_nonce(key: &[u8], nonce: &[u8], plaintext: &[u8]) -> (r: Result<
    JsonValue,
    DbError,
>)
    requires
        key@.len() == KEY_LENGTH,
        nonce@.len() == NONCE_LENGTH,
    ensures
        match r {
            Ok(v) => plaintext@.len() <= MAX_PLAINTEXT && v@ == envelope_json(
                nonce@,
                aes_gcm_seal(key@, nonce@, plaintext@),
            ) && well_formed(v@),
            Err(e) => plaintext@.len() > MAX_PLAINTEXT && e == DbError::EncryptionFailed,
        },
{
    match aes_encrypt(key, nonce, plaintext) {
        Ok(sealed) => {
            let split = sealed.len() - TAG_LENGTH;
            let content = slice_subrange(sealed.as_slice(), 0, split);
            let tag = slice_subrange(sealed.as_slice(), split, sealed.len());
            let mut entries: Vec<(String, JsonValue)> = Vec::new();
            entries.push((String::from_str("iv"), JsonValue::String(hex_encode(nonce))));
            entries.push((String::from_str("content"), JsonValue::String(hex_encode(content))));
            entries.push((String::from_str("tag"), JsonValue::String(hex_encode(tag))));
            proof {
                lemma_model_object(entries);
                assert(content@ =~= sealed@.take(split as int));
                assert(tag@ =~= sealed@.skip(split as int));
                assert(entries_model(entries@) =~= envelope_json(nonce@, sealed@)->Object_0);
                lemma_envelope_well_formed(nonce@, sealed@);
            }
            Ok(JsonValue::Object(entries))
        },
        Err(_) => Err(DbError::EncryptionFailed),
    }
}

/// What drawing a nonce comes to, given what the random source returned: the
/// nonce, or the failure of the source.
pub fn drawn(raw: Result<Vec<u8>, rand::Error>) -> (r: Result<Vec<u8>, DbError>)
    ensures
        match raw {
            Ok(nonce) => r == Ok::<Vec<u8>, DbError>(nonce),
            Err(_) => r == Err::<Vec<u8>, DbError>(DbError::RandomSource),
        },
{
    match raw {
        Ok(nonce) => Ok(nonce),
        Err(_) => Err(DbError::RandomSource),
    }
}

/// Whether a document is the envelope of the plaintext sealed under the key
/// and the nonce.
pub open spec fn is_sealed_with(v: Json, key: Seq<u8>, plaintext: Seq<u8>, nonce: Seq<u8>) -> bool {
    nonce.len() == NONCE_LENGTH && v == envelope_json(nonce, aes_gcm_seal(key, nonce, plaintext))
}

/// Whether a document is the envelope of the plaintext sealed under the key
/// and some nonce of 12 bytes.
pub open spec fn is_sealed(v: Json, key: Seq<u8>, plaintext: Seq<u8>) -> bool {
    exists|nonce: Seq<u8>| is_sealed_with(v, key, plaintext, nonce)
}

/// Whether sealing the plaintext may fail with the error: the random source
/// may give no nonce, and the cipher takes no plaintext longer than 2^36
/// bytes.
pub open spec fn sealing_fails_with(e: DbError, plaintext: Seq<u8>) -> bool {
    e == DbError::RandomSource || (e == DbError::EncryptionFailed && plaintext.len()
        > MAX_PLAINTEXT)
}

/// Seals a plaintext under a key and a fresh random nonce and puts the
/// result in its envelope. Whether the random source delivers is up to it.
pub fn seal(key: &[u8], plaintext: &[u8]) -> (r: Result<JsonValue, DbError>)
    requires
        key@.len() == KEY_LENGTH,
    ensures
        match r {
            Ok(v) => plaintext@.len() <= MAX_PLAINTEXT && well_formed(v@) && is_sealed(
                v@,
                key@,
                plaintext@,
            ),
            Err(e) => sealing_fails_with(e, plaintext@),
        },
{
    match drawn(random_nonce()) {
        Ok(nonce) => {
            let r = seal_with_nonce(key, nonce.as_slice(), plaintext);
            proof {
                if r is Ok {
                    assert(is_sealed_with(r->Ok_0@, key@, plaintext@, nonce@));
                }
            }
            r
        },
        Err(e) => Err(e),
    }
}

/// The text under a name in an object, where the object has the name and a
/// string under it.
pub open spec fn string_field(v: Json, name: Seq<char>) -> Option<Seq<char>> {
    match v {
        Json::Object(e) => match key_index(e, name) {
            Some(i) => match e[i].1 {
                Json::String(s) => Some(s),
                _ => None,
            },
            None => None,
        },
        _ => None,
    }
}

/// Whether a document has the form of an envelope: an object with
/// hexadecimal texts under `iv`, `content` and `tag`, the first of 12 bytes.
pub open spec fn is_envelope(v: Json) -> bool {
    &&& string_field(v, "iv"@) is Some
    &&& string_field(v, "content"@) is Some
    &&& string_field(v, "tag"@) is Some
    &&& is_hex_text(string_field(v, "iv"@)->0)
    &&& is_hex_text(string_field(v, "content"@)->0)
    &&& is_hex_text(string_field(v, "tag"@)->0)
    &&& hex_bytes(string_field(v, "iv"@)->0).len() == NONCE_LENGTH
}

/// What opening an envelope under a key gives: the plaintext, or the failure
/// that the envelope has not the form of one, or the failure that its
/// content, followed by its tag, does not stand the check under the key.
pub open spec fn opened(v: Json, key: Seq<u8>) -> Result<Seq<u8>, DbError> {
    if !is_envelope(v) {
        Err(DbError::InvalidEnvelope)
    } else {
        match aes_gcm_open(
            key,
            hex_bytes(string_field(v, "iv"@)->0),
            hex_bytes(string_field(v, "content"@)->0) + hex_bytes(string_field(v, "tag"@)->0),
        ) {
            Some(plaintext) => Ok(plaintext),
            None => Err(DbError::DecryptionFailed),
        }
    }
}

pub(crate) fn get_string_field<'a>(v: &'a JsonValue, name: &str) -> (r: Option<&'a String>)
    ensures
        match r {
            Some(s) => string_field(v@, name@) == Some(s@),
            None => string_field(v@, name@) is None,
        },
{
    match v {
        JsonValue::Object(entries) => {
            proof {
                lemma_model_object(*entries);
            }
            match find_key(entries, &String::from_str(name)) {
                Some(i) => match &entries[i].1 {
                    JsonValue::String(s) => Some(s),
                    _ => None,
                },
                None => None,
            }
        },
        _ => None,
    }
}

fn get_hex_field(v: &JsonValue, name: &str) -> (r: Option<Vec<u8>>)
    ensures
        match r {
            Some(bytes) => string_field(v@, name@) is Some && is_hex_text(
                string_field(v@, name@)->0,
            ) && bytes@ == hex_bytes(string_field(v@, name@)->0),
            None => string_field(v@, name@) is None || !is_hex_text(string_field(v@, name@)->0),
        },
{
    match get_string_field(v, name) {
        Some(text) => match hex_decode(text.as_str()) {
            Ok(bytes) => Some(bytes),
            Err(_) => None,
        },
        None => None,
    }
}

/// Opens an envelope under a key.
pub fn decrypt_value(envelope: &JsonValue, key: &[u8]) -> (r: Result<Vec<u8>, DbError>)
    requires
        key@.len() == KEY_LENGTH,
    ensures
        match r {
            Ok(plaintext) => opened(envelope@, key@) == Ok::<Seq<u8>, DbError>(plaintext@),
            Err(e) => opened(envelope@, key@) == Err::<Seq<u8>, DbError>(e),
        },
{
    let nonce = match get_hex_field(envelope, "iv") {
        Some(bytes) => bytes,
        None => {
            return Err(DbError::InvalidEnvelope);
        },
    };
    let mut content = match get_hex_field(envelope, "content") {
        Some(bytes) => bytes,
        None => {
            return Err(DbError::InvalidEnvelope);
        },
    };
    let mut tag = match get_hex_field(envelope, "tag") {
        Some(bytes) => bytes,
        None => {
            return Err(DbError::InvalidEnvelope);
        },
    };
    if nonce.len() != NONCE_LENGTH {
        return Err(DbError::InvalidEnvelope);
    }
    content.append(&mut tag);
    match aes_decrypt(key, nonce.as_slice(), content.as_slice()) {
        Ok(plaintext) => Ok(plaintext),
        Err(_) => Err(DbError::DecryptionFailed),
    }
}

} // verus!
