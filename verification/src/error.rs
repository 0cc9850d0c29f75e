//! What can go wrong, and how each failure is classed.

use vstd::prelude::*;
use vstd::string::*;

verus! {

/// The classes of failure.
#[derive(Debug, Clone, Copy, PartialEq, Eq, Structural)]
pub enum ErrorKind {
    /// The store was set up with a key that cannot be used.
    Configuration,
    /// The machine did not deliver what was asked of it.
    Io,
    /// Stored bytes do not have the form they should have.
    Parse,
    /// Stored bytes were not written with this key, or were changed since.
    Crypto,
    /// The caller handed in something that is no valid request.
    Input,
}

/// The failures of the store.
#[derive(Debug, Clone, Copy, PartialEq, Eq, Structural)]
pub enum DbError {
    /// The key is not written in hexadecimal digits.
    InvalidKeyHex,
    /// The key does not have 32 bytes.
    InvalidKeyLength,
    /// The snapshot is no JSON text.
    InvalidSnapshot,
    /// An encrypted envelope lacks a field, or a field is no hexadecimal
    /// text, or the nonce does not have 12 bytes.
    InvalidEnvelope,
    /// The envelope was not sealed with this key, or was changed since.
    DecryptionFailed,
    /// What came out of an envelope is no JSON text.
    InvalidPlaintext,
    /// A batch is no JSON array.
    InvalidBatch,
    /// A document could not be written as JSON text.
    EncodingFailed,
    /// A plaintext is too long to be sealed.
    EncryptionFailed,
    /// The machine gave no random bytes for a nonce.
    RandomSource,
}

impl DbError {
    /// The class of the failure.
    pub open spec fn spec_kind(self) -> ErrorKind {
        match self {
            DbError::InvalidKeyHex => ErrorKind::Configuration,
            DbError::InvalidKeyLength => ErrorKind::Configuration,
            DbError::InvalidSnapshot => ErrorKind::Parse,
            DbError::InvalidEnvelope => ErrorKind::Parse,
            DbError::DecryptionFailed => ErrorKind::Crypto,
            DbError::InvalidPlaintext => ErrorKind::Parse,
            DbError::InvalidBatch => ErrorKind::Input,
            DbError::EncodingFailed => ErrorKind::Io,
            DbError::EncryptionFailed => ErrorKind::Crypto,
            DbError::RandomSource => ErrorKind::Io,
        }
    }

    /// The class of the failure.
    #[verifier::when_used_as_spec(spec_kind)]
    pub fn kind(self) -> (r: ErrorKind)
        ensures
            r == self.spec_kind(),
    {
        match self {
            DbError::InvalidKeyHex => ErrorKind::Configuration,
            DbError::InvalidKeyLength => ErrorKind::Configuration,
            DbError::InvalidSnapshot => ErrorKind::Parse,
            DbError::InvalidEnvelope => ErrorKind::Parse,
            DbError::DecryptionFailed => ErrorKind::Crypto,
            DbError::InvalidPlaintext => ErrorKind::Parse,
            DbError::InvalidBatch => ErrorKind::Input,
            DbError::EncodingFailed => ErrorKind::Io,
            DbError::EncryptionFailed => ErrorKind::Crypto,
            DbError::RandomSource => ErrorKind::Io,
        }
    }

    /// The failure in words.
    pub fn message(self) -> (r: String)
        ensures
            r@ == match self {
                DbError::InvalidKeyHex => "Invalid hex key"@,
                DbError::InvalidKeyLength => "Encryption key must be 32 bytes"@,
                DbError::InvalidSnapshot => "Invalid JSON in snapshot"@,
                DbError::InvalidEnvelope => "Invalid encrypted envelope"@,
                DbError::DecryptionFailed => "Decryption failed"@,
                DbError::InvalidPlaintext => "Invalid JSON after decryption"@,
                DbError::InvalidBatch => "Invalid JSON"@,
                DbError::EncodingFailed => "Failed to encode JSON"@,
                DbError::EncryptionFailed => "Encryption failed"@,
                DbError::RandomSource => "No random bytes"@,
            },
    {
        String::from_str(
            match self {
                DbError::InvalidKeyHex => "Invalid hex key",
                DbError::InvalidKeyLength => "Encryption key must be 32 bytes",
                DbError::InvalidSnapshot => "Invalid JSON in snapshot",
                DbError::InvalidEnvelope => "Invalid encrypted envelope",
                DbError::DecryptionFailed => "Decryption failed",
                DbError::InvalidPlaintext => "Invalid JSON after decryption",
                DbError::InvalidBatch => "Invalid JSON",
                DbError::EncodingFailed => "Failed to encode JSON",
                DbError::EncryptionFailed => "Encryption failed",
                DbError::RandomSource => "No random bytes",
            },
        )
    }
}

} // verus!
