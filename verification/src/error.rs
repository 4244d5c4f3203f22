//! Error types for the KV service.

use vstd::prelude::*;

verus! {

/// Error types for the KV service. Errors that outside libraries report
/// are carried as their message text.
#[derive(Debug)]
pub enum KVError {
    KeyNotFound(String),
    InvalidKey(String),
    InvalidValue(String),
    TTL(String),
    Encryption(String),
    Storage(String),
    Serialization(String),
    Io(String),
    Config(String),
    Database(String),
    Auth(String),
    RateLimit,
    Internal(String),
}

/// Result type for KV operations.
pub type KVResult<T> = Result<T, KVError>;

/// `prefix` followed by `detail`.
pub fn join_text(prefix: &str, detail: &str) -> (r: String)
    ensures
        r@ == prefix@ + detail@,
{
    let mut r = prefix.to_owned();
    r.append(detail);
    r
}

impl KVError {
    /// The kind of error, as the first words of its message.
    pub open spec fn spec_label(&self) -> Seq<char> {
        match self {
            KVError::KeyNotFound(_) => "Key not found: "@,
            KVError::InvalidKey(_) => "Invalid key: "@,
            KVError::InvalidValue(_) => "Invalid value: "@,
            KVError::TTL(_) => "TTL error: "@,
            KVError::Encryption(_) => "Encryption error: "@,
            KVError::Storage(_) => "Storage error: "@,
            KVError::Serialization(_) => "Serialization error: "@,
            KVError::Io(_) => "IO error: "@,
            KVError::Config(_) => "Configuration error: "@,
            KVError::Database(_) => "Database error: "@,
            KVError::Auth(_) => "Authentication error: "@,
            KVError::RateLimit => "Rate limit exceeded"@,
            KVError::Internal(_) => "Internal error: "@,
        }
    }

    /// The detail text carried by the error (empty for `RateLimit`).
    pub open spec fn spec_detail(&self) -> Seq<char> {
        match self {
            KVError::KeyNotFound(s) => s@,
            KVError::InvalidKey(s) => s@,
            KVError::InvalidValue(s) => s@,
            KVError::TTL(s) => s@,
            KVError::Encryption(s) => s@,
            KVError::Storage(s) => s@,
            KVError::Serialization(s) => s@,
            KVError::Io(s) => s@,
            KVError::Config(s) => s@,
            KVError::Database(s) => s@,
            KVError::Auth(s) => s@,
            KVError::RateLimit => Seq::empty(),
            KVError::Internal(s) => s@,
        }
    }

    /// The error message: its label followed by its detail.
    pub fn message(&self) -> (r: String)
        ensures
            r@ == self.spec_label() + self.spec_detail(),
    {
        match self {
            KVError::KeyNotFound(s) => join_text("Key not found: ", s.as_str()),
            KVError::InvalidKey(s) => join_text("Invalid key: ", s.as_str()),
            KVError::InvalidValue(s) => join_text("Invalid value: ", s.as_str()),
            KVError::TTL(s) => join_text("TTL error: ", s.as_str()),
            KVError::Encryption(s) => join_text("Encryption error: ", s.as_str()),
            KVError::Storage(s) => join_text("Storage error: ", s.as_str()),
            KVError::Serialization(s) => join_text("Serialization error: ", s.as_str()),
            KVError::Io(s) => join_text("IO error: ", s.as_str()),
            KVError::Config(s) => join_text("Configuration error: ", s.as_str()),
            KVError::Database(s) => join_text("Database error: ", s.as_str()),
            KVError::Auth(s) => join_text("Authentication error: ", s.as_str()),
            KVError::RateLimit => {
                let r = "Rate limit exceeded".to_owned();
                assert(r@ =~= "Rate limit exceeded"@ + Seq::<char>::empty());
                r
            },
            KVError::Internal(s) => join_text("Internal error: ", s.as_str()),
        }
    }
}

impl From<String> for KVError {
    /// A message becomes an internal error.
    fn from(msg: String) -> (e: Self) {
        KVError::Internal(msg)
    }
}

impl vstd::std_specs::convert::FromSpecImpl<String> for KVError {
    open spec fn obeys_from_spec() -> bool {
        true
    }

    open spec fn from_spec(msg: String) -> KVError {
        KVError::Internal(msg)
    }
}

} // verus!
