//! Master-key and access-token codec.
//!
//! The vault keeps its 32-byte master encryption key and its remote access
//! token in an external settings store as Base64 text. The store itself is
//! plain I/O and lives outside the library; what is verified here is the
//! decision logic: when a stored value is accepted as a key, and what must
//! be written back when a fresh key has to be generated.

use vstd::prelude::*;

use base64::Engine;

use crate::MASTER_KEY_LEN;

verus! {

/// The canonical padded Base64 encoding (standard alphabet) of `b`.
pub uninterp spec fn b64_of(b: Seq<u8>) -> Seq<char>;

/// True iff `s` is the Base64 encoding of some 32-byte key.
pub open spec fn is_master_key_encoding(s: Seq<char>) -> bool {
    exists|k: Seq<u8>| k.len() == MASTER_KEY_LEN && s == b64_of(k)
}

/// The 32-byte key that `s` encodes, when [`is_master_key_encoding`] holds.
pub open spec fn decoded_master_key(s: Seq<char>) -> Seq<u8> {
    choose|k: Seq<u8>| k.len() == MASTER_KEY_LEN && s == b64_of(k)
}

/// Relies on `base64::engine::general_purpose::STANDARD.encode`: canonical
/// padded Base64 of the input bytes, a function of the bytes alone.
#[verifier::external_body]
fn b64_encode(b: &Vec<u8>) -> (r: String)
    requires
        b@.len() < 0x1000_0000,
    ensures
        r@ == b64_of(b@),
{
    base64::engine::general_purpose::STANDARD.encode(b)
}

/// Relies on `base64::engine::general_purpose::STANDARD.decode`: it accepts
/// exactly the canonical padded encodings (the engine requires canonical
/// padding and rejects non-zero trailing bits), and inverts the encoding.
#[verifier::external_body]
fn b64_decode(s: &str) -> (r: Option<Vec<u8>>)
    ensures
        forall|b: Seq<u8>| s@ == b64_of(b) ==> r is Some && r->0@ == b,
        r is Some ==> s@ == b64_of(r->0@),
{
    base64::engine::general_purpose::STANDARD.decode(s).ok()
}

/// Relies on `rand::thread_rng` and `rand::RngCore::fill_bytes`: the bytes
/// are random, so only the length is stated.
#[verifier::external_body]
fn random_key_bytes() -> (r: Vec<u8>)
    ensures
        r@.len() == MASTER_KEY_LEN,
{
    let mut key = vec![0u8; MASTER_KEY_LEN];
    rand::RngCore::fill_bytes(&mut rand::thread_rng(), &mut key);
    key
}

/// The outcome of looking up the master key: the key to use now, and the
/// encoded form that must be persisted when a fresh key was generated.
pub struct MasterKeyOutcome {
    /// The 32-byte master key to use for this session.
    pub key: Vec<u8>,
    /// `Some` exactly when the stored value was missing or invalid: the
    /// Base64 encoding of `key`, to be written back to the settings store.
    pub to_store: Option<String>,
}

/// Decide the master key from the value found in the settings store.
///
/// A stored value is reused exactly when it is the canonical Base64
/// encoding of a 32-byte key; anything else (absent, malformed, or of the
/// wrong length) is replaced by a freshly generated key whose encoding is
/// handed back for persisting. A valid stored key is never regenerated.
pub fn get_or_create_master_key(stored: Option<&str>) -> (r: MasterKeyOutcome)
    ensures
        r.key@.len() == MASTER_KEY_LEN,
        stored is Some && is_master_key_encoding(stored->0@) ==> r.key@ == decoded_master_key(
            stored->0@,
        ) && r.to_store is None,
        !(stored is Some && is_master_key_encoding(stored->0@)) ==> r.to_store is Some
            && r.to_store->0@ == b64_of(r.key@),
{
    if let Some(s) = stored {
        if let Some(bytes) = b64_decode(s) {
            if bytes.len() == MASTER_KEY_LEN {
                return MasterKeyOutcome { key: bytes, to_store: None };
            }
        }
    }
    proof {
        if stored is Some && is_master_key_encoding(stored->0@) {
            let k = choose|k: Seq<u8>|
                k.len() == MASTER_KEY_LEN && stored->0@ == b64_of(k);
            assert(false);
        }
    }
    let key = random_key_bytes();
    let encoded = b64_encode(&key);
    MasterKeyOutcome { key, to_store: Some(encoded) }
}

/// Encode an access token's bytes for the settings store: canonical Base64.
pub fn encode_token(token: &Vec<u8>) -> (r: String)
    requires
        token@.len() < 0x1000_0000,
    ensures
        r@ == b64_of(token@),
{
    b64_encode(token)
}

/// Decode a stored access token. Returns the token bytes exactly when the
/// stored text is a canonical Base64 encoding, and `None` otherwise.
pub fn decode_token(stored: &str) -> (r: Option<Vec<u8>>)
    ensures
        r is Some <==> exists|b: Seq<u8>| stored@ == b64_of(b),
        r is Some ==> stored@ == b64_of(r->0@),
        forall|b: Seq<u8>| stored@ == b64_of(b) ==> r is Some && r->0@ == b,
{
    let d = b64_decode(stored);
    proof {
        if d is Some {
            assert(stored@ == b64_of(d->0@));
        }
    }
    d
}

} // verus!
