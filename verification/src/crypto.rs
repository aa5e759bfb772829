//! Content encryption for the vault: AES-256-GCM with a random nonce
//! prepended to the ciphertext.
//!
//! The cipher itself is an outside capability. Its behaviour is a function
//! of key, nonce and plaintext alone, so it is named by the uninterpreted
//! functions [`seal_of`] and [`open_of`]; the verified code here is the
//! framing around it: key validation, nonce layout, and the exact
//! conditions under which decryption succeeds.

use vstd::prelude::*;

use aes_gcm::aead::{Aead, AeadCore, KeyInit, OsRng};
use aes_gcm::{Aes256Gcm, Key, Nonce};

verus! {

/// Why encryption or decryption was refused.
#[derive(Debug, Clone, Copy, PartialEq, Eq, Structural)]
pub enum CryptoError {
    /// The key is not exactly 32 bytes (AES-256).
    KeyLength,
    /// The ciphertext is shorter than a nonce, so it cannot carry a message.
    CiphertextTooShort,
    /// Authenticated decryption failed: wrong key, wrong nonce, corrupted
    /// data, or a payload that is not valid UTF-8.
    DecryptFailed,
}

/// The AES-256-GCM ciphertext (with its authentication tag) of `plain`
/// under `key` and `nonce`. Deterministic in its three arguments.
pub uninterp spec fn seal_of(key: Seq<u8>, nonce: Seq<u8>, plain: Seq<char>) -> Seq<u8>;

/// The result of AES-256-GCM authenticated decryption of `body` under `key`
/// and `nonce`, followed by UTF-8 decoding: `Some` exactly when the tag
/// verifies and the payload is valid UTF-8.
pub uninterp spec fn open_of(key: Seq<u8>, nonce: Seq<u8>, body: Seq<u8>) -> Option<Seq<char>>;

/// Relies on `aes_gcm::AeadCore::generate_nonce` with the operating
/// system's entropy source: the only stated fact is the nonce length,
/// since the bytes are random.
#[verifier::external_body]
fn fresh_nonce() -> (r: Vec<u8>)
    ensures
        r@.len() == 12,
{
    let nonce = Aes256Gcm::generate_nonce(&mut OsRng);
    nonce.as_slice().to_vec()
}

/// Relies on `aes_gcm::Aead::encrypt` (AES-256-GCM): the ciphertext is a
/// function of key, nonce and plaintext alone, it is the encrypted
/// plaintext followed by a 16-byte authentication tag (so for an ASCII
/// plaintext, whose UTF-8 length equals its character count, exactly
/// sixteen bytes longer than the plaintext), and decrypting it with the
/// same key and nonce recovers the plaintext. Encryption cannot fail for
/// plaintexts far below the cipher's 2^36-byte limit.
#[verifier::external_body]
fn aead_seal(key: &[u8], nonce: &Vec<u8>, plaintext: &str) -> (r: Vec<u8>)
    requires
        key@.len() == 32,
        nonce@.len() == 12,
        plaintext@.len() < 0x1000_0000,
    ensures
        r@ == seal_of(key@, nonce@, plaintext@),
        open_of(key@, nonce@, r@) == Some(plaintext@),
        r@.len() >= 16,
        plaintext.is_ascii() ==> r@.len() == plaintext@.len() + 16,
{
    let key = Key::<Aes256Gcm>::from_slice(key);
    let cipher = Aes256Gcm::new(key);
    let nonce = Nonce::from_slice(nonce.as_slice());
    cipher
        .encrypt(nonce, plaintext.as_bytes())
        .expect("plaintext within AES-GCM length limit")
}

/// Relies on `aes_gcm::Aead::decrypt` (AES-256-GCM authenticated
/// decryption), composed with UTF-8 decoding of the recovered payload;
/// [`open_of`] names that composite result.
#[verifier::external_body]
fn aead_open(key: &[u8], nonce: &Vec<u8>, body: &[u8]) -> (r: Option<String>)
    requires
        key@.len() == 32,
        nonce@.len() == 12,
    ensures
        r is Some <==> open_of(key@, nonce@, body@) is Some,
        r is Some ==> r->0@ == open_of(key@, nonce@, body@)->0,
{
    let key = Key::<Aes256Gcm>::from_slice(key);
    let cipher = Aes256Gcm::new(key);
    let nonce = Nonce::from_slice(nonce.as_slice());
    match cipher.decrypt(nonce, body) {
        Ok(plain) => String::from_utf8(plain).ok(),
        Err(_) => None,
    }
}

/// Encrypt `plaintext` under a 32-byte key. The result is a fresh random
/// 12-byte nonce followed by the AES-256-GCM ciphertext; decrypting it
/// with the same key recovers the plaintext.
pub fn encrypt_content(plaintext: &str, key: &[u8]) -> (r: Result<Vec<u8>, CryptoError>)
    requires
        plaintext@.len() < 0x1000_0000,
    ensures
        r is Ok <==> key@.len() == 32,
        key@.len() != 32 ==> r == Err::<Vec<u8>, CryptoError>(CryptoError::KeyLength),
        r is Ok ==> (exists|n: Seq<u8>|
            {
                &&& n.len() == 12
                &&& #[trigger] r->Ok_0@ == n + seal_of(key@, n, plaintext@)
                &&& open_of(key@, n, seal_of(key@, n, plaintext@)) == Some(plaintext@)
            }),
        // nonce plus ciphertext body plus tag: never empty, and of the
        // documented exact length for ASCII plaintexts
        r is Ok ==> r->Ok_0@.len() >= 28,
        r is Ok && plaintext.is_ascii() ==> r->Ok_0@.len() == 12 + plaintext@.len() + 16,
{
    if key.len() != 32 {
        return Err(CryptoError::KeyLength);
    }
    let nonce = fresh_nonce();
    let sealed = aead_seal(key, &nonce, plaintext);
    let ghost n: Seq<u8> = nonce@;
    let mut out: Vec<u8> = nonce;
    let mut i: usize = 0;
    while i < sealed.len()
        invariant
            i <= sealed.len(),
            out@ == n + sealed@.take(i as int),
            sealed@ == seal_of(key@, n, plaintext@),
        decreases sealed.len() - i,
    {
        out.push(sealed[i]);
        proof {
            assert(sealed@.take(i + 1) =~= sealed@.take(i as int).push(sealed@[i as int]));
        }
        i = i + 1;
    }
    proof {
        assert(sealed@.take(sealed@.len() as int) =~= sealed@);
    }
    Ok(out)
}

/// Decrypt a nonce-prefixed AES-256-GCM ciphertext produced by
/// [`encrypt_content`] under the same 32-byte key. Succeeds exactly when
/// the key is well-formed, the ciphertext carries a nonce, and the
/// authenticated payload opens to valid UTF-8.
pub fn decrypt_content(ciphertext: &[u8], key: &[u8]) -> (r: Result<String, CryptoError>)
    ensures
        r is Ok <==> key@.len() == 32 && ciphertext@.len() >= 12 && open_of(
            key@,
            ciphertext@.take(12),
            ciphertext@.skip(12),
        ) is Some,
        r is Ok ==> r->Ok_0@ == open_of(key@, ciphertext@.take(12), ciphertext@.skip(12))->0,
        key@.len() != 32 ==> r == Err::<String, CryptoError>(CryptoError::KeyLength),
        key@.len() == 32 && ciphertext@.len() < 12 ==> r == Err::<String, CryptoError>(
            CryptoError::CiphertextTooShort,
        ),
        key@.len() == 32 && ciphertext@.len() >= 12 && open_of(
            key@,
            ciphertext@.take(12),
            ciphertext@.skip(12),
        ) is None ==> r == Err::<String, CryptoError>(CryptoError::DecryptFailed),
{
    if key.len() != 32 {
        return Err(CryptoError::KeyLength);
    }
    if ciphertext.len() < 12 {
        return Err(CryptoError::CiphertextTooShort);
    }
    let mut nonce: Vec<u8> = Vec::new();
    let mut i: usize = 0;
    while i < 12
        invariant
            i <= 12,
            ciphertext@.len() >= 12,
            nonce@ == ciphertext@.take(i as int),
        decreases 12 - i,
    {
        nonce.push(ciphertext[i]);
        proof {
            assert(ciphertext@.take(i + 1) =~= ciphertext@.take(i as int).push(
                ciphertext@[i as int],
            ));
        }
        i = i + 1;
    }
    let mut body: Vec<u8> = Vec::new();
    let mut j: usize = 12;
    while j < ciphertext.len()
        invariant
            12 <= j <= ciphertext@.len(),
            body@ == ciphertext@.subrange(12, j as int),
        decreases ciphertext@.len() - j,
    {
        body.push(ciphertext[j]);
        proof {
            assert(ciphertext@.subrange(12, j + 1) =~= ciphertext@.subrange(12, j as int).push(
                ciphertext@[j as int],
            ));
        }
        j = j + 1;
    }
    proof {
        assert(body@ =~= ciphertext@.skip(12));
    }
    match aead_open(key, &nonce, body.as_slice()) {
        Some(plain) => Ok(plain),
        None => Err(CryptoError::DecryptFailed),
    }
}

} // verus!
