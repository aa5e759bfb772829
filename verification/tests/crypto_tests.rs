use vaultsync::crypto::{decrypt_content, encrypt_content, CryptoError};

#[test]
fn test_encrypt_decrypt() {
    let key = [0u8; 32];
    let plaintext = "Hello, World! 这是测试内容。";

    let ciphertext = encrypt_content(plaintext, &key).unwrap();
    assert!(!ciphertext.is_empty());

    let decrypted = decrypt_content(&ciphertext, &key).unwrap();
    assert_eq!(decrypted, plaintext);
}

#[test]
fn test_different_nonce() {
    let key = [0u8; 32];
    let plaintext = "相同的明文";

    let ciphertext1 = encrypt_content(plaintext, &key).unwrap();
    let ciphertext2 = encrypt_content(plaintext, &key).unwrap();

    assert_ne!(ciphertext1, ciphertext2);

    assert_eq!(
        decrypt_content(&ciphertext1, &key).unwrap(),
        decrypt_content(&ciphertext2, &key).unwrap()
    );
}

#[test]
fn encrypt_rejects_short_key() {
    let key = [0u8; 16];
    assert_eq!(encrypt_content("abc", &key), Err(CryptoError::KeyLength));
}

#[test]
fn decrypt_rejects_short_ciphertext() {
    let key = [0u8; 32];
    assert_eq!(
        decrypt_content(&[1, 2, 3], &key),
        Err(CryptoError::CiphertextTooShort)
    );
}

#[test]
fn decrypt_rejects_wrong_key() {
    let key = [0u8; 32];
    let other = [7u8; 32];
    let ciphertext = encrypt_content("secret", &key).unwrap();
    assert_eq!(
        decrypt_content(&ciphertext, &other),
        Err(CryptoError::DecryptFailed)
    );
}

#[test]
fn decrypt_rejects_tampered_ciphertext() {
    let key = [0u8; 32];
    let mut ciphertext = encrypt_content("secret", &key).unwrap();
    let last = ciphertext.len() - 1;
    ciphertext[last] ^= 0xff;
    assert_eq!(
        decrypt_content(&ciphertext, &key),
        Err(CryptoError::DecryptFailed)
    );
}

#[test]
fn ciphertext_is_not_the_plaintext() {
    let key = [0u8; 32];
    let ciphertext = encrypt_content("plain text body", &key).unwrap();
    assert_ne!(&ciphertext[12..], "plain text body".as_bytes());
}
