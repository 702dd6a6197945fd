use stegano::cypher::simple_decrypt;
use stegano::cypher::simple_encrypt;
use stegano::errors::StegError;

#[test]
fn test_simple_encrypt_decrypt() {
    let encrypted = simple_encrypt("Hello, how is the weather today", "Pass").unwrap();

    assert_eq!(
        simple_decrypt(&encrypted, "Pass"),
        Ok("Hello, how is the weather today".to_string())
    );
}

#[test]
fn test_encrypt_changes_bytes() {
    let message = "Hello, how is the weather today";
    let encrypted = simple_encrypt(message, "Password").unwrap();
    // AES-CBC with PKCS padding pads to whole blocks and scrambles the data.
    assert_eq!(encrypted.len() % 16, 0);
    assert!(encrypted.len() > message.len());
    assert_ne!(&encrypted[..message.len()], message.as_bytes());
}

#[test]
fn test_encrypt_is_deterministic() {
    let a = simple_encrypt("same message", "same password").unwrap();
    let b = simple_encrypt("same message", "same password").unwrap();
    assert_eq!(a, b);
}

#[test]
fn test_decrypt_rejects_partial_block() {
    // One byte is not a whole cipher block, so decryption must fail.
    let stub = vec![0u8];
    assert_eq!(simple_decrypt(&stub, "Password"), Err(StegError::CipherFailure));
}

#[test]
fn test_decrypt_rejects_empty_input() {
    // A padded plaintext is never empty, so no valid ciphertext is either.
    let stub: Vec<u8> = Vec::new();
    assert_eq!(simple_decrypt(&stub, "Password"), Err(StegError::CipherFailure));
}
