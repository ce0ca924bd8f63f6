use sshman::storage::crypto::{
    base64_decode, base64_encode, decrypt, encrypt, AgeProvider, CryptoError, PasswordProvider,
};
use sshman::storage::table::PasswordTable;

#[test]
fn test_encrypt_decrypt_roundtrip() {
    let encrypted = encrypt("ssh_password_123", "master_pass").unwrap();
    let decrypted = decrypt(&encrypted, "master_pass").unwrap();
    assert_eq!(decrypted, "ssh_password_123");
}

#[test]
fn test_encrypt_decrypt_different_passwords() {
    let encrypted = encrypt("secret", "password1").unwrap();
    let result = decrypt(&encrypted, "password2");
    assert!(result.is_err());
}

#[test]
fn test_encrypt_produces_different_ciphertext() {
    let e1 = encrypt("same_password", "master").unwrap();
    let e2 = encrypt("same_password", "master").unwrap();
    assert_ne!(e1, e2);
}

#[test]
fn test_decrypt_invalid_base64() {
    let result = decrypt("not valid base64!!!", "master");
    assert!(result.is_err());
}

#[test]
fn test_decrypt_invalid_age_data() {
    let short = base64_encode(&[0u8; 10]);
    let result = decrypt(&short, "master");
    assert!(result.is_err());
}

#[test]
fn test_encrypt_empty_string() {
    let encrypted = encrypt("", "master").unwrap();
    let decrypted = decrypt(&encrypted, "master").unwrap();
    assert_eq!(decrypted, "");
}

#[test]
fn test_encrypt_unicode_password() {
    let plaintext = "密码测试🔐";
    let encrypted = encrypt(plaintext, "master").unwrap();
    let decrypted = decrypt(&encrypted, "master").unwrap();
    assert_eq!(decrypted, plaintext);
}

#[test]
fn test_encrypt_long_password() {
    let long_pw = "a".repeat(10000);
    let encrypted = encrypt(&long_pw, "master").unwrap();
    let decrypted = decrypt(&encrypted, "master").unwrap();
    assert_eq!(decrypted, long_pw);
}

#[test]
fn test_age_provider_encrypt_decrypt() {
    let mut provider = AgeProvider::new();
    let encrypted = encrypt("my_ssh_pass", "master123").unwrap();
    let mut entries = PasswordTable::new();
    entries.insert("prod-web".to_string(), encrypted);
    provider.load_encrypted_entries(entries);

    let password = provider.get_password("prod-web", "master123").unwrap();
    assert_eq!(password, "my_ssh_pass");
}

#[test]
fn test_age_provider_key_not_found() {
    let provider = AgeProvider::new();
    let result = provider.get_password("nonexist", "master");
    assert!(result.is_err());
}

#[test]
fn test_age_provider_wrong_master() {
    let mut provider = AgeProvider::new();
    let encrypted = encrypt("secret", "correct").unwrap();
    let mut entries = PasswordTable::new();
    entries.insert("key".to_string(), encrypted);
    provider.load_encrypted_entries(entries);

    let result = provider.get_password("key", "wrong");
    assert!(result.is_err());
}

#[test]
fn test_age_provider_load_entries() {
    let mut provider = AgeProvider::new();
    let encrypted = encrypt("password1", "master").unwrap();

    let mut entries = PasswordTable::new();
    entries.insert("alias".to_string(), encrypted);
    provider.load_encrypted_entries(entries);

    let result = provider.get_password("alias", "master").unwrap();
    assert_eq!(result, "password1");
}

#[test]
fn test_age_provider_encrypted_entries() {
    let mut provider = AgeProvider::new();
    let encrypted = encrypt("pw", "master").unwrap();
    let mut entries = PasswordTable::new();
    entries.insert("key".to_string(), encrypted.clone());
    provider.load_encrypted_entries(entries);

    let entries = provider.encrypted_entries();
    assert_eq!(entries.get("key").unwrap(), &encrypted);
}

#[test]
fn test_base64_roundtrip() {
    let data = vec![0u8, 1, 2, 255, 254, 253];
    let encoded = base64_encode(&data);
    let decoded = base64_decode(&encoded).unwrap();
    assert_eq!(data, decoded);
}

#[test]
fn test_base64_empty() {
    let encoded = base64_encode(&[]);
    let decoded = base64_decode(&encoded).unwrap();
    assert!(decoded.is_empty());
}

#[test]
fn test_base64_single_byte() {
    let data = vec![42u8];
    let encoded = base64_encode(&data);
    let decoded = base64_decode(&encoded).unwrap();
    assert_eq!(data, decoded);
}

#[test]
fn test_crypto_error_display() {
    assert!(CryptoError::EncryptionFailed("test".into()).to_string().contains("test"));
    assert!(CryptoError::DecryptionFailed("test".into()).to_string().contains("test"));
    assert!(!CryptoError::InvalidFormat.to_string().is_empty());
    assert!(!CryptoError::WrongMasterPassword.to_string().is_empty());
}
