use autoorganize::encryption::{
    EncryptedData, EncryptionConfig, EncryptionEngine, EncryptionError, EncryptionKey, EncryptionUtils,
};

fn enabled_engine() -> EncryptionEngine {
    let mut config = EncryptionConfig::default();
    config.enabled = true;
    let mut engine = EncryptionEngine::new(config).unwrap();
    engine.set_master_key(EncryptionKey::generate());
    engine
}

#[test]
fn lib_test_encryption_engine_creation() {
    let engine = EncryptionEngine::new(EncryptionConfig::default());
    assert!(engine.is_ok());
}

#[test]
fn test_key_derivation() {
    let salt = vec![1u8; 32];
    let key = EncryptionKey::from_password("test_password", &salt);
    assert!(key.is_ok());
    assert!(matches!(EncryptionKey::from_password("test_password", &vec![1u8; 3]), Err(EncryptionError::InvalidSalt)));
}

#[test]
fn test_encryption_decryption() {
    let engine = enabled_engine();
    let plaintext = "Hello, World!";
    let encrypted = engine.encrypt_string(plaintext).unwrap();
    let decrypted = engine.decrypt_string(&encrypted).unwrap();
    assert_eq!(plaintext, decrypted);
}

#[test]
fn tampered_ciphertext_is_rejected() {
    let engine = enabled_engine();
    let mut encrypted = engine.encrypt(b"secret message").unwrap();
    let other = engine.encrypt(b"another message").unwrap();
    encrypted.ciphertext = other.ciphertext;
    assert!(matches!(engine.decrypt(&encrypted), Err(EncryptionError::InvalidMac)));
}

#[test]
fn test_encrypt_decrypt_with_wrong_key() {
    let engine = enabled_engine();
    let encrypted = engine.encrypt(b"Secret message").unwrap();
    let other = enabled_engine();
    assert!(matches!(other.decrypt(&encrypted), Err(EncryptionError::InvalidMac)));
}

#[test]
fn disabled_or_keyless_engine_refuses() {
    let engine = EncryptionEngine::new(EncryptionConfig::default()).unwrap();
    assert!(matches!(engine.encrypt(b"x"), Err(EncryptionError::Disabled)));
    let mut config = EncryptionConfig::default();
    config.enabled = true;
    let keyless = EncryptionEngine::new(config).unwrap();
    assert!(matches!(keyless.encrypt(b"x"), Err(EncryptionError::KeyMissing)));
    let bad = EncryptedData { ciphertext: "!!".to_string(), nonce: "AAAA".to_string(), salt: None };
    assert!(matches!(enabled_engine().decrypt(&bad), Err(EncryptionError::InvalidEncoding)));
    let short_nonce = EncryptedData { ciphertext: "AAAA".to_string(), nonce: "AAAA".to_string(), salt: None };
    assert!(matches!(enabled_engine().decrypt(&short_nonce), Err(EncryptionError::InvalidNonce)));
}

#[test]
fn password_key_round_trip() {
    let mut config = EncryptionConfig::default();
    config.enabled = true;
    let mut engine = EncryptionEngine::new(config).unwrap();
    let salt = engine.set_master_password("pw").unwrap();
    assert_eq!(salt.len(), 32);
    let sealed = engine.encrypt(b"data").unwrap();
    assert_eq!(engine.decrypt(&sealed).unwrap(), b"data".to_vec());
}

#[test]
fn random_material_has_requested_size() {
    assert_eq!(EncryptionUtils::secure_random_bytes(16).len(), 16);
    assert_eq!(EncryptionUtils::generate_secure_token(32).len(), 44);
}

#[test]
fn test_password_hashing() {
    let engine = EncryptionEngine::new(EncryptionConfig::default()).unwrap();
    let salt = engine.generate_salt();
    assert_eq!(salt.len(), 32);
    let hash = engine.hash_password("test_password").unwrap();
    assert!(engine.verify_password("test_password", &hash));
    assert!(!engine.verify_password("wrong_password", &hash));
    assert!(!engine.verify_password("test_password", "not base64!"));
}
