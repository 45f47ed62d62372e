use solvec_core::encryption::{
    decrypt_payload, derive_key_from_pubkey, encode_plaintext, encrypt_payload, encrypt_with_nonce, parse_plaintext,
};
use solvec_core::types::SolVecError;

fn to_groups(vectors: &[Vec<f32>]) -> Vec<Vec<[u8; 4]>> {
    vectors
        .iter()
        .map(|v| v.iter().map(|f| f.to_le_bytes()).collect())
        .collect()
}

fn from_groups(groups: &[Vec<[u8; 4]>]) -> Vec<Vec<f32>> {
    groups
        .iter()
        .map(|v| v.iter().map(|b| f32::from_le_bytes(*b)).collect())
        .collect()
}

fn encrypt_vectors(vectors: &[Vec<f32>], key: &[u8; 32]) -> Result<Vec<u8>, SolVecError> {
    encrypt_payload(&to_groups(vectors), key)
}

fn decrypt_vectors(encrypted: &[u8], key: &[u8; 32]) -> Result<Vec<Vec<f32>>, SolVecError> {
    decrypt_payload(encrypted, key).map(|g| from_groups(&g))
}

fn test_key() -> [u8; 32] {
    [42u8; 32]
}

#[test]
fn test_roundtrip_single_vector() {
    let key = test_key();
    let vectors = vec![vec![1.0f32, 2.0, 3.0, 4.0]];
    let encrypted = encrypt_vectors(&vectors, &key).unwrap();
    let decrypted = decrypt_vectors(&encrypted, &key).unwrap();
    assert_eq!(vectors, decrypted);
}

#[test]
fn test_roundtrip_multiple_vectors() {
    let key = test_key();
    let vectors: Vec<Vec<f32>> = (0..10)
        .map(|i| (0..384).map(|j| (i * j) as f32 * 0.001).collect())
        .collect();
    let encrypted = encrypt_vectors(&vectors, &key).unwrap();
    let decrypted = decrypt_vectors(&encrypted, &key).unwrap();
    assert_eq!(vectors.len(), decrypted.len());
    for (orig, dec) in vectors.iter().zip(decrypted.iter()) {
        for (a, b) in orig.iter().zip(dec.iter()) {
            assert!((a - b).abs() < 1e-6);
        }
    }
}

#[test]
fn test_wrong_key_fails() {
    let key1 = [1u8; 32];
    let key2 = [2u8; 32];
    let vectors = vec![vec![1.0f32, 2.0, 3.0]];
    let encrypted = encrypt_vectors(&vectors, &key1).unwrap();
    let result = decrypt_vectors(&encrypted, &key2);
    assert!(result.is_err());
}

#[test]
fn test_different_encryptions_of_same_data() {
    let key = test_key();
    let vectors = vec![vec![1.0f32, 2.0, 3.0]];
    let enc1 = encrypt_vectors(&vectors, &key).unwrap();
    let enc2 = encrypt_vectors(&vectors, &key).unwrap();
    assert_ne!(enc1, enc2, "Each encryption should use a unique nonce");
}

#[test]
fn test_empty_input() {
    let key = test_key();
    let result = encrypt_vectors(&[], &key);
    assert!(result.is_ok());
}

#[test]
fn payload_layout() {
    let key = test_key();
    let vectors = vec![vec![1.0f32, 2.0], vec![3.0f32, 4.0]];
    let encrypted = encrypt_vectors(&vectors, &key).unwrap();
    // nonce + (header + 2 * 2 * 4 bytes) + tag
    assert_eq!(encrypted.len(), 12 + 16 + 16 + 16);
    let empty = encrypt_vectors(&[], &key).unwrap();
    assert_eq!(empty.len(), 12 + 16 + 16);
    assert_eq!(decrypt_vectors(&empty, &key).unwrap(), Vec::<Vec<f32>>::new());
}

#[test]
fn plaintext_framing() {
    let pt = encode_plaintext(&[vec![[1, 2, 3, 4], [5, 6, 7, 8]], vec![[9, 10, 11, 12], [13, 14, 15, 16]]]);
    let mut expected = vec![2, 0, 0, 0, 0, 0, 0, 0, 2, 0, 0, 0, 0, 0, 0, 0];
    expected.extend(1..=16u8);
    assert_eq!(pt, expected);
    let back = parse_plaintext(&pt).unwrap();
    assert_eq!(back, vec![vec![[1, 2, 3, 4], [5, 6, 7, 8]], vec![[9, 10, 11, 12], [13, 14, 15, 16]]]);
}

#[test]
fn ragged_batch_uses_first_dimension() {
    let pt = encode_plaintext(&[vec![[1, 1, 1, 1]], vec![[2, 2, 2, 2], [3, 3, 3, 3]]]);
    assert_eq!(&pt[0..8], &[2, 0, 0, 0, 0, 0, 0, 0]);
    assert_eq!(&pt[8..16], &[1, 0, 0, 0, 0, 0, 0, 0]);
    assert_eq!(pt.len(), 16 + 12);
    assert_eq!(parse_plaintext(&pt).unwrap(), vec![vec![[1, 1, 1, 1]], vec![[2, 2, 2, 2]]]);
}

#[test]
fn decode_errors() {
    assert_eq!(
        parse_plaintext(&[0u8; 15]),
        Err(SolVecError::DecryptionError("Invalid plaintext length".to_string()))
    );
    let mut pt = vec![1, 0, 0, 0, 0, 0, 0, 0, 2, 0, 0, 0, 0, 0, 0, 0];
    pt.extend([0u8; 7]);
    assert_eq!(
        parse_plaintext(&pt),
        Err(SolVecError::DecryptionError("Plaintext length mismatch".to_string()))
    );
    let huge = vec![255u8; 16];
    assert_eq!(
        parse_plaintext(&huge),
        Err(SolVecError::DecryptionError("Plaintext length mismatch".to_string()))
    );
    let zero_dim = vec![5, 0, 0, 0, 0, 0, 0, 0, 0, 0, 0, 0, 0, 0, 0, 0, 9, 9];
    assert_eq!(parse_plaintext(&zero_dim), Ok(vec![]));
    assert_eq!(
        decrypt_payload(&[0u8; 11], &test_key()),
        Err(SolVecError::DecryptionError("Ciphertext too short".to_string()))
    );
    assert_eq!(
        decrypt_payload(&[0u8; 40], &test_key()),
        Err(SolVecError::DecryptionError("aead::Error".to_string()))
    );
}

#[test]
fn tampered_ciphertext_is_rejected() {
    let key = test_key();
    let mut encrypted = encrypt_vectors(&[vec![1.0f32]], &key).unwrap();
    let last = encrypted.len() - 1;
    encrypted[last] ^= 0x80;
    assert!(decrypt_vectors(&encrypted, &key).is_err());
}

#[test]
fn key_derivation_is_sha256_of_prefixed_pubkey() {
    let key = derive_key_from_pubkey(&[0u8; 32]);
    let hex: String = key.iter().map(|b| format!("{:02x}", b)).collect();
    assert_eq!(hex, "d59729d00ae5347d97097888a2980dfef4c2b8ab7327274c5c980f641b48bcb0");
    assert_ne!(derive_key_from_pubkey(&[1u8; 32]), key);
}

#[test]
fn encrypting_with_a_given_nonce_is_deterministic() {
    let vectors = vec![vec![1.0f32, 2.0], vec![3.0, 4.0]];
    let nonce = [7u8; 12];
    let a = encrypt_with_nonce(&to_groups(&vectors), &test_key(), &nonce).unwrap();
    let b = encrypt_with_nonce(&to_groups(&vectors), &test_key(), &nonce).unwrap();
    assert_eq!(a, b);
    assert_eq!(&a[..12], &nonce);
    assert_eq!(a.len(), 12 + 16 + 2 * 2 * 4 + 16);
    assert_eq!(decrypt_vectors(&a, &test_key()).unwrap(), vectors);
}
