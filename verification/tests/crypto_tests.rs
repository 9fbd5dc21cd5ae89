use blockchain_core::crypto::{bytes32_eq, bytes32_order, ByteOrder, CryptoError, Keypair, PublicKey, Signature};

#[test]
fn test_hash_generation_and_conversions() {
    let data = b"blockchain_transaction";
    let hash1 = blockchain_core::crypto::Hash::digest(data);
    let hash2 = blockchain_core::crypto::Hash::digest(data);

    // Hashes of identical data must match
    assert_eq!(hash1, hash2);

    let raw_bytes: [u8; 32] = hash1.to_bytes();
    let reconstructed_hash = blockchain_core::crypto::Hash::from_bytes(raw_bytes);
    assert_eq!(hash1, reconstructed_hash);
}

#[test]
fn test_keypair_generation_and_public_key_derivation() {
    let keypair = Keypair::generate();
    let public_key = keypair.public_key();

    let pk_bytes = public_key.as_bytes();
    let reconstructed_public_key = PublicKey::from_bytes(&pk_bytes).unwrap();
    assert_eq!(public_key.as_bytes(), reconstructed_public_key.as_bytes());

    assert_eq!(public_key, reconstructed_public_key);
}

#[test]
fn test_valid_signature_signing_and_verification() {
    let keypair = Keypair::generate();
    let public_key = keypair.public_key();

    let message_hash = blockchain_core::crypto::Hash::digest(b"Alice pays Bob 50 tokens");
    let signature = keypair.sign(&message_hash);

    assert!(public_key.verify(&message_hash, &signature).is_ok());
}

#[test]
fn test_signature_fails_on_tampered_message() {
    let keypair = Keypair::generate();
    let public_key = keypair.public_key();

    let original_hash = blockchain_core::crypto::Hash::digest(b"Alice pays Bob 50 tokens");
    let signature = keypair.sign(&original_hash);

    let tampered_hash = blockchain_core::crypto::Hash::digest(b"Alice pays Bob 5000 tokens");

    let result = public_key.verify(&tampered_hash, &signature);
    assert_eq!(result, Err(CryptoError::VerificationFailed));
}

#[test]
fn test_signature_fails_with_wrong_public_key() {
    let alice_keypair = Keypair::generate();
    let bob_keypair = Keypair::generate();

    let message_hash = blockchain_core::crypto::Hash::digest(b"Transfer 10 tokens");
    let alice_signature = alice_keypair.sign(&message_hash);

    let result = bob_keypair
        .public_key()
        .verify(&message_hash, &alice_signature);
    assert_eq!(result, Err(CryptoError::VerificationFailed));
}

#[test]
fn test_signature_byte_serialization_roundtrip() {
    let keypair = Keypair::generate();
    let message_hash = blockchain_core::crypto::Hash::digest(b"Test message");
    let signature = keypair.sign(&message_hash);

    let sig_bytes: [u8; 64] = signature.to_bytes();
    let reconstructed_sig = Signature::from_bytes(&sig_bytes);

    assert_eq!(signature, reconstructed_sig);
}

#[test]
fn test_keypair_seed_recovery() {
    let original_keypair = Keypair::generate();
    let seed = original_keypair.to_seed();

    let recovered_keypair = Keypair::from_seed(&seed);

    assert_eq!(
        original_keypair.public_key(),
        recovered_keypair.public_key()
    );
}

#[test]
fn sha256_of_abc_is_the_standard_digest() {
    let h = blockchain_core::crypto::Hash::digest(b"abc");
    assert_eq!(
        hex::encode(h.to_bytes()),
        "ba7816bf8f01cfea414140de5dae2223b00361a396177a9cb410ff61f20015ad"
    );
}

#[test]
fn public_key_from_bytes_rejects_non_points() {
    // About half of all y coordinates have no point on the curve.
    let refused = (0u8..=255)
        .filter(|b| {
            let mut bytes = [0u8; 32];
            bytes[0] = *b;
            PublicKey::from_bytes(&bytes) == Err(CryptoError::InvalidPublicKeyBytes)
        })
        .count();
    assert!(refused > 0);
    assert!(refused < 256);
}

#[test]
fn known_seed_gives_the_rfc8032_public_key() {
    // RFC 8032, section 7.1, test 1.
    let seed: [u8; 32] = hex::decode("9d61b19deffd5a60ba844af492ec2cc44449c5697b326919703bac031cae7f60")
        .unwrap()
        .try_into()
        .unwrap();
    let kp = Keypair::from_seed(&seed);
    assert_eq!(
        hex::encode(kp.public_key().as_bytes()),
        "d75a980182b10ab7d54bfed3c964073a0ee172f3daa62325af021a68f707511a"
    );
}

#[test]
fn byte_order_is_lexicographic() {
    let a = [1u8; 32];
    let mut b = [1u8; 32];
    b[31] = 2;
    assert_eq!(bytes32_order(&a, &b), ByteOrder::Less);
    assert_eq!(bytes32_order(&b, &a), ByteOrder::Greater);
    assert_eq!(bytes32_order(&a, &a), ByteOrder::Equal);
    assert!(bytes32_eq(&a, &a));
    assert!(!bytes32_eq(&a, &b));
}
