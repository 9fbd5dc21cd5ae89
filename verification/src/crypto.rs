//! Hashes, Ed25519 keys and signatures, and account addresses.
//!
//! Keys and signatures are held as their byte encodings; the Ed25519 and
//! SHA-256 computations themselves are made by `ed25519-dalek` and `sha2`.
use vstd::prelude::*;
use ed25519_dalek::Signer;
use ed25519_dalek::Verifier;
use sha2::Digest;

verus! {

broadcast use vstd::array::group_array_axioms;

/// The SHA-256 digest of a byte string (32 bytes).
pub uninterp spec fn sha256(data: Seq<u8>) -> Seq<u8>;

/// Whether 32 bytes decode as an Ed25519 public key (a point on the curve,
/// ZIP-215 rules).
pub uninterp spec fn ed25519_decodes(key: Seq<u8>) -> bool;

/// Whether `sig` is a valid Ed25519 signature of `msg` under the public key
/// encoded by `key` (false when `key` does not decode).
pub uninterp spec fn ed25519_verify(key: Seq<u8>, msg: Seq<u8>, sig: Seq<u8>) -> bool;

/// The encoded public key that belongs to a 32-byte Ed25519 secret seed.
pub uninterp spec fn ed25519_public_key(seed: Seq<u8>) -> Seq<u8>;

/// The Ed25519 signature of `msg` made with the secret seed `seed`.
pub uninterp spec fn ed25519_sign(seed: Seq<u8>, msg: Seq<u8>) -> Seq<u8>;

/// Calls `sha2::Sha256::digest` on `data`; the result is the SHA-256 digest
/// of the bytes.
#[verifier::external_body]
fn sha256_digest(data: &[u8]) -> (res: [u8; 32])
    ensures
        res@ == sha256(data@),
{
    sha2::Sha256::digest(data).into()
}

/// Calls `ed25519_dalek::VerifyingKey::from_bytes`; the result says whether
/// decoding succeeded.
#[verifier::external_body]
fn ed25519_key_decodes(key: &[u8; 32]) -> (res: bool)
    ensures
        res == ed25519_decodes(key@),
{
    ed25519_dalek::VerifyingKey::from_bytes(key).is_ok()
}

/// Decodes `key` with `ed25519_dalek::VerifyingKey::from_bytes` and calls
/// its `verify` (the `Verifier` trait) on `msg` and the signature decoded by
/// `ed25519_dalek::Signature::from_bytes`; a key that does not decode gives
/// `false`.
#[verifier::external_body]
fn ed25519_verify_bytes(key: &[u8; 32], msg: &[u8], sig: &[u8; 64]) -> (res: bool)
    ensures
        res == ed25519_verify(key@, msg@, sig@),
{
    match ed25519_dalek::VerifyingKey::from_bytes(key) {
        Ok(k) => k.verify(msg, &ed25519_dalek::Signature::from_bytes(sig)).is_ok(),
        Err(_) => false,
    }
}

/// Calls `ed25519_dalek::SigningKey::from_bytes(seed).verifying_key()` and
/// returns its encoding. The documentation of the crate gives that the
/// encoding of a verifying key decodes again.
#[verifier::external_body]
fn ed25519_public_key_of(seed: &[u8; 32]) -> (res: [u8; 32])
    ensures
        res@ == ed25519_public_key(seed@),
        ed25519_decodes(res@),
{
    ed25519_dalek::SigningKey::from_bytes(seed).verifying_key().to_bytes()
}

/// Calls `ed25519_dalek::SigningKey::from_bytes(seed).sign(msg)` (the
/// `Signer` trait) and returns the signature's encoding. The clause on
/// `ed25519_verify` is the correctness of Ed25519 that the crate documents:
/// a signature made with a secret key verifies under its public key.
#[verifier::external_body]
fn ed25519_sign_bytes(seed: &[u8; 32], msg: &[u8]) -> (res: [u8; 64])
    ensures
        res@ == ed25519_sign(seed@, msg@),
        ed25519_verify(ed25519_public_key(seed@), msg@, res@),
{
    ed25519_dalek::SigningKey::from_bytes(seed).sign(msg).to_bytes()
}

/// Calls `ed25519_dalek::SigningKey::generate` with the operating system's
/// random source and returns the secret seed. Nothing is stated of the
/// seed: it is random.
#[verifier::external_body]
fn ed25519_random_seed() -> (res: [u8; 32]) {
    ed25519_dalek::SigningKey::generate(&mut rand::rngs::OsRng).to_bytes()
}

/// Byte-wise equality of two 32-byte strings.
pub fn bytes32_eq(a: &[u8; 32], b: &[u8; 32]) -> (res: bool)
    ensures
        res == (a@ == b@),
{
    let mut i: usize = 0;
    while i < 32
        invariant
            i <= 32,
            a@.len() == 32,
            b@.len() == 32,
            forall|j: int| 0 <= j < i ==> a@[j] == b@[j],
        decreases 32 - i,
    {
        if a[i] != b[i] {
            return false;
        }
        i += 1;
    }
    assert(a@ =~= b@);
    true
}

/// Strict lexicographic order on byte strings of one length: the first
/// position where they differ holds a smaller byte in `a`.
pub open spec fn bytes_lt(a: Seq<u8>, b: Seq<u8>) -> bool {
    exists|k: int|
        0 <= k < a.len() && k < b.len() && a[k] < b[k] && (forall|j: int|
            0 <= j < k ==> #[trigger] a[j] == b[j])
}

/// The outcome of comparing two byte strings.
#[derive(Clone, Copy, Debug, PartialEq, Eq, Structural)]
pub enum ByteOrder {
    Less,
    Equal,
    Greater,
}

/// Lexicographic comparison of two 32-byte strings.
pub fn bytes32_order(a: &[u8; 32], b: &[u8; 32]) -> (res: ByteOrder)
    ensures
        res == ByteOrder::Less <==> bytes_lt(a@, b@),
        res == ByteOrder::Greater <==> bytes_lt(b@, a@),
        res == ByteOrder::Equal <==> a@ == b@,
{
    let mut i: usize = 0;
    while i < 32
        invariant
            i <= 32,
            a@.len() == 32,
            b@.len() == 32,
            forall|j: int| 0 <= j < i ==> a@[j] == b@[j],
        decreases 32 - i,
    {
        if a[i] < b[i] {
            proof {
                assert(bytes_lt(a@, b@));
                lemma_bytes_lt_not_both(a@, b@, i as int);
            }
            return ByteOrder::Less;
        }
        if a[i] > b[i] {
            proof {
                assert(bytes_lt(b@, a@));
                lemma_bytes_lt_not_both(b@, a@, i as int);
            }
            return ByteOrder::Greater;
        }
        i += 1;
    }
    assert(a@ =~= b@);
    proof {
        if bytes_lt(a@, b@) {
            let k = choose|k: int|
                0 <= k < a@.len() && k < b@.len() && a@[k] < b@[k] && (forall|j: int|
                    0 <= j < k ==> #[trigger] a@[j] == b@[j]);
            assert(a@[k] == b@[k]);
        }
        if bytes_lt(b@, a@) {
            let k = choose|k: int|
                0 <= k < b@.len() && k < a@.len() && b@[k] < a@[k] && (forall|j: int|
                    0 <= j < k ==> #[trigger] b@[j] == a@[j]);
            assert(a@[k] == b@[k]);
        }
    }
    ByteOrder::Equal
}

/// If `a` and `b` first differ at `i` with `a[i] < b[i]`, then `b` is not
/// below `a` and they differ.
proof fn lemma_bytes_lt_not_both(a: Seq<u8>, b: Seq<u8>, i: int)
    requires
        0 <= i < a.len(),
        i < b.len(),
        a[i] < b[i],
        forall|j: int| 0 <= j < i ==> a[j] == b[j],
    ensures
        !bytes_lt(b, a),
        a != b,
{
    if bytes_lt(b, a) {
        let k = choose|k: int|
            0 <= k < b.len() && k < a.len() && b[k] < a[k] && (forall|j: int|
                0 <= j < k ==> #[trigger] b[j] == a[j]);
        if k < i {
            assert(a[k] == b[k]);
        } else if k > i {
            assert(b[i] == a[i]);
        }
    }
    assert(a[i] != b[i]);
}

/// The lexicographic order is transitive.
pub proof fn lemma_bytes_lt_transitive(a: Seq<u8>, b: Seq<u8>, c: Seq<u8>)
    requires
        bytes_lt(a, b),
        bytes_lt(b, c),
    ensures
        bytes_lt(a, c),
{
    let k1 = choose|k: int|
        0 <= k < a.len() && k < b.len() && a[k] < b[k] && (forall|j: int|
            0 <= j < k ==> #[trigger] a[j] == b[j]);
    let k2 = choose|k: int|
        0 <= k < b.len() && k < c.len() && b[k] < c[k] && (forall|j: int|
            0 <= j < k ==> #[trigger] b[j] == c[j]);
    let k = if k1 < k2 { k1 } else { k2 };
    assert(a[k] < c[k]) by {
        if k1 < k2 {
            assert(b[k1] == c[k1]);
        } else if k2 < k1 {
            assert(a[k2] == b[k2]);
        }
    }
    assert forall|j: int| 0 <= j < k implies #[trigger] a[j] == c[j] by {
        assert(a[j] == b[j]);
        assert(b[j] == c[j]);
    }
}

/// Two different byte strings of one length are ordered one way or the
/// other.
pub proof fn lemma_bytes_lt_total(a: Seq<u8>, b: Seq<u8>)
    requires
        a.len() == b.len(),
        a != b,
    ensures
        bytes_lt(a, b) || bytes_lt(b, a),
{
    lemma_first_difference(a, b, 0);
}

proof fn lemma_first_difference(a: Seq<u8>, b: Seq<u8>, i: int)
    requires
        a.len() == b.len(),
        a != b,
        0 <= i <= a.len(),
        forall|j: int| 0 <= j < i ==> a[j] == b[j],
    ensures
        bytes_lt(a, b) || bytes_lt(b, a),
    decreases a.len() - i,
{
    if i == a.len() {
        assert(a =~= b);
    } else if a[i] == b[i] {
        lemma_first_difference(a, b, i + 1);
    } else if a[i] < b[i] {
        assert(bytes_lt(a, b));
    } else {
        assert forall|j: int| 0 <= j < i implies #[trigger] b[j] == a[j] by {
            assert(a[j] == b[j]);
        }
        assert(bytes_lt(b, a));
    }
}

/// No byte string is below itself.
pub proof fn lemma_bytes_lt_irreflexive(a: Seq<u8>)
    ensures
        !bytes_lt(a, a),
{
}

/// A 32-byte digest.
#[derive(Clone, Copy, Debug, PartialEq, Eq, PartialOrd, Ord)]
pub struct Hash(pub [u8; 32]);

impl View for Hash {
    type V = Seq<u8>;

    open spec fn view(&self) -> Seq<u8> {
        self.0@
    }
}

impl Hash {
    /// The SHA-256 digest of `data`.
    pub fn digest(data: &[u8]) -> (res: Hash)
        ensures
            res@ == sha256(data@),
    {
        Hash(sha256_digest(data))
    }

    /// The all-zero hash (the hash that no block has yet).
    pub fn zero() -> (res: Hash)
        ensures
            res@ == Seq::new(32, |i: int| 0u8),
    {
        let res = Hash([0u8; 32]);
        assert(res@ =~= Seq::new(32, |i: int| 0u8));
        res
    }

    pub fn from_bytes(bytes: [u8; 32]) -> (res: Hash)
        ensures
            res@ == bytes@,
    {
        Hash(bytes)
    }

    pub fn to_bytes(&self) -> (res: [u8; 32])
        ensures
            res@ == self@,
    {
        self.0
    }

    pub fn as_bytes(&self) -> (res: &[u8; 32])
        ensures
            res@ == self@,
    {
        &self.0
    }

    /// Equality of two hashes, byte for byte.
    pub fn equals(&self, other: &Hash) -> (res: bool)
        ensures
            res == (self@ == other@),
    {
        bytes32_eq(&self.0, &other.0)
    }
}

impl Default for Hash {
    fn default() -> (res: Hash)
        ensures
            res@ == Seq::new(32, |i: int| 0u8),
    {
        Hash::zero()
    }
}

/// Why a cryptographic check failed.
#[derive(Clone, Copy, Debug, PartialEq, Eq)]
pub enum CryptoError {
    VerificationFailed,
    InvalidPublicKeyBytes,
}

/// An Ed25519 public key, held as its 32-byte encoding.
#[derive(Clone, Copy, Debug, PartialEq, Eq, PartialOrd, Ord, Hash)]
pub struct PublicKey(pub [u8; 32]);

impl View for PublicKey {
    type V = Seq<u8>;

    open spec fn view(&self) -> Seq<u8> {
        self.0@
    }
}

impl PublicKey {
    /// Accepts the encoding of a curve point as a public key.
    pub fn from_bytes(bytes: &[u8; 32]) -> (res: Result<PublicKey, CryptoError>)
        ensures
            res is Ok <==> ed25519_decodes(bytes@),
            res matches Ok(k) ==> k@ == bytes@,
            res matches Err(e) ==> e == CryptoError::InvalidPublicKeyBytes,
    {
        if ed25519_key_decodes(bytes) {
            Ok(PublicKey(*bytes))
        } else {
            Err(CryptoError::InvalidPublicKeyBytes)
        }
    }

    pub fn as_bytes(&self) -> (res: [u8; 32])
        ensures
            res@ == self@,
    {
        self.0
    }

    /// Checks `signature` as a signature of the 32 bytes of `hash`.
    pub fn verify(&self, hash: &Hash, signature: &Signature) -> (res: Result<(), CryptoError>)
        ensures
            res is Ok <==> ed25519_verify(self@, hash@, signature@),
            res matches Err(e) ==> e == CryptoError::VerificationFailed,
    {
        let msg: &[u8] = hash.0.as_slice();
        if ed25519_verify_bytes(&self.0, msg, &signature.0) {
            Ok(())
        } else {
            Err(CryptoError::VerificationFailed)
        }
    }

    /// Equality of two keys by their encodings.
    pub fn equals(&self, other: &PublicKey) -> (res: bool)
        ensures
            res == (self@ == other@),
    {
        bytes32_eq(&self.0, &other.0)
    }
}

/// A 64-byte Ed25519 signature.
#[derive(Clone, Copy, Debug, PartialEq, Eq)]
pub struct Signature(pub [u8; 64]);

impl View for Signature {
    type V = Seq<u8>;

    open spec fn view(&self) -> Seq<u8> {
        self.0@
    }
}

impl Signature {
    pub fn from_bytes(bytes: &[u8; 64]) -> (res: Signature)
        ensures
            res@ == bytes@,
    {
        Signature(*bytes)
    }

    pub fn to_bytes(&self) -> (res: [u8; 64])
        ensures
            res@ == self@,
    {
        self.0
    }
}

/// An Ed25519 secret key, held as its 32-byte seed.
pub struct Keypair {
    seed: [u8; 32],
}

impl Keypair {
    /// The secret seed of the key pair.
    pub closed spec fn seed_view(&self) -> Seq<u8> {
        self.seed@
    }

    /// A fresh key pair from the operating system's random source.
    pub fn generate() -> (res: Keypair) {
        Keypair { seed: ed25519_random_seed() }
    }

    pub fn from_seed(seed: &[u8; 32]) -> (res: Keypair)
        ensures
            res.seed_view() == seed@,
    {
        Keypair { seed: *seed }
    }

    pub fn to_seed(&self) -> (res: [u8; 32])
        ensures
            res@ == self.seed_view(),
    {
        self.seed
    }

    pub fn public_key(&self) -> (res: PublicKey)
        ensures
            res@ == ed25519_public_key(self.seed_view()),
            ed25519_decodes(res@),
    {
        PublicKey(ed25519_public_key_of(&self.seed))
    }

    /// Signs the 32 bytes of `hash`.
    pub fn sign(&self, hash: &Hash) -> (res: Signature)
        ensures
            res@ == ed25519_sign(self.seed_view(), hash@),
            ed25519_verify(ed25519_public_key(self.seed_view()), hash@, res@),
    {
        let msg: &[u8] = hash.0.as_slice();
        Signature(ed25519_sign_bytes(&self.seed, msg))
    }
}

/// An account address: the public key that owns the account.
#[derive(Clone, Copy, Debug, PartialEq, Eq, PartialOrd, Ord, Hash)]
pub struct Address(pub PublicKey);

impl View for Address {
    type V = Seq<u8>;

    open spec fn view(&self) -> Seq<u8> {
        self.0@
    }
}

impl Address {
    pub fn new(public_key: PublicKey) -> (res: Address)
        ensures
            res == Address(public_key),
    {
        Address(public_key)
    }

    pub fn public_key(&self) -> (res: &PublicKey)
        ensures
            *res == self.0,
    {
        &self.0
    }

    /// The raw bytes of the address.
    pub fn as_bytes(&self) -> (res: [u8; 32])
        ensures
            res@ == self@,
    {
        (self.0).0
    }

    /// Equality of two addresses by their bytes.
    pub fn equals(&self, other: &Address) -> (res: bool)
        ensures
            res == (self@ == other@),
    {
        bytes32_eq(&(self.0).0, &(other.0).0)
    }
}

impl From<PublicKey> for Address {
    fn from(public_key: PublicKey) -> (res: Address) {
        Address(public_key)
    }
}

impl vstd::std_specs::convert::FromSpecImpl<PublicKey> for Address {
    open spec fn obeys_from_spec() -> bool {
        true
    }

    open spec fn from_spec(v: PublicKey) -> Address {
        Address(v)
    }
}

} // verus!
