//! A signed transfer of funds from one account to another.
use vstd::prelude::*;
use crate::codec::le64;
use crate::crypto::{
    ed25519_public_key, ed25519_sign, ed25519_verify, sha256, CryptoError, Keypair, PublicKey,
    Signature,
};
use crate::error::TransactionError;

verus! {

/// The abstract value of a transaction: its fields.
pub struct TxView {
    pub sender: PublicKey,
    pub receiver: PublicKey,
    pub amount: u64,
    pub nonce: u64,
    pub signature: Signature,
    pub fee: u64,
}

#[derive(Clone, Copy, Debug, PartialEq, Eq)]
pub struct Transaction {
    sender: PublicKey,
    receiver: PublicKey,
    amount: u64,
    nonce: u64,
    signature: Signature,
    fee: u64,
}

impl View for Transaction {
    type V = TxView;

    closed spec fn view(&self) -> TxView {
        TxView {
            sender: self.sender,
            receiver: self.receiver,
            amount: self.amount,
            nonce: self.nonce,
            signature: self.signature,
            fee: self.fee,
        }
    }
}

/// The bytes that are hashed and signed: sender key, receiver key, amount,
/// nonce and fee.
pub open spec fn signing_payload(
    sender: Seq<u8>,
    receiver: Seq<u8>,
    amount: u64,
    nonce: u64,
    fee: u64,
) -> Seq<u8> {
    sender + receiver + le64(amount) + le64(nonce) + le64(fee)
}

/// The hash that the sender signs.
pub open spec fn signing_hash_of(t: TxView) -> Seq<u8> {
    sha256(signing_payload(t.sender@, t.receiver@, t.amount, t.nonce, t.fee))
}

/// The identifier of a transaction: the hash of the signed payload followed
/// by the signature.
pub open spec fn tx_id_of(t: TxView) -> Seq<u8> {
    sha256(signing_payload(t.sender@, t.receiver@, t.amount, t.nonce, t.fee) + t.signature@)
}

/// The checks on the fields alone: a positive amount between two different
/// keys.
pub open spec fn fields_check(sender: Seq<u8>, receiver: Seq<u8>, amount: u64) -> Result<
    (),
    TransactionError,
> {
    if amount == 0 {
        Err(TransactionError::ZeroAmount)
    } else if sender == receiver {
        Err(TransactionError::SelfTransfer)
    } else {
        Ok(())
    }
}

/// What `Transaction::verify` returns.
pub open spec fn verify_result(t: TxView) -> Result<(), TransactionError> {
    match fields_check(t.sender@, t.receiver@, t.amount) {
        Err(e) => Err(e),
        Ok(()) => if ed25519_verify(t.sender@, signing_hash_of(t), t.signature@) {
            Ok(())
        } else {
            Err(TransactionError::InvalidSignature(CryptoError::VerificationFailed))
        },
    }
}

/// The total that a transaction takes from its sender, if it fits in a `u64`.
pub open spec fn tx_cost(t: TxView) -> Option<u64> {
    if t.amount + t.fee <= u64::MAX {
        Some((t.amount + t.fee) as u64)
    } else {
        None
    }
}

/// Calls `bincode::serialize` on the tuple `(sender, receiver, amount, nonce,
/// fee)`. In the configuration of that function (no byte limit, fixed-width
/// little-endian integers) a tuple is written as its elements one after
/// another, a byte array byte by byte and a `u64` as eight little-endian
/// bytes; writing into a `Vec` cannot fail, so the result is always `Some`.
#[verifier::external_body]
fn bincode_signing_payload(sender: &[u8; 32], receiver: &[u8; 32], amount: u64, nonce: u64, fee: u64) -> (res: Option<Vec<u8>>)
    ensures
        res is Some,
        res.unwrap()@ == signing_payload(sender@, receiver@, amount, nonce, fee),
{
    bincode::serialize(&(*sender, *receiver, amount, nonce, fee)).ok()
}

/// Calls `bincode::serialize` on the tuple `(sender, receiver, amount, nonce,
/// fee, signature)`, the signature as an `ed25519_dalek::Signature`, whose
/// serde form is its 64 bytes as a tuple. The layout is that of
/// `bincode_signing_payload` followed by the 64 signature bytes.
#[verifier::external_body]
fn bincode_id_payload(sender: &[u8; 32], receiver: &[u8; 32], amount: u64, nonce: u64, fee: u64, signature: &[u8; 64]) -> (res: Option<Vec<u8>>)
    ensures
        res is Some,
        res.unwrap()@ == signing_payload(sender@, receiver@, amount, nonce, fee) + signature@,
{
    let sig = ed25519_dalek::Signature::from_bytes(signature);
    bincode::serialize(&(*sender, *receiver, amount, nonce, fee, sig)).ok()
}

impl Transaction {
    /// A transaction from the key pair `sender_keypair`, signed by it.
    pub fn new(
        sender_keypair: &Keypair,
        receiver: PublicKey,
        amount: u64,
        nonce: u64,
        fee: u64,
    ) -> (res: Result<Transaction, TransactionError>)
        ensures
            ({
                let sender = ed25519_public_key(sender_keypair.seed_view());
                match fields_check(sender, receiver@, amount) {
                    Err(e) => res == Err::<Transaction, TransactionError>(e),
                    Ok(()) => res matches Ok(tx) && tx@.sender@ == sender && tx@.receiver
                        == receiver && tx@.amount == amount && tx@.nonce == nonce && tx@.fee
                        == fee && tx@.signature@ == ed25519_sign(
                        sender_keypair.seed_view(),
                        signing_hash_of(tx@),
                    ),
                }
            }),
            res matches Ok(tx) ==> verify_result(tx@) is Ok,
    {
        let sender = sender_keypair.public_key();
        Self::validate_fields(&sender, &receiver, amount)?;
        let bytes = match bincode_signing_payload(&sender.0, &receiver.0, amount, nonce, fee) {
            Some(b) => b,
            None => {
                return Err(TransactionError::Serialization);
            },
        };
        let signing_hash = crate::crypto::Hash::digest(bytes.as_slice());
        let signature = sender_keypair.sign(&signing_hash);
        Ok(Transaction { sender, receiver, amount, nonce, signature, fee })
    }

    /// A transaction from its fields, as they were received; nothing is
    /// checked (see `verify`).
    pub fn from_parts(
        sender: PublicKey,
        receiver: PublicKey,
        amount: u64,
        nonce: u64,
        signature: Signature,
        fee: u64,
    ) -> (res: Transaction)
        ensures
            res@ == (TxView { sender, receiver, amount, nonce, signature, fee }),
    {
        Transaction { sender, receiver, amount, nonce, signature, fee }
    }

    fn validate_fields(sender: &PublicKey, receiver: &PublicKey, amount: u64) -> (res: Result<
        (),
        TransactionError,
    >)
        ensures
            res == fields_check(sender@, receiver@, amount),
    {
        if amount == 0 {
            return Err(TransactionError::ZeroAmount);
        }
        if sender.equals(receiver) {
            return Err(TransactionError::SelfTransfer);
        }
        Ok(())
    }

    /// The hash that the sender signs.
    pub fn signing_hash(&self) -> (res: Result<crate::crypto::Hash, TransactionError>)
        ensures
            res matches Ok(h) && h@ == signing_hash_of(self@),
    {
        match bincode_signing_payload(&self.sender.0, &self.receiver.0, self.amount, self.nonce, self.fee) {
            Some(bytes) => Ok(crate::crypto::Hash::digest(bytes.as_slice())),
            None => Err(TransactionError::Serialization),
        }
    }

    /// The signing hash, for callers that need the hash value itself.
    pub(crate) fn signing_digest(&self) -> (res: crate::crypto::Hash)
        ensures
            res@ == signing_hash_of(self@),
    {
        let bytes = bincode_signing_payload(&self.sender.0, &self.receiver.0, self.amount, self.nonce, self.fee).unwrap();
        crate::crypto::Hash::digest(bytes.as_slice())
    }

    /// Checks the fields and the sender's signature over the signing hash.
    pub fn verify(&self) -> (res: Result<(), TransactionError>)
        ensures
            res == verify_result(self@),
    {
        Self::validate_fields(&self.sender, &self.receiver, self.amount)?;
        let signing_hash = self.signing_digest();
        match self.sender.verify(&signing_hash, &self.signature) {
            Ok(()) => Ok(()),
            Err(e) => Err(TransactionError::InvalidSignature(e)),
        }
    }

    /// The identifier of the transaction (it covers the signature).
    pub fn tx_id(&self) -> (res: Result<crate::crypto::Hash, TransactionError>)
        ensures
            res matches Ok(h) && h@ == tx_id_of(self@),
    {
        match bincode_id_payload(&self.sender.0, &self.receiver.0, self.amount, self.nonce, self.fee, &self.signature.0) {
            Some(bytes) => Ok(crate::crypto::Hash::digest(bytes.as_slice())),
            None => Err(TransactionError::Serialization),
        }
    }

    /// The identifier of the transaction, as a hash value.
    pub fn id(&self) -> (res: crate::crypto::Hash)
        ensures
            res@ == tx_id_of(self@),
    {
        let bytes = bincode_id_payload(&self.sender.0, &self.receiver.0, self.amount, self.nonce, self.fee, &self.signature.0).unwrap();
        crate::crypto::Hash::digest(bytes.as_slice())
    }

    pub fn sender(&self) -> (res: &PublicKey)
        ensures
            *res == self@.sender,
    {
        &self.sender
    }

    pub fn receiver(&self) -> (res: &PublicKey)
        ensures
            *res == self@.receiver,
    {
        &self.receiver
    }

    pub fn amount(&self) -> (res: u64)
        ensures
            res == self@.amount,
    {
        self.amount
    }

    pub fn nonce(&self) -> (res: u64)
        ensures
            res == self@.nonce,
    {
        self.nonce
    }

    pub fn fee(&self) -> (res: u64)
        ensures
            res == self@.fee,
    {
        self.fee
    }

    pub fn signature(&self) -> (res: &Signature)
        ensures
            *res == self@.signature,
    {
        &self.signature
    }
}

} // verus!
