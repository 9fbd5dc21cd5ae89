//! Blocks: a header committing to the previous block and to the
//! transactions (through a Merkle root), sealed by proof of work.
use vstd::prelude::*;
use crate::codec::{le64, push_bytes};
use crate::crypto::sha256;
use crate::error::BlockError;
use crate::state::tx_views;
use crate::transaction::{signing_hash_of, Transaction, TxView};

verus! {

broadcast use vstd::array::group_array_axioms;

/// The abstract value of a block header.
pub struct HeaderView {
    pub index: u64,
    pub timestamp: u64,
    pub previous_hash: Seq<u8>,
    pub merkle_root: Seq<u8>,
    pub nonce: u64,
    pub difficulty: usize,
}

#[derive(Clone, Copy, Debug, PartialEq, Eq)]
pub struct BlockHeader {
    pub index: u64,
    pub timestamp: u64,
    pub previous_hash: crate::crypto::Hash,
    pub merkle_root: crate::crypto::Hash,
    pub nonce: u64,
    pub difficulty: usize,
}

impl View for BlockHeader {
    type V = HeaderView;

    open spec fn view(&self) -> HeaderView {
        HeaderView {
            index: self.index,
            timestamp: self.timestamp,
            previous_hash: self.previous_hash@,
            merkle_root: self.merkle_root@,
            nonce: self.nonce,
            difficulty: self.difficulty,
        }
    }
}

/// The bytes of a header that are hashed: index, timestamp, previous hash,
/// Merkle root, nonce and difficulty, integers as eight little-endian bytes.
pub open spec fn header_bytes(h: HeaderView) -> Seq<u8> {
    le64(h.index) + le64(h.timestamp) + h.previous_hash + h.merkle_root + le64(h.nonce) + le64(
        h.difficulty as u64,
    )
}

/// The hash of a header.
pub open spec fn header_hash(h: HeaderView) -> Seq<u8> {
    sha256(header_bytes(h))
}

/// Proof of work: the first `difficulty` bytes of the hash (all of them,
/// when it is shorter) are zero.
pub open spec fn meets_difficulty(hash: Seq<u8>, difficulty: usize) -> bool {
    forall|i: int| 0 <= i < hash.len() && i < difficulty ==> #[trigger] hash[i] == 0
}

/// The smallest nonce from `n` up whose header hash meets the difficulty,
/// if there is one below `u64::MAX` inclusive.
pub open spec fn first_valid_nonce(h: HeaderView, difficulty: usize, n: u64) -> Option<u64>
    decreases u64::MAX - n,
{
    if meets_difficulty(header_hash(HeaderView { nonce: n, ..h }), difficulty) {
        Some(n)
    } else if n == u64::MAX {
        None
    } else {
        first_valid_nonce(h, difficulty, (n + 1) as u64)
    }
}

/// The tag that is hashed as the Merkle root of a block without
/// transactions: the ASCII bytes of `empty_block`.
pub open spec fn empty_block_tag() -> Seq<u8> {
    seq![101u8, 109, 112, 116, 121, 95, 98, 108, 111, 99, 107]
}

/// The signing hashes of `txs`, one after another.
pub open spec fn signing_hashes(txs: Seq<TxView>) -> Seq<u8>
    decreases txs.len(),
{
    if txs.len() == 0 {
        Seq::empty()
    } else {
        signing_hashes(txs.drop_last()) + signing_hash_of(txs.last())
    }
}

/// The Merkle root of a list of transactions: the hash of their signing
/// hashes, or of the empty-block tag when there are none.
pub open spec fn merkle_root_of(txs: Seq<TxView>) -> Seq<u8> {
    if txs.len() == 0 {
        sha256(empty_block_tag())
    } else {
        sha256(signing_hashes(txs))
    }
}

/// What `Block::is_valid` returns for a block with header `h`, hash `hash`
/// and transactions `txs`.
pub open spec fn block_check(h: HeaderView, txs: Seq<TxView>, hash: Seq<u8>, difficulty: usize) -> Result<
    (),
    BlockError,
> {
    if h.merkle_root != merkle_root_of(txs) {
        Err(BlockError::InvalidMerkleRoot)
    } else if header_hash(h) != hash {
        Err(BlockError::InvalidBlockHash)
    } else if !meets_difficulty(hash, difficulty) {
        Err(BlockError::InvalidProofOfWork)
    } else {
        Ok(())
    }
}

/// The header of a genesis block stamped with `timestamp`, before mining:
/// index zero, the zero hash as previous hash, the Merkle root of no
/// transactions, nonce zero.
pub open spec fn genesis_header(difficulty: usize, timestamp: u64) -> HeaderView {
    HeaderView {
        index: 0,
        timestamp,
        previous_hash: Seq::new(32, |i: int| 0u8),
        merkle_root: merkle_root_of(Seq::empty()),
        nonce: 0,
        difficulty,
    }
}

/// `b` is the genesis block mined at `difficulty`: its header is the genesis
/// header of its timestamp with the first nonce from zero that meets the
/// difficulty, it holds no transactions, and its hash is its header hash.
pub open spec fn is_genesis_block(b: Block, difficulty: usize) -> bool {
    let h = genesis_header(difficulty, b.header.timestamp);
    &&& first_valid_nonce(h, difficulty, 0) == Some(b.header.nonce)
    &&& b.header@ == HeaderView { nonce: b.header.nonce, ..h }
    &&& b.transactions@ == Seq::<Transaction>::empty()
    &&& b.hash@ == header_hash(b.header@)
}

/// What making a block stamped with `timestamp` gives: on `previous_hash`
/// with `txs`, mined from `nonce` up, the header takes the first nonce whose
/// hash meets the difficulty and the block's hash is that hash; when no
/// nonce up to `u64::MAX` does, `InvalidProofOfWork`.
pub open spec fn block_outcome(
    index: u64,
    previous_hash: crate::crypto::Hash,
    txs: Seq<Transaction>,
    difficulty: usize,
    nonce: u64,
    timestamp: u64,
    res: Result<Block, BlockError>,
) -> bool {
    let h = HeaderView {
        index,
        timestamp,
        previous_hash: previous_hash@,
        merkle_root: merkle_root_of(tx_views(txs)),
        nonce,
        difficulty,
    };
    match first_valid_nonce(h, difficulty, nonce) {
        Some(n) => res matches Ok(b) && b.header@ == HeaderView { nonce: n, ..h }
            && b.header.previous_hash == previous_hash && b.transactions@ == txs && b.hash@
            == header_hash(b.header@),
        None => res == Err::<Block, BlockError>(BlockError::InvalidProofOfWork),
    }
}

/// What making the genesis block stamped with `timestamp` gives.
pub open spec fn genesis_outcome(difficulty: usize, timestamp: u64, res: Result<Block, BlockError>) -> bool {
    match first_valid_nonce(genesis_header(difficulty, timestamp), difficulty, 0) {
        Some(n) => res matches Ok(b) && is_genesis_block(b, difficulty) && b.header.nonce == n
            && b.header.timestamp == timestamp,
        None => res == Err::<Block, BlockError>(BlockError::InvalidProofOfWork),
    }
}

/// The nonce that the search finds is at least where it started, and its
/// header hash meets the difficulty.
pub proof fn lemma_first_valid_nonce(h: HeaderView, difficulty: usize, n: u64)
    requires
        first_valid_nonce(h, difficulty, n) is Some,
    ensures
        ({
            let m = first_valid_nonce(h, difficulty, n).unwrap();
            &&& n <= m
            &&& meets_difficulty(header_hash(HeaderView { nonce: m, ..h }), difficulty)
        }),
    decreases u64::MAX - n,
{
    if !meets_difficulty(header_hash(HeaderView { nonce: n, ..h }), difficulty) && n < u64::MAX {
        lemma_first_valid_nonce(h, difficulty, (n + 1) as u64);
    }
}

/// A mined block is valid: with the Merkle root of its transactions and
/// the nonce that mining finds, the block whose hash is its header hash
/// passes `is_valid` at the difficulty it was mined for.
pub proof fn law_mined_block_is_valid(h: HeaderView, txs: Seq<TxView>, difficulty: usize, start: u64)
    requires
        h.merkle_root == merkle_root_of(txs),
        first_valid_nonce(h, difficulty, start) is Some,
    ensures
        ({
            let mined = HeaderView { nonce: first_valid_nonce(h, difficulty, start).unwrap(), ..h };
            block_check(mined, txs, header_hash(mined), difficulty) is Ok
        }),
{
    lemma_first_valid_nonce(h, difficulty, start);
}

/// Reads the system clock: the seconds since the Unix epoch, or `None` when
/// the clock is before it. Calls `std::time::SystemTime::now` and
/// `duration_since(UNIX_EPOCH)`; nothing is stated of the time read.
#[verifier::external_body]
pub(crate) fn unix_time_now() -> (res: Option<u64>) {
    match std::time::SystemTime::now().duration_since(std::time::UNIX_EPOCH) {
        Ok(d) => Some(d.as_secs()),
        Err(_) => None,
    }
}

/// Calls `bincode::serialize` on the tuple `(index, timestamp,
/// previous_hash, merkle_root, nonce, difficulty)`, the fields of a header in
/// order. In that function's configuration (no byte limit, fixed-width
/// little-endian integers) a tuple is its elements one after another, a byte
/// array its bytes, and a `u64` or `usize` eight little-endian bytes;
/// writing into a `Vec` cannot fail, so the result is always `Some`.
#[verifier::external_body]
fn bincode_header(index: u64, timestamp: u64, previous_hash: &[u8; 32], merkle_root: &[u8; 32], nonce: u64, difficulty: usize) -> (res: Option<Vec<u8>>)
    ensures
        res is Some,
        res.unwrap()@ == le64(index) + le64(timestamp) + previous_hash@ + merkle_root@ + le64(nonce) + le64(difficulty as u64),
{
    bincode::serialize(&(index, timestamp, *previous_hash, *merkle_root, nonce, difficulty)).ok()
}

impl BlockHeader {
    /// The bytes of the header that are hashed: its bincode encoding.
    pub fn to_bytes(&self) -> (res: Vec<u8>)
        ensures
            res@ == header_bytes(self@),
    {
        let p = self.previous_hash.to_bytes();
        let m = self.merkle_root.to_bytes();
        bincode_header(self.index, self.timestamp, &p, &m, self.nonce, self.difficulty).unwrap()
    }

    pub fn calculate_hash(&self) -> (res: crate::crypto::Hash)
        ensures
            res@ == header_hash(self@),
    {
        let bytes = self.to_bytes();
        crate::crypto::Hash::digest(bytes.as_slice())
    }
}

#[derive(Debug, PartialEq, Eq)]
pub struct Block {
    pub header: BlockHeader,
    pub transactions: Vec<Transaction>,
    pub hash: crate::crypto::Hash,
}

impl Clone for Block {
    fn clone(&self) -> (res: Block)
        ensures
            res.header == self.header,
            res.transactions@ == self.transactions@,
            res.hash == self.hash,
    {
        let mut txs: Vec<Transaction> = Vec::new();
        let mut i: usize = 0;
        while i < self.transactions.len()
            invariant
                i <= self.transactions@.len(),
                txs@ == self.transactions@.take(i as int),
            decreases self.transactions@.len() - i,
        {
            txs.push(self.transactions[i]);
            assert(txs@ =~= self.transactions@.take(i + 1));
            i += 1;
        }
        assert(self.transactions@.take(i as int) =~= self.transactions@);
        Block { header: self.header, transactions: txs, hash: self.hash }
    }
}

impl Block {
    /// A block on `previous_hash` with `transactions`, stamped with
    /// `timestamp` and mined from `nonce` up: its header takes the first
    /// nonce whose hash meets the difficulty, and its hash is that hash.
    pub fn new_with_timestamp(
        index: u64,
        previous_hash: crate::crypto::Hash,
        transactions: Vec<Transaction>,
        difficulty: usize,
        nonce: u64,
        timestamp: u64,
    ) -> (res: Result<Block, BlockError>)
        ensures
            block_outcome(index, previous_hash, transactions@, difficulty, nonce, timestamp, res),
    {
        let merkle_root = match Self::calculate_merkle_root(transactions.as_slice()) {
            Ok(h) => h,
            Err(e) => {
                return Err(e);
            },
        };
        let header = BlockHeader { index, timestamp, previous_hash, merkle_root, difficulty, nonce };
        let mut block = Block { header, transactions, hash: crate::crypto::Hash::zero() };
        block.mine(difficulty)?;
        Ok(block)
    }

    /// A block stamped with the current time (see `new_with_timestamp`);
    /// fails with `InvalidTimestamp` when the clock is before the Unix
    /// epoch.
    pub fn new(
        index: u64,
        previous_hash: crate::crypto::Hash,
        transactions: Vec<Transaction>,
        difficulty: usize,
        nonce: u64,
    ) -> (res: Result<Block, BlockError>)
        ensures
            res matches Ok(b) ==> ({
                let h = HeaderView {
                    index,
                    timestamp: b.header.timestamp,
                    previous_hash: previous_hash@,
                    merkle_root: merkle_root_of(tx_views(transactions@)),
                    nonce,
                    difficulty,
                };
                &&& first_valid_nonce(h, difficulty, nonce) == Some(b.header.nonce)
                &&& b.header@ == HeaderView { nonce: b.header.nonce, ..h }
                &&& b.header.previous_hash == previous_hash
                &&& b.transactions@ == transactions@
                &&& b.hash@ == header_hash(b.header@)
            }),
            res matches Err(e) ==> e == BlockError::InvalidTimestamp || e
                == BlockError::InvalidProofOfWork,
            res == Err::<Block, BlockError>(BlockError::InvalidTimestamp) || exists|t: u64|
                block_outcome(index, previous_hash, transactions@, difficulty, nonce, t, res),
    {
        let timestamp = match unix_time_now() {
            Some(t) => t,
            None => {
                return Err(BlockError::InvalidTimestamp);
            },
        };
        let ghost txs = transactions@;
        let res = Self::new_with_timestamp(index, previous_hash, transactions, difficulty, nonce, timestamp);
        assert(block_outcome(index, previous_hash, txs, difficulty, nonce, timestamp, res));
        res
    }

    /// Writes the signing hashes of `txs` one after another.
    fn concat_signing_hashes(txs: &[Transaction]) -> (res: Vec<u8>)
        ensures
            res@ == signing_hashes(tx_views(txs@)),
    {
        let ghost tv = tx_views(txs@);
        let mut out: Vec<u8> = Vec::new();
        let mut i: usize = 0;
        assert(tv.take(0) =~= Seq::<TxView>::empty());
        while i < txs.len()
            invariant
                tv == tx_views(txs@),
                i <= txs@.len(),
                out@ == signing_hashes(tv.take(i as int)),
            decreases txs@.len() - i,
        {
            let tx_hash = txs[i].signing_digest();
            let b = tx_hash.to_bytes();
            push_bytes(&mut out, b.as_slice());
            proof {
                let t = tv.take(i + 1);
                assert(t.drop_last() =~= tv.take(i as int));
                assert(t.last() == txs@[i as int]@);
            }
            i += 1;
        }
        assert(tv.take(i as int) =~= tv);
        out
    }

    /// The Merkle root of `transactions`.
    pub fn calculate_merkle_root(transactions: &[Transaction]) -> (res: Result<
        crate::crypto::Hash,
        BlockError,
    >)
        ensures
            res matches Ok(h) && h@ == merkle_root_of(tx_views(transactions@)),
    {
        if transactions.len() == 0 {
            let mut tag: Vec<u8> = Vec::new();
            tag.push(101u8);
            tag.push(109u8);
            tag.push(112u8);
            tag.push(116u8);
            tag.push(121u8);
            tag.push(95u8);
            tag.push(98u8);
            tag.push(108u8);
            tag.push(111u8);
            tag.push(99u8);
            tag.push(107u8);
            assert(tag@ =~= empty_block_tag());
            return Ok(crate::crypto::Hash::digest(tag.as_slice()));
        }
        let combined = Self::concat_signing_hashes(transactions);
        Ok(crate::crypto::Hash::digest(combined.as_slice()))
    }

    /// Whether `hash` starts with `difficulty` zero bytes.
    pub fn satisfies_difficulty(hash: &crate::crypto::Hash, difficulty: usize) -> (res: Result<
        (),
        BlockError,
    >)
        ensures
            res is Ok <==> meets_difficulty(hash@, difficulty),
            res matches Err(e) ==> e == BlockError::InvalidProofOfWork,
    {
        let bytes = hash.as_bytes();
        let mut i: usize = 0;
        while i < 32 && i < difficulty
            invariant
                i <= 32,
                bytes@ == hash@,
                hash@.len() == 32,
                forall|j: int| 0 <= j < i ==> bytes@[j] == 0,
            decreases 32 - i,
        {
            if bytes[i] != 0 {
                return Err(BlockError::InvalidProofOfWork);
            }
            i += 1;
        }
        Ok(())
    }

    /// The genesis block stamped with `timestamp`: index zero, on the zero
    /// hash, without transactions, mined from nonce zero.
    pub fn genesis_with_timestamp(difficulty: usize, timestamp: u64) -> (res: Result<Block, BlockError>)
        ensures
            genesis_outcome(difficulty, timestamp, res),
    {
        let txs: Vec<Transaction> = Vec::new();
        let res = Self::new_with_timestamp(0, crate::crypto::Hash::zero(), txs, difficulty, 0, timestamp);
        assert(tx_views(Seq::<Transaction>::empty()) =~= Seq::<TxView>::empty());
        res
    }

    /// The genesis block, stamped with the current time (see
    /// `genesis_with_timestamp`).
    pub fn genesis(difficulty: usize) -> (res: Result<Block, BlockError>)
        ensures
            res matches Ok(b) ==> is_genesis_block(b, difficulty),
            res matches Err(e) ==> e == BlockError::InvalidTimestamp || e
                == BlockError::InvalidProofOfWork,
            res == Err::<Block, BlockError>(BlockError::InvalidTimestamp) || exists|t: u64|
                genesis_outcome(difficulty, t, res),
    {
        let timestamp = match unix_time_now() {
            Some(t) => t,
            None => {
                return Err(BlockError::InvalidTimestamp);
            },
        };
        let res = Self::genesis_with_timestamp(difficulty, timestamp);
        assert(genesis_outcome(difficulty, timestamp, res));
        res
    }

    /// Checks the Merkle root against the transactions, the hash against the
    /// header, and the proof of work.
    pub fn is_valid(&self, difficulty: usize) -> (res: Result<(), BlockError>)
        ensures
            res == block_check(self.header@, tx_views(self.transactions@), self.hash@, difficulty),
    {
        let expected_merkle = Self::calculate_merkle_root(self.transactions.as_slice())?;
        if !self.header.merkle_root.equals(&expected_merkle) {
            return Err(BlockError::InvalidMerkleRoot);
        }
        let calculated_hash = self.header.calculate_hash();
        if !calculated_hash.equals(&self.hash) {
            return Err(BlockError::InvalidBlockHash);
        }
        Self::satisfies_difficulty(&self.hash, difficulty)?;
        Ok(())
    }

    /// Searches nonces from the header's own upwards for a hash that meets
    /// the difficulty and seals the block with the first one; fails when no
    /// nonce up to `u64::MAX` does.
    pub fn mine(&mut self, difficulty: usize) -> (res: Result<(), BlockError>)
        ensures
            final(self).transactions == old(self).transactions,
            match first_valid_nonce(old(self).header@, difficulty, old(self).header.nonce) {
                Some(n) => res is Ok && final(self).header == BlockHeader {
                    nonce: n,
                    ..old(self).header
                } && final(self).hash@ == header_hash(final(self).header@),
                None => res == Err::<(), BlockError>(BlockError::InvalidProofOfWork)
                    && final(self).header == BlockHeader { nonce: u64::MAX, ..old(self).header }
                    && final(self).hash == old(self).hash,
            },
    {
        loop
            invariant
                self.transactions == old(self).transactions,
                self.hash == old(self).hash,
                self.header == (BlockHeader { nonce: self.header.nonce, ..old(self).header }),
                first_valid_nonce(old(self).header@, difficulty, old(self).header.nonce)
                    == first_valid_nonce(old(self).header@, difficulty, self.header.nonce),
            decreases u64::MAX - self.header.nonce,
        {
            let hash = self.header.calculate_hash();
            assert(self.header@ == HeaderView { nonce: self.header.nonce, ..old(self).header@ });
            if Self::satisfies_difficulty(&hash, difficulty).is_ok() {
                self.hash = hash;
                return Ok(());
            }
            if self.header.nonce == u64::MAX {
                return Err(BlockError::InvalidProofOfWork);
            }
            self.header.nonce = self.header.nonce + 1;
        }
    }
}

} // verus!
