//! A miner: the key pair that is credited with the fees of the blocks it
//! mines, and the production of the next block from the mempool.
use vstd::prelude::*;
use crate::block::{first_valid_nonce, header_hash, lemma_first_valid_nonce, merkle_root_of, Block, HeaderView};
use crate::error::BlockError;
use crate::state::{law_execute_all_total_is_fee_sum, tx_views};
use crate::blockchain::{add_block_spec, validate_block_spec, Blockchain, ChainView};
use crate::crypto::{ed25519_public_key, Address, Keypair};
use crate::error::StateError;
use crate::mempool::{prioritized_spec, rebuild_result, remove_ids, Mempool, MempoolView};

verus! {

/// What a successful `mine_next_block` gives, from chain `c0` and pool
/// `m0` to chain `c1` and pool `m1`: the block holds the prioritized
/// selection, extends the tip at the next height, carries its header hash,
/// is what the chain appended (crediting `miner`), and the pool is rebuilt
/// without its transactions.
#[verifier::opaque]
pub open spec fn mined_as_expected(
    c0: ChainView,
    m0: MempoolView,
    limit: usize,
    miner: Seq<u8>,
    b: Block,
    c1: ChainView,
    m1: MempoolView,
) -> bool {
                &&& b.transactions@ == prioritized_spec(m0, limit as nat)
                &&& b.header.index == c0.state.block_height + 1
                &&& b.header.previous_hash == c0.blocks.last().hash
                &&& b.header.difficulty == c0.difficulty
                &&& b.hash@ == header_hash(b.header@)
                &&& c1.blocks.last().header == b.header
                &&& c1.blocks.last().transactions@ == b.transactions@
                &&& c1.blocks.last().hash == b.hash
                &&& add_block_spec(
                    c0,
                    c1.blocks.last(),
                    miner,
                ) == Ok::<crate::blockchain::ChainView, StateError>(c1)
                &&& rebuild_result(
                    MempoolView {
                        pending: remove_ids(m0.pending, b.transactions@),
                        ..m0
                    },
                    c1.state.accounts,
                ).0 is Ok
                &&& rebuild_result(
                    MempoolView {
                        pending: remove_ids(m0.pending, b.transactions@),
                        ..m0
                    },
                    c1.state.accounts,
                ).1 == m1
            
}

/// The header that mining on chain `c` with pool `m` starts from, stamped
/// with `timestamp`: the next height, on the tip's hash, over the
/// prioritized selection, at the chain's difficulty, nonce zero.
pub open spec fn next_header(c: ChainView, m: MempoolView, limit: usize, timestamp: u64) -> HeaderView {
    HeaderView {
        index: (c.state.block_height + 1) as u64,
        timestamp,
        previous_hash: c.blocks.last().hash@,
        merkle_root: merkle_root_of(tx_views(prioritized_spec(m, limit as nat))),
        nonce: 0,
        difficulty: c.difficulty,
    }
}

/// `b` is the block that mining gives with nonce `n`: the next header with
/// that nonce, on the tip's hash, holding the prioritized selection and
/// sealed with its header hash.
#[verifier::opaque]
pub open spec fn is_next_block(b: Block, c: ChainView, m: MempoolView, limit: usize, timestamp: u64, n: u64) -> bool {
    &&& b.header@ == HeaderView { nonce: n, ..next_header(c, m, limit, timestamp) }
    &&& b.header.previous_hash == c.blocks.last().hash
    &&& b.transactions@ == prioritized_spec(m, limit as nat)
    &&& b.hash@ == header_hash(b.header@)
}

/// A block with the parts of `is_next_block`.
pub open spec fn next_block(c: ChainView, m: MempoolView, limit: usize, timestamp: u64, n: u64) -> Block {
    choose|b: Block| #[trigger] is_next_block(b, c, m, limit, timestamp, n)
}

/// Adding a block depends on its header, the views of its transactions and
/// its hash: two blocks that agree on these fail alike, or both succeed.
pub proof fn lemma_add_block_by_parts(c: ChainView, b1: Block, b2: Block, miner: Seq<u8>)
    requires
        b1.header@ == b2.header@,
        b1.header.previous_hash == b2.header.previous_hash,
        b1.transactions@ == b2.transactions@,
        b1.hash@ == b2.hash@,
    ensures
        add_block_spec(c, b1, miner) is Ok <==> add_block_spec(c, b2, miner) is Ok,
        add_block_spec(c, b1, miner) is Err ==> add_block_spec(c, b1, miner) == add_block_spec(c, b2, miner),
{
    reveal(add_block_spec);
}

/// The block that mining gives passes the chain's checks, so adding it can
/// only fail in executing its transactions or crediting the miner, never
/// with a block error.
proof fn lemma_next_block_no_block_error(c: ChainView, m: MempoolView, limit: usize, timestamp: u64, n: u64, b: Block, miner: Seq<u8>)
    requires
        c.state.block_height < u64::MAX,
        first_valid_nonce(next_header(c, m, limit, timestamp), c.difficulty, 0) == Some(n),
        is_next_block(b, c, m, limit, timestamp, n),
    ensures
        !(add_block_spec(c, b, miner) matches Err(StateError::Block(_))),
{
    reveal(is_next_block);
    let h = next_header(c, m, limit, timestamp);
    lemma_first_valid_nonce(h, c.difficulty, 0);
    assert(b.header@ == HeaderView { nonce: n, ..h });
    assert(tx_views(b.transactions@) == tx_views(prioritized_spec(m, limit as nat)));
    assert(b.header@.merkle_root == merkle_root_of(tx_views(b.transactions@)));
    assert(crate::block::meets_difficulty(b.hash@, c.difficulty));
    assert(crate::block::block_check(b.header@, tx_views(b.transactions@), b.hash@, c.difficulty) is Ok);
    assert(b.header.index == c.state.block_height + 1);
    assert(validate_block_spec(c, b) is Ok);
    lemma_valid_block_no_block_error(c, b, miner);
}

/// A block that passes the chain's checks is never refused with a block
/// error.
proof fn lemma_valid_block_no_block_error(c: ChainView, b: Block, miner: Seq<u8>)
    requires
        validate_block_spec(c, b) is Ok,
    ensures
        !(add_block_spec(c, b, miner) matches Err(StateError::Block(_))),
{
    law_execute_all_total_is_fee_sum(Map::empty(), c.state.accounts, tx_views(b.transactions@), 0);
    reveal(add_block_spec);
}

/// After a block was added but the mempool rebuild failed with `te`:
/// chain `c1` is `c0` with the block added (crediting `miner`), and pool
/// `m1` is what the failed rebuild left of `m0` without the block's
/// transactions.
pub open spec fn block_kept_pool_failed(
    c0: ChainView,
    m0: MempoolView,
    miner: Seq<u8>,
    te: crate::error::TransactionError,
    c1: ChainView,
    m1: MempoolView,
) -> bool {
    let r = rebuild_result(
        MempoolView { pending: remove_ids(m0.pending, c1.blocks.last().transactions@), ..m0 },
        c1.state.accounts,
    );
    &&& c1.blocks.len() == c0.blocks.len() + 1
    &&& add_block_spec(c0, c1.blocks.last(), miner) == Ok::<ChainView, StateError>(c1)
    &&& r.0 == Err::<(), crate::error::TransactionError>(te)
    &&& r.1 == m1
}

/// What `Miner::mine_next_block_at` gives, from chain `c0` and pool `m0`
/// to result `res`, chain `c1` and pool `m1`. When no nonce makes the next
/// header meet the difficulty, the result is `InvalidProofOfWork` and
/// nothing changes. Otherwise, with the block that nonce gives: when the
/// chain refuses it, its error comes back and nothing changes; when the
/// chain accepts it, the outcome is `mined_as_expected`, or the block stays
/// added and the mempool rebuild's error comes back.
#[verifier::opaque]
pub open spec fn mining_outcome(
    c0: ChainView,
    m0: MempoolView,
    limit: usize,
    timestamp: u64,
    miner: Seq<u8>,
    res: Result<Block, StateError>,
    c1: ChainView,
    m1: MempoolView,
) -> bool {
    match first_valid_nonce(next_header(c0, m0, limit, timestamp), c0.difficulty, 0) {
        None => res == Err::<Block, StateError>(StateError::Block(BlockError::InvalidProofOfWork))
            && c1 == c0 && m1 == m0,
        Some(n) => {
            &&& is_next_block(next_block(c0, m0, limit, timestamp, n), c0, m0, limit, timestamp, n)
            &&& match add_block_spec(c0, next_block(c0, m0, limit, timestamp, n), miner) {
                Err(e) => res == Err::<Block, StateError>(e) && c1 == c0 && m1 == m0,
                Ok(_) => {
                    ||| res matches Ok(b) && is_next_block(b, c0, m0, limit, timestamp, n)
                        && mined_as_expected(c0, m0, limit, miner, b, c1, m1)
                    ||| res matches Err(StateError::Transaction(te)) && is_next_block(
                        c1.blocks.last(),
                        c0,
                        m0,
                        limit,
                        timestamp,
                        n,
                    ) && block_kept_pool_failed(c0, m0, miner, te, c1, m1)
                },
            }
        },
    }
}

/// A mining outcome either is `mined_as_expected`, or refuses with
/// `InvalidProofOfWork` or a non-block error changing nothing, or keeps the
/// block after a failed mempool rebuild.
proof fn lemma_mining_outcome_summary(
    c0: ChainView,
    m0: MempoolView,
    limit: usize,
    timestamp: u64,
    miner: Seq<u8>,
    res: Result<Block, StateError>,
    c1: ChainView,
    m1: MempoolView,
)
    requires
        c0.state.block_height < u64::MAX,
        mining_outcome(c0, m0, limit, timestamp, miner, res, c1, m1),
    ensures
        res matches Ok(b) ==> mined_as_expected(c0, m0, limit, miner, b, c1, m1),
        res matches Err(StateError::Block(e)) ==> e == BlockError::InvalidProofOfWork && c1 == c0
            && m1 == m0,
        res matches Err(e) ==> {
            ||| c1 == c0 && m1 == m0
            ||| e matches StateError::Transaction(te) && block_kept_pool_failed(c0, m0, miner, te, c1, m1)
        },
{
    reveal(mining_outcome);
    match first_valid_nonce(next_header(c0, m0, limit, timestamp), c0.difficulty, 0) {
        None => {},
        Some(n) => {
            lemma_next_block_no_block_error(c0, m0, limit, timestamp, n, next_block(c0, m0, limit, timestamp, n), miner);
        },
    }
}

/// The outcome when no nonce meets the difficulty.
proof fn lemma_outcome_no_nonce(c0: ChainView, m0: MempoolView, limit: usize, timestamp: u64, miner: Seq<u8>)
    requires
        first_valid_nonce(next_header(c0, m0, limit, timestamp), c0.difficulty, 0) is None,
    ensures
        mining_outcome(c0, m0, limit, timestamp, miner, Err(StateError::Block(BlockError::InvalidProofOfWork)), c0, m0),
{
    reveal(mining_outcome);
}

/// The outcome when the chain refuses the mined block `blk`.
proof fn lemma_outcome_refused(c0: ChainView, m0: MempoolView, limit: usize, timestamp: u64, miner: Seq<u8>, n: u64, blk: Block, e: StateError)
    requires
        first_valid_nonce(next_header(c0, m0, limit, timestamp), c0.difficulty, 0) == Some(n),
        is_next_block(blk, c0, m0, limit, timestamp, n),
        add_block_spec(c0, blk, miner) == Err::<ChainView, StateError>(e),
    ensures
        mining_outcome(c0, m0, limit, timestamp, miner, Err(e), c0, m0),
{
    let nb = next_block(c0, m0, limit, timestamp, n);
    assert(is_next_block(nb, c0, m0, limit, timestamp, n));
    assert(nb.header@ == blk.header@ && nb.header.previous_hash == blk.header.previous_hash
        && nb.transactions@ == blk.transactions@ && nb.hash@ == blk.hash@) by {
        reveal(is_next_block);
    }
    lemma_add_block_by_parts(c0, blk, nb, miner);
    assert(add_block_spec(c0, nb, miner) == Err::<ChainView, StateError>(e));
    assert(mining_outcome(c0, m0, limit, timestamp, miner, Err(e), c0, m0)) by {
        reveal(mining_outcome);
    }
}

/// After the chain accepted the mined block and the pool was rebuilt, the
/// block handed back is the mined one and the outcome is as expected.
proof fn lemma_added_ok(
    c0: ChainView,
    m0: MempoolView,
    limit: usize,
    timestamp: u64,
    miner: Seq<u8>,
    n: u64,
    b: Block,
    c1: ChainView,
    m1: MempoolView,
)
    requires
        is_next_block(c1.blocks.last(), c0, m0, limit, timestamp, n),
        add_block_spec(c0, c1.blocks.last(), miner) == Ok::<ChainView, StateError>(c1),
        rebuild_result(
            MempoolView { pending: remove_ids(m0.pending, c1.blocks.last().transactions@), ..m0 },
            c1.state.accounts,
        ).1 == m1,
        rebuild_result(
            MempoolView { pending: remove_ids(m0.pending, c1.blocks.last().transactions@), ..m0 },
            c1.state.accounts,
        ).0 is Ok,
        b.header == c1.blocks.last().header,
        b.transactions@ == c1.blocks.last().transactions@,
        b.hash == c1.blocks.last().hash,
    ensures
        is_next_block(b, c0, m0, limit, timestamp, n),
        mined_as_expected(c0, m0, limit, miner, b, c1, m1),
{
    let lb = c1.blocks.last();
    assert(is_next_block(b, c0, m0, limit, timestamp, n)) by {
        reveal(is_next_block);
    }
    assert(b.transactions@ == prioritized_spec(m0, limit as nat)) by {
        reveal(is_next_block);
    }
    assert(b.header.index == c0.state.block_height + 1 && b.header.previous_hash == c0.blocks.last().hash
        && b.header.difficulty == c0.difficulty && b.hash@ == header_hash(b.header@)) by {
        reveal(is_next_block);
        reveal(add_block_spec);
    }
    assert(mined_as_expected(c0, m0, limit, miner, b, c1, m1)) by {
        reveal(mined_as_expected);
    }
}

/// The outcome when the chain accepts the mined block and the pool is
/// settled.
proof fn lemma_outcome_added(
    c0: ChainView,
    m0: MempoolView,
    limit: usize,
    timestamp: u64,
    miner: Seq<u8>,
    n: u64,
    res: Result<Block, StateError>,
    c1: ChainView,
    m1: MempoolView,
)
    requires
        first_valid_nonce(next_header(c0, m0, limit, timestamp), c0.difficulty, 0) == Some(n),
        c1.blocks.len() == c0.blocks.len() + 1,
        is_next_block(c1.blocks.last(), c0, m0, limit, timestamp, n),
        add_block_spec(c0, c1.blocks.last(), miner) == Ok::<ChainView, StateError>(c1),
        rebuild_result(
            MempoolView { pending: remove_ids(m0.pending, c1.blocks.last().transactions@), ..m0 },
            c1.state.accounts,
        ).1 == m1,
        res is Ok ==> rebuild_result(
            MempoolView { pending: remove_ids(m0.pending, c1.blocks.last().transactions@), ..m0 },
            c1.state.accounts,
        ).0 is Ok,
        res matches Ok(b) ==> b.header == c1.blocks.last().header && b.transactions@
            == c1.blocks.last().transactions@ && b.hash == c1.blocks.last().hash,
        res matches Err(e) ==> e matches StateError::Transaction(te) && rebuild_result(
            MempoolView { pending: remove_ids(m0.pending, c1.blocks.last().transactions@), ..m0 },
            c1.state.accounts,
        ).0 == Err::<(), crate::error::TransactionError>(te),
    ensures
        mining_outcome(c0, m0, limit, timestamp, miner, res, c1, m1),
{
    let nb = next_block(c0, m0, limit, timestamp, n);
    assert(is_next_block(nb, c0, m0, limit, timestamp, n));
    let lb = c1.blocks.last();
    assert(nb.header@ == lb.header@ && nb.header.previous_hash == lb.header.previous_hash
        && nb.transactions@ == lb.transactions@ && nb.hash@ == lb.hash@) by {
        reveal(is_next_block);
    }
    lemma_add_block_by_parts(c0, lb, nb, miner);
    assert(add_block_spec(c0, nb, miner) is Ok);
    match res {
        Ok(b) => {
            lemma_added_ok(c0, m0, limit, timestamp, miner, n, b, c1, m1);
        },
        Err(_) => {},
    }
    assert(mining_outcome(c0, m0, limit, timestamp, miner, res, c1, m1)) by {
        reveal(mining_outcome);
    }
}

pub struct Miner {
    keypair: Keypair,
}

impl Miner {
    /// The secret seed of the miner's key pair.
    pub closed spec fn seed(&self) -> Seq<u8> {
        self.keypair.seed_view()
    }

    pub fn new(keypair: Keypair) -> (res: Miner)
        ensures
            res.seed() == keypair.seed_view(),
    {
        Miner { keypair }
    }

    /// The address that block rewards go to: the miner's public key.
    pub fn address(&self) -> (res: Address)
        ensures
            res@ == ed25519_public_key(self.seed()),
    {
        Address::from(self.keypair.public_key())
    }

    /// Mines the next block, stamped with the current time (see
    /// `mine_next_block_at`); fails with `InvalidTimestamp`, changing
    /// nothing, when the clock is before the Unix epoch.
    pub fn mine_next_block(
        &self,
        blockchain: &mut Blockchain,
        mempool: &mut Mempool,
        limit: usize,
    ) -> (res: Result<Block, StateError>)
        requires
            old(blockchain).wf(),
            old(mempool).wf(),
            old(blockchain)@.state.block_height < u64::MAX,
        ensures
            final(blockchain).wf(),
            final(mempool).wf(),
            res matches Ok(b) ==> mined_as_expected(
                old(blockchain)@,
                old(mempool)@,
                limit,
                ed25519_public_key(self.seed()),
                b,
                final(blockchain)@,
                final(mempool)@,
            ),
            res == Err::<Block, StateError>(StateError::Block(BlockError::InvalidTimestamp))
                && final(blockchain)@ == old(blockchain)@ && final(mempool)@ == old(mempool)@
                || exists|t: u64|
                mining_outcome(
                    old(blockchain)@,
                    old(mempool)@,
                    limit,
                    t,
                    ed25519_public_key(self.seed()),
                    res,
                    final(blockchain)@,
                    final(mempool)@,
                ),
            res matches Err(StateError::Block(e)) ==> (e == BlockError::InvalidTimestamp || e
                == BlockError::InvalidProofOfWork) && final(blockchain)@ == old(blockchain)@
                && final(mempool)@ == old(mempool)@,
            res matches Err(e) ==> {
                ||| final(blockchain)@ == old(blockchain)@ && final(mempool)@ == old(mempool)@
                ||| e matches StateError::Transaction(te) && block_kept_pool_failed(
                    old(blockchain)@,
                    old(mempool)@,
                    ed25519_public_key(self.seed()),
                    te,
                    final(blockchain)@,
                    final(mempool)@,
                )
            },
    {
        let timestamp = match crate::block::unix_time_now() {
            Some(t) => t,
            None => {
                return Err(StateError::Block(BlockError::InvalidTimestamp));
            },
        };
        let ghost c0 = blockchain@;
        let ghost m0 = mempool@;
        let res = self.mine_next_block_at(blockchain, mempool, limit, timestamp);
        assert(mining_outcome(c0, m0, limit, timestamp, ed25519_public_key(self.seed()), res, blockchain@, mempool@));
        proof {
            lemma_mining_outcome_summary(
                c0,
                m0,
                limit,
                timestamp,
                ed25519_public_key(self.seed()),
                res,
                blockchain@,
                mempool@,
            );
        }
        res
    }

    /// Mines the next block stamped with `timestamp`: selects up to `limit`
    /// transactions by priority, mines a block on the chain's tip at the
    /// next height from nonce zero, adds it to the chain (crediting this
    /// miner), and removes its transactions from the mempool. When no nonce
    /// meets the difficulty, or the chain refuses the block, nothing
    /// changes; when the mempool rebuild fails, the block stays added and
    /// the rebuild's error is returned.
    pub fn mine_next_block_at(
        &self,
        blockchain: &mut Blockchain,
        mempool: &mut Mempool,
        limit: usize,
        timestamp: u64,
    ) -> (res: Result<Block, StateError>)
        requires
            old(blockchain).wf(),
            old(mempool).wf(),
            old(blockchain)@.state.block_height < u64::MAX,
        ensures
            final(blockchain).wf(),
            final(mempool).wf(),
            mining_outcome(
                old(blockchain)@,
                old(mempool)@,
                limit,
                timestamp,
                ed25519_public_key(self.seed()),
                res,
                final(blockchain)@,
                final(mempool)@,
            ),
    {
        let ghost c0 = blockchain@;
        let ghost m0 = mempool@;
        let ghost miner = ed25519_public_key(self.seed());
        let txs = mempool.get_prioritized_transactions(blockchain.state(), limit);
        let index = blockchain.height() + 1;
        let previous_hash = blockchain.latest_hash();
        let difficulty = blockchain.difficulty();
        let ghost h = next_header(c0, m0, limit, timestamp);
        assert(tx_views(txs@) == tx_views(prioritized_spec(m0, limit as nat)));
        let block = match Block::new_with_timestamp(index, previous_hash, txs, difficulty, 0, timestamp) {
            Ok(b) => b,
            Err(e) => {
                proof {
                    lemma_outcome_no_nonce(c0, m0, limit, timestamp, miner);
                }
                return Err(StateError::Block(e));
            },
        };
        let ghost n = block.header.nonce;
        assert(is_next_block(block, c0, m0, limit, timestamp, n)) by {
            reveal(is_next_block);
        }
        let address = self.address();
        let copy = block.clone();
        match blockchain.add_block(copy, &address) {
            Ok(()) => {},
            Err(e) => {
                proof {
                    lemma_add_block_by_parts(c0, block, copy, miner);
                    lemma_outcome_refused(c0, m0, limit, timestamp, miner, n, block, e);
                }
                return Err(e);
            },
        }
        assert(is_next_block(blockchain@.blocks.last(), c0, m0, limit, timestamp, n)) by {
            reveal(is_next_block);
        }
        let out = Self::settle_mempool(mempool, block, blockchain.state());
        proof {
            lemma_outcome_added(c0, m0, limit, timestamp, miner, n, out, blockchain@, mempool@);
        }
        out
    }

    /// Removes the transactions of `block` from the pool and hands the block
    /// back, or the rebuild's error.
    fn settle_mempool(mempool: &mut Mempool, block: Block, state: &crate::state::State) -> (res: Result<Block, StateError>)
        requires
            old(mempool).wf(),
        ensures
            final(mempool).wf(),
            res matches Ok(b) ==> b.header == block.header,
            res matches Ok(b) ==> b.transactions@ == block.transactions@,
            res matches Ok(b) ==> b.hash == block.hash,
            res is Ok ==> rebuild_result(
                MempoolView { pending: remove_ids(old(mempool)@.pending, block.transactions@), ..old(mempool)@ },
                state@.accounts,
            ).0 is Ok,
            rebuild_result(
                MempoolView { pending: remove_ids(old(mempool)@.pending, block.transactions@), ..old(mempool)@ },
                state@.accounts,
            ).1 == final(mempool)@,
            res matches Err(e) ==> e matches StateError::Transaction(te) && rebuild_result(
                MempoolView { pending: remove_ids(old(mempool)@.pending, block.transactions@), ..old(mempool)@ },
                state@.accounts,
            ).0 == Err::<(), crate::error::TransactionError>(te),
    {
        let mined = block.clone();
        let slice = mined.transactions.as_slice();
        assert(slice@ == block.transactions@);
        let r = mempool.remove_mined_transactions(slice, state);
        let res = match r {
            Ok(()) => Ok(block),
            Err(e) => Err(StateError::Transaction(e)),
        };
        res
    }
}

} // verus!
