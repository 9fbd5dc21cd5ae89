//! The chain of blocks and the world state that executing them gives.
use vstd::prelude::*;
use crate::account::{deposit_check, AccountView};
use crate::block::{block_check, header_hash, meets_difficulty, merkle_root_of, first_valid_nonce, genesis_header, is_genesis_block, Block};
use crate::error::BlockError;
use crate::crypto::Address;
use crate::error::StateError;
use crate::state::{
    execute_all_spec, lemma_execute_all_untouched, lookup_or_empty, tx_views, State, StateView,
};

verus! {

/// The abstract value of a chain.
pub struct ChainView {
    pub blocks: Seq<Block>,
    pub state: StateView,
    pub difficulty: usize,
}

/// The state of a new chain: no accounts, height zero, the zero hash.
pub open spec fn empty_state_view() -> StateView {
    StateView {
        accounts: Map::empty(),
        block_height: 0,
        last_block_hash: Seq::new(32, |i: int| 0u8),
    }
}

/// What making a chain whose genesis block is stamped with `timestamp`
/// gives: the chain of that genesis block over an empty state, or
/// `InvalidProofOfWork` when no nonce makes the genesis header meet the
/// difficulty.
pub open spec fn chain_outcome(difficulty: usize, timestamp: u64, res: Result<Blockchain, StateError>) -> bool {
    match first_valid_nonce(genesis_header(difficulty, timestamp), difficulty, 0) {
        Some(n) => res matches Ok(c) && c.wf() && c@.blocks.len() == 1 && is_genesis_block(
            c@.blocks[0],
            difficulty,
        ) && c@.blocks[0].header.nonce == n && c@.blocks[0].header.timestamp == timestamp
            && c@.difficulty == difficulty && c@.state == empty_state_view(),
        None => res == Err::<Blockchain, StateError>(StateError::Block(BlockError::InvalidProofOfWork)),
    }
}

/// The check of a block against the chain's tip: it must extend the latest
/// block, carry the next height, and be valid at the chain's difficulty.
pub open spec fn validate_block_spec(c: ChainView, block: Block) -> Result<(), StateError> {
    let latest = c.blocks.last().hash;
    if block.header.previous_hash@ != latest@ {
        Err(StateError::InvalidPreviousHash { expected: latest, got: block.header.previous_hash })
    } else if block.header.index != c.state.block_height + 1 {
        Err(
            StateError::InvalidBlockHeight {
                current: c.state.block_height,
                expected: (c.state.block_height + 1) as u64,
                got: block.header.index,
            },
        )
    } else {
        match block_check(block.header@, tx_views(block.transactions@), block.hash@, c.difficulty) {
            Err(e) => Err(StateError::Block(e)),
            Ok(()) => Ok(()),
        }
    }
}

/// What adding `block` (mined by `miner`) does: the chain after it, or the
/// error, in which case nothing changes. The block's transactions are
/// executed in order against the state, the miner is credited with their
/// fees, all changes are committed at once, the state records the block's
/// height and hash, and the block is appended.
#[verifier::opaque]
pub open spec fn add_block_spec(c: ChainView, block: Block, miner: Seq<u8>) -> Result<
    ChainView,
    StateError,
> {
    match validate_block_spec(c, block) {
        Err(e) => Err(e),
        Ok(()) => {
            let (r, d) = execute_all_spec(
                Map::empty(),
                c.state.accounts,
                tx_views(block.transactions@),
                0,
            );
            match r {
                Err(e) => Err(e),
                Ok(total_fee) => {
                    let cur = lookup_or_empty(d, c.state.accounts, miner);
                    match deposit_check(cur.balance, total_fee) {
                        Err(e) => Err(StateError::Account(e)),
                        Ok(()) => Ok(
                            ChainView {
                                blocks: c.blocks.push(block),
                                state: StateView {
                                    accounts: c.state.accounts.union_prefer_right(
                                        d.insert(
                                            miner,
                                            AccountView {
                                                balance: (cur.balance + total_fee) as u64,
                                                nonce: cur.nonce,
                                            },
                                        ),
                                    ),
                                    block_height: block.header.index,
                                    last_block_hash: block.hash@,
                                },
                                difficulty: c.difficulty,
                            },
                        ),
                    }
                },
            }
        },
    }
}

/// A block that the chain accepts extends its tip at the next height, has
/// the Merkle root of its transactions, carries its header's hash, and that
/// hash meets the chain's difficulty (not the difficulty the block itself
/// claims).
pub proof fn law_accepted_block_meets_chain_difficulty(c: ChainView, block: Block, miner: Seq<u8>)
    ensures
        validate_block_spec(c, block) is Ok ==> {
            &&& meets_difficulty(block.hash@, c.difficulty)
            &&& block.header.previous_hash@ == c.blocks.last().hash@
            &&& block.header.index == c.state.block_height + 1
            &&& block.header@.merkle_root == merkle_root_of(tx_views(block.transactions@))
            &&& header_hash(block.header@) == block.hash@
        },
        add_block_spec(c, block, miner) is Ok ==> validate_block_spec(c, block) is Ok,
{
    reveal(add_block_spec);
}

/// Adding a block advances the tip: the block is appended, the height
/// becomes the block's index (one above the previous height), and the
/// state records the block's hash.
pub proof fn law_add_block_advances_tip(c: ChainView, block: Block, miner: Seq<u8>)
    requires
        add_block_spec(c, block, miner) is Ok,
    ensures
        ({
            let c2 = add_block_spec(c, block, miner).unwrap();
            &&& c2.blocks == c.blocks.push(block)
            &&& c2.state.block_height == c.state.block_height + 1
            &&& c2.state.last_block_hash == block.hash@
            &&& c2.difficulty == c.difficulty
        }),
{
    reveal(add_block_spec);
}

/// Adding a block changes only the accounts of its participants: an
/// account that neither sends, receives nor mines in the block keeps its
/// state.
pub proof fn law_add_block_touches_only_participants(c: ChainView, block: Block, miner: Seq<u8>, k: Seq<u8>)
    requires
        add_block_spec(c, block, miner) is Ok,
        k != miner,
        forall|i: int|
            0 <= i < block.transactions@.len() ==> k != (#[trigger] block.transactions@[i])@.sender@
                && k != block.transactions@[i]@.receiver@,
    ensures
        add_block_spec(c, block, miner).unwrap().state.accounts.contains_key(k)
            == c.state.accounts.contains_key(k),
        c.state.accounts.contains_key(k) ==> add_block_spec(c, block, miner).unwrap().state.accounts[k]
            == c.state.accounts[k],
{
    reveal(add_block_spec);
    let txs = tx_views(block.transactions@);
    lemma_execute_all_untouched(Map::empty(), c.state.accounts, txs, 0, k);
}

#[derive(Debug)]
pub struct Blockchain {
    chain: Vec<Block>,
    state: State,
    difficulty: usize,
}

impl View for Blockchain {
    type V = ChainView;

    closed spec fn view(&self) -> ChainView {
        ChainView { blocks: self.chain@, state: self.state@, difficulty: self.difficulty }
    }
}

impl Blockchain {
    /// The chain has at least its genesis block.
    pub open spec fn wf(&self) -> bool {
        self@.blocks.len() > 0
    }

    /// A chain with a freshly mined genesis block and an empty state.
    pub fn new(difficulty: usize) -> (res: Result<Blockchain, StateError>)
        ensures
            res matches Ok(c) ==> c.wf() && c@.blocks.len() == 1 && is_genesis_block(
                c@.blocks[0],
                difficulty,
            ) && c@.difficulty == difficulty && c@.state == empty_state_view(),
            res matches Err(e) ==> e == StateError::Block(BlockError::InvalidTimestamp) || e
                == StateError::Block(BlockError::InvalidProofOfWork),
            res == Err::<Blockchain, StateError>(StateError::Block(BlockError::InvalidTimestamp))
                || exists|t: u64| chain_outcome(difficulty, t, res),
    {
        let timestamp = match crate::block::unix_time_now() {
            Some(t) => t,
            None => {
                return Err(StateError::Block(BlockError::InvalidTimestamp));
            },
        };
        let res = Self::new_with_timestamp(difficulty, timestamp);
        assert(chain_outcome(difficulty, timestamp, res));
        res
    }

    /// A chain whose genesis block is stamped with `timestamp`: it exists
    /// exactly when some nonce makes the genesis header meet the difficulty.
    pub fn new_with_timestamp(difficulty: usize, timestamp: u64) -> (res: Result<Blockchain, StateError>)
        ensures
            chain_outcome(difficulty, timestamp, res),
    {
        let genesis_block = match Block::genesis_with_timestamp(difficulty, timestamp) {
            Ok(b) => b,
            Err(e) => {
                return Err(StateError::Block(e));
            },
        };
        Ok(Self::from_genesis(genesis_block, difficulty))
    }

    fn from_genesis(genesis_block: Block, difficulty: usize) -> (res: Blockchain)
        ensures
            res.wf(),
            res@.blocks == seq![genesis_block],
            res@.difficulty == difficulty,
            res@.state == empty_state_view(),
    {
        let state = State::new();
        let mut chain: Vec<Block> = Vec::new();
        chain.push(genesis_block);
        let res = Blockchain { chain, state, difficulty };
        assert(res@.blocks =~= seq![genesis_block]);
        res
    }

    pub fn blocks(&self) -> (res: &[Block])
        ensures
            res@ == self@.blocks,
    {
        self.chain.as_slice()
    }

    pub fn latest_block(&self) -> (res: &Block)
        requires
            self.wf(),
        ensures
            *res == self@.blocks.last(),
    {
        let n = self.chain.len();
        &self.chain[n - 1]
    }

    pub fn height(&self) -> (res: u64)
        ensures
            res == self@.state.block_height,
    {
        self.state.block_height()
    }

    pub fn latest_hash(&self) -> (res: crate::crypto::Hash)
        requires
            self.wf(),
        ensures
            res == self@.blocks.last().hash,
    {
        self.latest_block().hash
    }

    pub fn state(&self) -> (res: &State)
        ensures
            res@ == self@.state,
    {
        &self.state
    }

    /// The state, for changes outside block processing (genesis allocations).
    pub fn state_mut(&mut self) -> (res: &mut State)
        ensures
            res@ == old(self)@.state,
            final(self)@ == (ChainView { state: final(res)@, ..old(self)@ }),
    {
        &mut self.state
    }

    pub fn difficulty(&self) -> (res: usize)
        ensures
            res == self@.difficulty,
    {
        self.difficulty
    }

    fn validate_block(&self, block: &Block) -> (res: Result<(), StateError>)
        requires
            self.wf(),
            self@.state.block_height < u64::MAX,
        ensures
            res == validate_block_spec(self@, *block),
    {
        let latest_hash = self.latest_hash();
        if !block.header.previous_hash.equals(&latest_hash) {
            return Err(StateError::InvalidPreviousHash { expected: latest_hash, got: block.header.previous_hash });
        }
        let expected_height = self.height() + 1;
        if block.header.index != expected_height {
            return Err(StateError::InvalidBlockHeight { current: self.height(), expected: expected_height, got: block.header.index });
        }
        match block.is_valid(self.difficulty) {
            Ok(()) => Ok(()),
            Err(e) => Err(StateError::Block(e)),
        }
    }

    /// Validates `block` against the tip, executes its transactions, credits
    /// `miner_address` with their fees, commits the changes and appends the
    /// block; on an error nothing changes.
    pub fn add_block(&mut self, block: Block, miner_address: &Address) -> (res: Result<(), StateError>)
        requires
            old(self).wf(),
            old(self)@.state.block_height < u64::MAX,
        ensures
            final(self).wf(),
            res is Ok ==> final(self)@.blocks == old(self)@.blocks.push(block)
                && final(self)@.difficulty == old(self)@.difficulty,
            match add_block_spec(old(self)@, block, miner_address@) {
                Ok(c) => res is Ok && final(self)@ == c,
                Err(e) => res == Err::<(), StateError>(e) && final(self)@ == old(self)@,
            },
    {
        reveal(add_block_spec);
        self.validate_block(&block)?;
        let mut context = crate::state::ExecutionContext::new(&self.state);
        let total_fee = context.execute_transactions(block.transactions.as_slice())?;
        context.credit(*miner_address, total_fee)?;
        let diff = context.into_diff();
        diff.commit_into(&mut self.state);
        self.state.set_block_metadata(block.header.index, block.hash);
        self.chain.push(block);
        Ok(())
    }
}

} // verus!
