use std::cmp::Ordering;
use blockchain_core::account::Account;
use blockchain_core::account_queue::AccountQueue;
use blockchain_core::block::{Block, BlockHeader};
use blockchain_core::blockchain::Blockchain;
use blockchain_core::crypto::{Address, CryptoError, Keypair, PublicKey};
use blockchain_core::error::{AccountError, BlockError, StateError, TransactionError};
use blockchain_core::mempool::Mempool;
use blockchain_core::priority::PriorityEntry;
use blockchain_core::state::{ExecutionContext, State, StateDiff};
use blockchain_core::transaction::Transaction;

fn keypair(byte: u8) -> Keypair {
    Keypair::from_seed(&[byte; 32])
}

fn address(kp: &Keypair) -> Address {
    Address::from(kp.public_key())
}

#[test]
fn account_deposit_and_withdraw_move_the_balance() {
    let mut a = Account::new(100, 0);
    assert_eq!(a.deposit(50), Ok(()));
    assert_eq!(a.balance(), 150);
    assert_eq!(a.withdraw(100, 20), Ok(()));
    assert_eq!(a.balance(), 30);
    assert_eq!(a.nonce(), 0);
}

#[test]
fn account_deposit_then_withdraw_restores_balance() {
    let mut a = Account::new(7, 3);
    a.deposit(90).unwrap();
    a.withdraw(90, 0).unwrap();
    assert_eq!(a, Account::new(7, 3));
}

#[test]
fn account_errors_leave_the_account_unchanged() {
    let mut a = Account::new(u64::MAX, u64::MAX);
    assert_eq!(a.deposit(1), Err(AccountError::BalanceOverflow));
    assert_eq!(a.increment_nonce(), Err(AccountError::NonceOverflow));
    assert_eq!(a, Account::new(u64::MAX, u64::MAX));

    let mut b = Account::new(10, 0);
    assert_eq!(
        b.withdraw(8, 5),
        Err(AccountError::InsufficientBalance { required: 13, available: 10 })
    );
    assert_eq!(b.withdraw(u64::MAX, 1), Err(AccountError::CostOverflow));
    assert_eq!(b.can_deposit(u64::MAX), Err(AccountError::BalanceOverflow));
    assert_eq!(b.can_withdraw(10, 0), Ok(()));
    assert_eq!(b, Account::new(10, 0));
    b.increment_nonce().unwrap();
    assert_eq!(b.nonce(), 1);
}

#[test]
fn transaction_new_checks_fields_and_signs() {
    let alice = keypair(1);
    let bob = keypair(2);
    assert_eq!(
        Transaction::new(&alice, bob.public_key(), 0, 0, 5),
        Err(TransactionError::ZeroAmount)
    );
    assert_eq!(
        Transaction::new(&alice, alice.public_key(), 100, 0, 5),
        Err(TransactionError::SelfTransfer)
    );
    let tx = Transaction::new(&alice, bob.public_key(), 100, 0, 5).unwrap();
    assert_eq!(tx.verify(), Ok(()));
    assert_eq!(*tx.sender(), alice.public_key());
    assert_eq!(*tx.receiver(), bob.public_key());
    assert_eq!((tx.amount(), tx.nonce(), tx.fee()), (100, 0, 5));
}

#[test]
fn tampered_transaction_fails_verification() {
    let alice = keypair(1);
    let bob = keypair(2);
    let tx = Transaction::new(&alice, bob.public_key(), 100, 0, 2).unwrap();
    let tampered = Transaction::from_parts(*tx.sender(), *tx.receiver(), 10000, tx.nonce(), *tx.signature(), tx.fee());
    assert_eq!(
        tampered.verify(),
        Err(TransactionError::InvalidSignature(CryptoError::VerificationFailed))
    );
}

#[test]
fn transaction_hashes_match_the_bincode_payloads() {
    let alice = keypair(1);
    let bob = keypair(2);
    let tx = Transaction::new(&alice, bob.public_key(), 300, 4, 2).unwrap();
    let payload = (tx.sender().as_bytes(), tx.receiver().as_bytes(), 300u64, 4u64, 2u64);
    let bytes = bincode::serialize(&payload).unwrap();
    assert_eq!(tx.signing_hash().unwrap(), blockchain_core::crypto::Hash::digest(&bytes));
    let sig = ed25519_dalek::Signature::from_bytes(&tx.signature().to_bytes());
    let id_payload = (tx.sender().as_bytes(), tx.receiver().as_bytes(), 300u64, 4u64, 2u64, sig);
    let id_bytes = bincode::serialize(&id_payload).unwrap();
    assert_eq!(tx.tx_id().unwrap(), blockchain_core::crypto::Hash::digest(&id_bytes));
    assert_ne!(tx.tx_id().unwrap(), tx.signing_hash().unwrap());
}

#[test]
fn header_bytes_match_bincode() {
    let header = BlockHeader {
        index: 7,
        timestamp: 1_700_000_000,
        previous_hash: blockchain_core::crypto::Hash::from_bytes([3u8; 32]),
        merkle_root: blockchain_core::crypto::Hash::from_bytes([4u8; 32]),
        nonce: 99,
        difficulty: 2,
    };
    let tuple = (7u64, 1_700_000_000u64, [3u8; 32], [4u8; 32], 99u64, 2usize);
    assert_eq!(header.to_bytes(), bincode::serialize(&tuple).unwrap());
}

#[test]
fn empty_merkle_root_is_the_hash_of_the_tag() {
    let root = Block::calculate_merkle_root(&[]).unwrap();
    assert_eq!(root, blockchain_core::crypto::Hash::digest(b"empty_block"));
}

#[test]
fn merkle_root_hashes_the_signing_hashes() {
    let alice = keypair(1);
    let bob = keypair(2);
    let t1 = Transaction::new(&alice, bob.public_key(), 10, 0, 1).unwrap();
    let t2 = Transaction::new(&alice, bob.public_key(), 20, 1, 1).unwrap();
    let mut bytes = Vec::new();
    bytes.extend_from_slice(&t1.signing_hash().unwrap().to_bytes());
    bytes.extend_from_slice(&t2.signing_hash().unwrap().to_bytes());
    assert_eq!(
        Block::calculate_merkle_root(&[t1, t2]).unwrap(),
        blockchain_core::crypto::Hash::digest(&bytes)
    );
}

#[test]
fn difficulty_counts_leading_zero_bytes() {
    let mut bytes = [0u8; 32];
    bytes[2] = 1;
    let h = blockchain_core::crypto::Hash::from_bytes(bytes);
    assert_eq!(Block::satisfies_difficulty(&h, 0), Ok(()));
    assert_eq!(Block::satisfies_difficulty(&h, 2), Ok(()));
    assert_eq!(Block::satisfies_difficulty(&h, 3), Err(BlockError::InvalidProofOfWork));
    let zero = blockchain_core::crypto::Hash::zero();
    assert_eq!(Block::satisfies_difficulty(&zero, 40), Ok(()));
}

#[test]
fn mined_block_is_valid_and_tampering_is_detected() {
    let block = Block::new_with_timestamp(1, blockchain_core::crypto::Hash::zero(), Vec::new(), 1, 0, 12345).unwrap();
    assert_eq!(block.hash.to_bytes()[0], 0);
    assert_eq!(block.hash, block.header.calculate_hash());
    assert_eq!(block.is_valid(1), Ok(()));
    assert_eq!(block.header.timestamp, 12345);

    let mut wrong_root = block.clone();
    wrong_root.header.merkle_root = blockchain_core::crypto::Hash::zero();
    assert_eq!(wrong_root.is_valid(1), Err(BlockError::InvalidMerkleRoot));

    let mut wrong_hash = block.clone();
    wrong_hash.hash = blockchain_core::crypto::Hash::zero();
    assert_eq!(wrong_hash.is_valid(1), Err(BlockError::InvalidBlockHash));

    let mut unmined = block.clone();
    unmined.header.nonce = unmined.header.nonce.wrapping_add(1);
    unmined.hash = unmined.header.calculate_hash();
    if unmined.hash.to_bytes()[0] != 0 {
        assert_eq!(unmined.is_valid(1), Err(BlockError::InvalidProofOfWork));
    }
}

#[test]
fn mining_takes_the_first_nonce_that_meets_the_difficulty() {
    let mut block = Block::new_with_timestamp(2, blockchain_core::crypto::Hash::zero(), Vec::new(), 0, 5, 1).unwrap();
    // With difficulty zero every hash meets it: the start nonce is kept.
    assert_eq!(block.header.nonce, 5);
    block.header.nonce = 0;
    block.mine(1).unwrap();
    let found = block.header.nonce;
    for n in 0..found {
        let mut h = block.header;
        h.nonce = n;
        assert_ne!(h.calculate_hash().to_bytes()[0], 0);
    }
}

#[test]
fn state_credit_creates_and_tops_up_accounts() {
    let mut state = State::new();
    let a = address(&keypair(1));
    assert_eq!(state.get_balance(&a), None);
    state.credit(a, 40).unwrap();
    state.credit(a, 2).unwrap();
    assert_eq!(state.get_balance(&a), Some(42));
    assert_eq!(state.get_nonce(&a), Some(0));
    assert_eq!(state.credit(a, u64::MAX), Err(StateError::Account(AccountError::BalanceOverflow)));
    assert_eq!(state.get_balance(&a), Some(42));
    assert_eq!(state.block_height(), 0);
    assert_eq!(state.last_block_hash(), blockchain_core::crypto::Hash::zero());
}

#[test]
fn state_root_does_not_depend_on_insertion_order() {
    let a = address(&keypair(1));
    let b = address(&keypair(2));
    let c = address(&keypair(3));
    let mut s1 = State::new();
    s1.credit(a, 1).unwrap();
    s1.credit(b, 2).unwrap();
    s1.credit(c, 3).unwrap();
    let mut s2 = State::new();
    s2.credit(c, 3).unwrap();
    s2.credit(a, 1).unwrap();
    s2.credit(b, 2).unwrap();
    assert_eq!(s1.state_root(), s2.state_root());
    let mut s3 = s2.clone();
    s3.credit(b, 1).unwrap();
    assert_ne!(s1.state_root(), s3.state_root());
}

#[test]
fn state_root_matches_bincode_of_sorted_accounts() {
    let a = address(&keypair(1));
    let b = address(&keypair(2));
    let mut s = State::new();
    s.credit(b, 5).unwrap();
    s.credit(a, 9).unwrap();
    let mut entries = vec![
        (ed25519_dalek::VerifyingKey::from_bytes(&a.as_bytes()).unwrap(), (9u64, 0u64)),
        (ed25519_dalek::VerifyingKey::from_bytes(&b.as_bytes()).unwrap(), (5u64, 0u64)),
    ];
    entries.sort_by(|x, y| x.0.to_bytes().cmp(&y.0.to_bytes()));
    let bytes = bincode::serialize(&entries).unwrap();
    assert_eq!(s.state_root(), blockchain_core::crypto::Hash::digest(&bytes));
}

#[test]
fn execution_moves_funds_through_the_diff() {
    let alice = keypair(1);
    let bob = keypair(2);
    let mut state = State::new();
    state.credit(address(&alice), 1000).unwrap();
    state.credit(address(&bob), 200).unwrap();
    let tx = Transaction::new(&alice, bob.public_key(), 300, 0, 2).unwrap();
    let mut ctx = ExecutionContext::new(&state);
    assert_eq!(ctx.execute_transaction(&tx), Ok(2));
    assert_eq!(ctx.get_account(&address(&alice)), Some(Account::new(698, 1)));
    assert_eq!(ctx.get_account(&address(&bob)), Some(Account::new(500, 0)));
    // The committed state is untouched until the diff is committed.
    assert_eq!(state.get_balance(&address(&alice)), Some(1000));
    let diff = ctx.into_diff();
    assert!(!diff.is_empty());
    diff.commit_into(&mut state);
    assert_eq!(state.get_balance(&address(&alice)), Some(698));
    assert_eq!(state.get_balance(&address(&bob)), Some(500));
}

#[test]
fn execution_errors_change_nothing() {
    let alice = keypair(1);
    let bob = keypair(2);
    let carol = keypair(3);
    let mut state = State::new();
    state.credit(address(&alice), 50).unwrap();
    let mut ctx = ExecutionContext::new(&state);
    let too_much = Transaction::new(&alice, bob.public_key(), 500, 0, 5).unwrap();
    assert_eq!(
        ctx.execute_transaction(&too_much),
        Err(StateError::Account(AccountError::InsufficientBalance { required: 505, available: 50 }))
    );
    let wrong_nonce = Transaction::new(&alice, bob.public_key(), 5, 3, 1).unwrap();
    assert_eq!(ctx.execute_transaction(&wrong_nonce), Err(StateError::InvalidNonce { expected: 0, got: 3 }));
    let unknown = Transaction::new(&carol, bob.public_key(), 5, 0, 1).unwrap();
    assert_eq!(ctx.execute_transaction(&unknown), Err(StateError::AccountNotFound));
    assert_eq!(ctx.get_account(&address(&alice)), Some(Account::new(50, 0)));
    assert_eq!(ctx.get_account(&address(&bob)), None);
}

#[test]
fn execute_transactions_sums_fees_and_detects_overflow() {
    let alice = keypair(1);
    let bob = keypair(2);
    let mut state = State::new();
    state.credit(address(&alice), u64::MAX).unwrap();
    state.credit(address(&bob), u64::MAX).unwrap();
    let t1 = Transaction::new(&alice, bob.public_key(), 1, 0, 7).unwrap();
    let t2 = Transaction::new(&alice, bob.public_key(), 1, 1, 8).unwrap();
    let mut ctx = ExecutionContext::new(&state);
    assert_eq!(ctx.execute_transactions(&[t1, t2]), Err(StateError::Account(AccountError::BalanceOverflow)));

    let mut state2 = State::new();
    state2.credit(address(&alice), u64::MAX).unwrap();
    state2.credit(address(&bob), u64::MAX).unwrap();
    let carol = keypair(3);
    let big1 = Transaction::new(&alice, carol.public_key(), 1, 0, u64::MAX - 1).unwrap();
    let big2 = Transaction::new(&bob, carol.public_key(), 1, 0, 5).unwrap();
    let mut ctx2 = ExecutionContext::new(&state2);
    assert_eq!(ctx2.execute_transactions(&[big1]), Ok(u64::MAX - 1));
    assert_eq!(ctx2.execute_transactions(&[big2]), Ok(5));
    let mut ctx3 = ExecutionContext::new(&state2);
    assert_eq!(ctx3.execute_transactions(&[big1, big2]), Err(StateError::FeeOverflow));

    let mut ctx4 = ExecutionContext::new(&state2);
    assert_eq!(ctx4.execute_transactions(&[]), Ok(0));
    ctx4.credit(address(&carol), 9).unwrap();
    assert_eq!(ctx4.get_account(&address(&carol)), Some(Account::new(9, 0)));
    let empty = StateDiff::new();
    assert!(empty.is_empty());
}

#[test]
fn chain_adds_a_valid_block_and_credits_the_miner() {
    let alice = keypair(1);
    let bob = keypair(2);
    let miner = keypair(9);
    let mut chain = Blockchain::new(1).unwrap();
    assert_eq!(chain.blocks().len(), 1);
    assert_eq!(chain.height(), 0);
    assert_eq!(chain.difficulty(), 1);
    chain.state_mut().credit(address(&alice), 1000).unwrap();
    let tx = Transaction::new(&alice, bob.public_key(), 300, 0, 7).unwrap();
    let block = Block::new(1, chain.latest_hash(), vec![tx], 1, 0).unwrap();
    chain.add_block(block.clone(), &address(&miner)).unwrap();
    assert_eq!(chain.height(), 1);
    assert_eq!(chain.latest_hash(), block.hash);
    assert_eq!(chain.state().last_block_hash(), block.hash);
    assert_eq!(chain.state().get_balance(&address(&alice)), Some(693));
    assert_eq!(chain.state().get_balance(&address(&bob)), Some(300));
    assert_eq!(chain.state().get_balance(&address(&miner)), Some(7));
    assert_eq!(chain.latest_block().transactions.len(), 1);
}

#[test]
fn chain_refuses_blocks_that_do_not_extend_the_tip() {
    let mut chain = Blockchain::new(1).unwrap();
    let miner = address(&keypair(9));
    let wrong_prev = Block::new(1, blockchain_core::crypto::Hash::from_bytes([7u8; 32]), Vec::new(), 1, 0).unwrap();
    assert!(matches!(
        chain.add_block(wrong_prev, &miner),
        Err(StateError::InvalidPreviousHash { .. })
    ));
    let wrong_height = Block::new(5, chain.latest_hash(), Vec::new(), 1, 0).unwrap();
    assert_eq!(
        chain.add_block(wrong_height, &miner),
        Err(StateError::InvalidBlockHeight { current: 0, expected: 1, got: 5 })
    );
    let mut bad_hash = Block::new(1, chain.latest_hash(), Vec::new(), 1, 0).unwrap();
    bad_hash.hash = blockchain_core::crypto::Hash::zero();
    assert_eq!(
        chain.add_block(bad_hash, &miner),
        Err(StateError::Block(BlockError::InvalidBlockHash))
    );
    assert_eq!(chain.height(), 0);
    assert_eq!(chain.blocks().len(), 1);
}

#[test]
fn chain_refuses_a_block_with_a_failing_transaction() {
    let alice = keypair(1);
    let bob = keypair(2);
    let mut chain = Blockchain::new(1).unwrap();
    chain.state_mut().credit(address(&alice), 10).unwrap();
    let tx = Transaction::new(&alice, bob.public_key(), 300, 0, 7).unwrap();
    let block = Block::new(1, chain.latest_hash(), vec![tx], 1, 0).unwrap();
    assert_eq!(
        chain.add_block(block, &address(&keypair(9))),
        Err(StateError::Account(AccountError::InsufficientBalance { required: 307, available: 10 }))
    );
    assert_eq!(chain.state().get_balance(&address(&alice)), Some(10));
    assert_eq!(chain.height(), 0);
}

#[test]
fn account_queue_accepts_only_the_next_nonce() {
    let mut q = AccountQueue::new(5);
    let h = blockchain_core::crypto::Hash::from_bytes([1u8; 32]);
    assert_eq!(q.push(6, h), Err(TransactionError::InvalidNonce { expected: 5, got: 6 }));
    assert_eq!(q.push(5, h), Ok(()));
    assert_eq!(q.next_accepted_nonce(), 6);
    assert_eq!(q.front(), Some((5, h)));
    assert_eq!(q.pop_front(), Some((5, h)));
    // Popping does not change the next accepted nonce.
    assert_eq!(q.next_accepted_nonce(), 6);
    assert_eq!(q.pop_front(), None);
    let mut full = AccountQueue::new(u64::MAX);
    assert_eq!(
        full.push(u64::MAX, h),
        Err(TransactionError::Account(AccountError::NonceOverflow))
    );
    assert_eq!(full.len(), 1);
    assert_eq!(full.remove(u64::MAX), Some(h));
    assert!(full.is_empty());
}

#[test]
fn mempool_requires_a_known_sender_and_valid_signature() {
    let alice = keypair(1);
    let bob = keypair(2);
    let state = State::new();
    let mut pool = Mempool::new();
    let tx = Transaction::new(&alice, bob.public_key(), 10, 0, 1).unwrap();
    assert_eq!(
        pool.add_transaction(tx, &state),
        Err(TransactionError::Account(AccountError::AccountNotFound))
    );
    let forged = Transaction::from_parts(*tx.sender(), *tx.receiver(), 11, 0, *tx.signature(), 1);
    assert_eq!(
        pool.add_transaction(forged, &state),
        Err(TransactionError::InvalidSignature(CryptoError::VerificationFailed))
    );
    assert!(pool.is_empty());
}

#[test]
fn mempool_reports_the_reservation_shortfall() {
    let alice = keypair(1);
    let bob = keypair(2);
    let mut state = State::new();
    state.credit(address(&alice), 150).unwrap();
    let mut pool = Mempool::new();
    pool.add_transaction(Transaction::new(&alice, bob.public_key(), 100, 0, 10).unwrap(), &state).unwrap();
    assert_eq!(
        pool.add_transaction(Transaction::new(&alice, bob.public_key(), 100, 1, 10).unwrap(), &state),
        Err(TransactionError::Account(AccountError::InsufficientBalance { required: 220, available: 150 }))
    );
    assert_eq!(
        pool.add_transaction(Transaction::new(&alice, bob.public_key(), 100, 3, 10).unwrap(), &state),
        Err(TransactionError::InvalidNonce { expected: 1, got: 3 })
    );
}

#[test]
fn nonce_ordered_selection_follows_its_limit_check() {
    let alice = keypair(1);
    let bob = keypair(2);
    let mut state = State::new();
    state.credit(address(&alice), 1000).unwrap();
    let mut pool = Mempool::new();
    pool.add_transaction(Transaction::new(&alice, bob.public_key(), 10, 0, 1).unwrap(), &state).unwrap();
    pool.add_transaction(Transaction::new(&alice, bob.public_key(), 10, 1, 9).unwrap(), &state).unwrap();
    assert!(pool.get_nonce_ordered_transactions(5).is_empty());
    let all = pool.get_nonce_ordered_transactions(0);
    assert_eq!(all.len(), 2);
    assert_eq!(all[0].nonce(), 0);
    assert_eq!(all[1].nonce(), 1);
}

#[test]
fn removing_mined_transactions_rebuilds_queues_from_the_state() {
    let alice = keypair(1);
    let bob = keypair(2);
    let mut state = State::new();
    state.credit(address(&alice), 1000).unwrap();
    let mut pool = Mempool::new();
    let t0 = Transaction::new(&alice, bob.public_key(), 10, 0, 1).unwrap();
    let t1 = Transaction::new(&alice, bob.public_key(), 10, 1, 1).unwrap();
    let t2 = Transaction::new(&alice, bob.public_key(), 10, 2, 1).unwrap();
    pool.add_transaction(t0, &state).unwrap();
    pool.add_transaction(t1, &state).unwrap();
    pool.add_transaction(t2, &state).unwrap();
    // t1 is mined alone: the state nonce is still 0, so t2 cannot follow t0
    // once t1 is gone; the rebuilt queue keeps t0 only.
    pool.remove_mined_transactions(&[t1], &state).unwrap();
    assert_eq!(pool.len(), 2);
    let picked = pool.get_prioritized_transactions(&state, 10);
    assert_eq!(picked, vec![t0]);
    // A sender without an account stops the rebuild.
    let empty_state = State::new();
    assert_eq!(
        pool.rebuild_reservations(&empty_state),
        Err(TransactionError::Account(AccountError::AccountNotFound))
    );
}

#[test]
fn rebuild_skips_what_the_balance_no_longer_covers() {
    let alice = keypair(1);
    let bob = keypair(2);
    let mut state = State::new();
    state.credit(address(&alice), 100).unwrap();
    let mut pool = Mempool::new();
    let t0 = Transaction::new(&alice, bob.public_key(), 40, 0, 5).unwrap();
    let t1 = Transaction::new(&alice, bob.public_key(), 40, 1, 5).unwrap();
    pool.add_transaction(t0, &state).unwrap();
    pool.add_transaction(t1, &state).unwrap();
    let mut poorer = State::new();
    poorer.credit(address(&alice), 60).unwrap();
    pool.rebuild_reservations(&poorer).unwrap();
    assert_eq!(pool.get_prioritized_transactions(&poorer, 10), vec![t0]);
    assert_eq!(pool.len(), 2);
}

#[test]
fn prioritized_selection_respects_the_limit() {
    let alice = keypair(1);
    let bob = keypair(2);
    let mut state = State::new();
    state.credit(address(&alice), 1000).unwrap();
    state.credit(address(&bob), 1000).unwrap();
    let mut pool = Mempool::new();
    pool.add_transaction(Transaction::new(&alice, bob.public_key(), 10, 0, 3).unwrap(), &state).unwrap();
    pool.add_transaction(Transaction::new(&bob, alice.public_key(), 10, 0, 4).unwrap(), &state).unwrap();
    let one = pool.get_prioritized_transactions(&state, 1);
    assert_eq!(one.len(), 1);
    assert_eq!(one[0].fee(), 4);
    assert!(pool.get_prioritized_transactions(&state, 0).is_empty());
}

#[test]
fn public_key_helpers_round_trip() {
    let kp = keypair(4);
    let pk = kp.public_key();
    let addr = Address::new(pk);
    assert_eq!(*addr.public_key(), pk);
    assert_eq!(addr.as_bytes(), pk.as_bytes());
    assert!(pk.equals(&PublicKey::from_bytes(&pk.as_bytes()).unwrap()));
}

#[test]
fn new_chain_at_a_fixed_time_has_a_valid_genesis_on_the_zero_hash() {
    let chain = Blockchain::new_with_timestamp(1, 1_234).unwrap();
    assert_eq!(chain.blocks().len(), 1);
    let genesis = &chain.blocks()[0];
    assert_eq!(genesis.header.index, 0);
    assert_eq!(genesis.header.timestamp, 1_234);
    assert_eq!(genesis.header.previous_hash, blockchain_core::crypto::Hash::default());
    assert!(genesis.transactions.is_empty());
    assert!(genesis.is_valid(1).is_ok());
    assert_eq!(genesis.header.merkle_root, Block::calculate_merkle_root(&[]).unwrap());
    assert_eq!(genesis.hash.to_bytes()[0], 0);
    assert_eq!(chain.height(), 0);
    assert_eq!(chain.difficulty(), 1);
    let again = Block::genesis_with_timestamp(1, 1_234).unwrap();
    assert_eq!(again.hash, genesis.hash);
}

#[test]
fn new_chain_genesis_is_valid() {
    let chain = Blockchain::new(1).unwrap();
    let genesis = &chain.blocks()[0];
    assert_eq!(genesis.header.previous_hash, blockchain_core::crypto::Hash::default());
    assert!(genesis.is_valid(1).is_ok());
}

#[test]
fn executing_transactions_totals_their_fees() {
    let alice = keypair(1);
    let bob = keypair(2);
    let mut state = State::new();
    state.credit(address(&alice), 1000).unwrap();
    let t1 = Transaction::new(&alice, bob.public_key(), 10, 0, 3).unwrap();
    let t2 = Transaction::new(&alice, bob.public_key(), 20, 1, 4).unwrap();
    let t3 = Transaction::new(&alice, bob.public_key(), 30, 2, 5).unwrap();
    let mut ctx = ExecutionContext::new(&state);
    assert_eq!(ctx.execute_transactions(&[t1, t2, t3]), Ok(12));
}

#[test]
fn prioritized_selection_takes_limit_or_all_ready() {
    let alice = keypair(1);
    let bob = keypair(2);
    let mut state = State::new();
    state.credit(address(&alice), 1000).unwrap();
    let mut pool = Mempool::new();
    for n in 0..3u64 {
        let t = Transaction::new(&alice, bob.public_key(), 10, n, 1 + n).unwrap();
        pool.add_transaction(t, &state).unwrap();
    }
    assert_eq!(pool.get_prioritized_transactions(&state, 2).len(), 2);
    assert_eq!(pool.get_prioritized_transactions(&state, 10).len(), 3);
    assert_eq!(pool.get_prioritized_transactions(&state, 0).len(), 0);
}

#[test]
fn rebuilding_twice_gives_what_once_gives() {
    let alice = keypair(1);
    let bob = keypair(2);
    let mut state = State::new();
    state.credit(address(&alice), 1000).unwrap();
    let mut pool = Mempool::new();
    for n in 0..3u64 {
        let t = Transaction::new(&alice, bob.public_key(), 10, n, 2).unwrap();
        pool.add_transaction(t, &state).unwrap();
    }
    assert_eq!(pool.rebuild_reservations(&state), Ok(()));
    let once: Vec<u64> = pool.get_prioritized_transactions(&state, 10).iter().map(|t| t.nonce()).collect();
    assert_eq!(pool.rebuild_reservations(&state), Ok(()));
    let twice: Vec<u64> = pool.get_prioritized_transactions(&state, 10).iter().map(|t| t.nonce()).collect();
    assert_eq!(once, twice);
    assert_eq!(once, vec![0, 1, 2]);
    assert_eq!(pool.len(), 3);
}

#[test]
fn priority_entries_compare_by_fee_then_sender_then_nonce_then_hash() {
    let s1 = address(&keypair(1));
    let s2 = address(&keypair(2));
    let h1 = blockchain_core::crypto::Hash::from_bytes([1u8; 32]);
    let h2 = blockchain_core::crypto::Hash::from_bytes([2u8; 32]);
    let low = PriorityEntry::new(5, s2, 0, h2);
    let high = PriorityEntry::new(50, s1, 9, h1);
    assert_eq!(high.partial_cmp(&low), Some(Ordering::Greater));
    assert_eq!(low.partial_cmp(&high), Some(Ordering::Less));
    assert_eq!(low.partial_cmp(&low), Some(Ordering::Equal));
    assert_eq!(high.cmp(&low), Ordering::Greater);
    let a = PriorityEntry::new(5, s1, 3, h1);
    let b = PriorityEntry::new(5, s1, 4, h1);
    assert_eq!(a.partial_cmp(&b), Some(a.cmp(&b)));
    assert_eq!(a.partial_cmp(&b), Some(Ordering::Less));
    let c = PriorityEntry::new(5, s1, 3, h2);
    assert_eq!(a.partial_cmp(&c), Some(a.cmp(&c)));
    assert_eq!(a.partial_cmp(&c), Some(Ordering::Less));
    let d = PriorityEntry::new(5, s2, 0, h1);
    assert_eq!(a.partial_cmp(&d), Some(a.cmp(&d)));
}
