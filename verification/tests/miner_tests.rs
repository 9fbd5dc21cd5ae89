use blockchain_core::blockchain::Blockchain;
use blockchain_core::constants::DEFAULT_DIFFICULTY;
use blockchain_core::crypto::{Address, Keypair};
use blockchain_core::mempool::Mempool;
use blockchain_core::miner::Miner;
use blockchain_core::transaction::Transaction;

#[test]
fn test_miner_mines_prioritized_transactions() {
    let mut blockchain = Blockchain::new(DEFAULT_DIFFICULTY).unwrap();

    let mut mempool = Mempool::new();

    let miner_keys = Keypair::generate();
    let miner = Miner::new(miner_keys);

    let alice = Keypair::generate();
    let bob = Keypair::generate();

    let alice_addr = Address::from(alice.public_key());

    // Give Alice funds.
    let _result = blockchain.state_mut().credit(alice_addr, 5000);

    // Alice nonce 0, low fee.
    let tx1 = Transaction::new(&alice, bob.public_key(), 100, 0, 5).unwrap();

    // Alice nonce 1, high fee.
    let tx2 = Transaction::new(&alice, bob.public_key(), 100, 1, 50).unwrap();

    mempool.add_transaction(tx1, blockchain.state()).unwrap();

    mempool.add_transaction(tx2, blockchain.state()).unwrap();

    assert_eq!(mempool.len(), 2);

    // Miner creates the next block.
    let block = miner
        .mine_next_block(&mut blockchain, &mut mempool, 2)
        .unwrap();

    // Both transactions should be included.
    assert_eq!(block.transactions.len(), 2);

    // Nonce order must be respected.
    assert_eq!(block.transactions[0].nonce(), 0);
    assert_eq!(block.transactions[1].nonce(), 1);

    // Blockchain should now contain the mined block.
    assert_eq!(blockchain.height(), 1);

    // Mined transactions should be removed.
    assert_eq!(mempool.len(), 0);
}

#[test]
fn mining_at_a_fixed_time_stamps_and_links_the_block() {
    let mut blockchain = Blockchain::new_with_timestamp(1, 1_700_000_000).unwrap();
    let mut mempool = Mempool::new();
    let miner = Miner::new(Keypair::from_seed(&[9u8; 32]));
    let alice = Keypair::from_seed(&[1u8; 32]);
    let bob = Keypair::from_seed(&[2u8; 32]);
    blockchain.state_mut().credit(Address::from(alice.public_key()), 1000).unwrap();
    let tx = Transaction::new(&alice, bob.public_key(), 100, 0, 7).unwrap();
    mempool.add_transaction(tx, blockchain.state()).unwrap();
    let genesis_hash = blockchain.latest_hash();

    let block = miner
        .mine_next_block_at(&mut blockchain, &mut mempool, 10, 1_700_000_060)
        .unwrap();

    assert_eq!(block.header.timestamp, 1_700_000_060);
    assert_eq!(block.header.index, 1);
    assert_eq!(block.header.previous_hash, genesis_hash);
    assert_eq!(block.transactions.len(), 1);
    assert_eq!(block.hash, block.header.calculate_hash());
    assert!(block.is_valid(1).is_ok());
    assert_eq!(blockchain.height(), 1);
    assert_eq!(blockchain.latest_hash(), block.hash);
    assert_eq!(mempool.len(), 0);
    assert_eq!(blockchain.state().get_balance(&miner.address()), Some(7));
}

#[test]
fn mining_at_a_fixed_time_is_deterministic() {
    let run = || {
        let mut blockchain = Blockchain::new_with_timestamp(1, 42).unwrap();
        let mut mempool = Mempool::new();
        let miner = Miner::new(Keypair::from_seed(&[9u8; 32]));
        miner.mine_next_block_at(&mut blockchain, &mut mempool, 5, 43).unwrap()
    };
    let a = run();
    let b = run();
    assert_eq!(a.hash, b.hash);
    assert_eq!(a.header.nonce, b.header.nonce);
    assert!(a.transactions.is_empty());
}
