//! Tests for the ledger store: blocks, indices, account state, integrity
//! and schema versioning.

use blocana::block::Block;
use blocana::state::AccountState;
use blocana::storage::block_store::BlockStore;
use blocana::storage::migration::{
    available_migrations, check_and_migrate, get_schema_version, set_schema_version,
    MigrationConfig, CURRENT_SCHEMA_VERSION,
};
use blocana::storage::state_store::StateStore;
use blocana::storage::{BlockchainStorage, StorageConfig};
use blocana::transaction::Transaction;

fn create_test_transaction(index: u8) -> Transaction {
    let mut sender = [0u8; 32];
    let mut recipient = [0u8; 32];
    sender[0] = index;
    recipient[0] = index + 1;
    Transaction::new(sender, recipient, 100 * index as u64, 10, 0, vec![])
}

fn create_test_block(height: u64, prev_hash: [u8; 32], tx_count: u8) -> Block {
    let mut transactions = Vec::new();
    for i in 0..tx_count {
        transactions.push(create_test_transaction(i + 1));
    }
    let validator = [0u8; 32];
    Block::new(prev_hash, height, transactions, validator).unwrap()
}

#[test]
fn test_block_storage_retrieval() {
    let config = StorageConfig::default();
    let mut storage = BlockchainStorage::open(&config).unwrap();

    let genesis_hash = [0u8; 32];
    let block = create_test_block(1, genesis_hash, 5);
    let block_hash = block.header.hash();

    storage.store_block(&block).unwrap();

    let retrieved_block = storage.get_block(&block_hash).unwrap().unwrap();
    assert_eq!(retrieved_block.header.height, block.header.height);
    assert_eq!(retrieved_block.transactions.len(), block.transactions.len());

    let by_height = storage.get_block_by_height(1).unwrap().unwrap();
    assert_eq!(by_height.header.hash(), block_hash);
}

#[test]
fn test_transaction_indexing() {
    let config = StorageConfig::default();
    let mut storage = BlockchainStorage::open(&config).unwrap();

    let genesis_hash = [0u8; 32];
    let block = create_test_block(1, genesis_hash, 5);
    let tx_hash = block.transactions[1].hash();

    storage.store_block(&block).unwrap();

    let tx = storage.get_transaction(&tx_hash).unwrap().unwrap();
    assert_eq!(tx.hash(), tx_hash);
}

#[test]
fn test_account_state() {
    let config = StorageConfig::default();
    let mut storage = BlockchainStorage::open(&config).unwrap();

    let address = [42u8; 32];
    let mut state = AccountState::new();
    state.balance = 1000;
    state.nonce = 5;

    storage.store_account_state(&address, &state).unwrap();

    let retrieved_state = storage.get_account_state(&address).unwrap().unwrap();
    assert_eq!(retrieved_state.balance, 1000);
    assert_eq!(retrieved_state.nonce, 5);
}

#[test]
fn test_chain_integrity() {
    let config = StorageConfig::default();
    let mut storage = BlockchainStorage::open(&config).unwrap();

    let genesis_block = create_test_block(0, [0u8; 32], 1);
    storage.store_block(&genesis_block).unwrap();

    let block1 = create_test_block(1, genesis_block.header.hash(), 2);
    let block1_hash = block1.header.hash();
    let block2 = create_test_block(2, block1_hash, 3);
    let block2_hash = block2.header.hash();
    let block3 = create_test_block(3, block2_hash, 1);

    storage.store_block(&block1).unwrap();
    storage.store_block(&block2).unwrap();
    storage.store_block(&block3).unwrap();

    for height in 1..=3 {
        let stored_hash = storage.get_block_hash_by_height(height).unwrap();
        let stored_block = storage.get_block(&stored_hash).unwrap().unwrap();
        let prev_block_hash = storage.get_block_hash_by_height(height - 1).unwrap();
        assert_eq!(stored_block.header.prev_hash, prev_block_hash);
    }

    assert!(storage.verify_integrity().unwrap());
}

#[test]
fn test_timestamp_index() {
    let config = StorageConfig::default();
    let mut storage = BlockchainStorage::open(&config).unwrap();

    let genesis_hash = [0u8; 32];
    let validator = [0u8; 32];

    let timestamps = [1617235200000u64, 1617235260000, 1617235320000];

    let mut prev_hash = genesis_hash;
    for (i, &timestamp) in timestamps.iter().enumerate() {
        let height = i as u64 + 1;
        let mut block = Block::new(prev_hash, height, vec![], validator).unwrap();
        block.header.timestamp = timestamp;
        storage.store_block(&block).unwrap();
        prev_hash = block.header.hash();
    }

    let blocks = storage
        .get_blocks_by_time_range(1617235200000, 1617235320000, 10)
        .unwrap();
    assert_eq!(blocks.len(), 3);

    let count = storage
        .count_blocks_by_time_range(1617235200000, 1617235320000)
        .unwrap();
    assert_eq!(count, 3);
}

#[test]
fn test_block_store_operations() {
    let config = StorageConfig::default();
    let mut storage = BlockchainStorage::open(&config).unwrap();

    let genesis_hash = [0u8; 32];

    let block1 = create_test_block(1, genesis_hash, 0);
    let block1_hash = block1.header.hash();
    storage.store_block(&block1).unwrap();

    let block2 = create_test_block(2, block1_hash, 0);
    let block2_hash = block2.header.hash();
    storage.store_block(&block2).unwrap();

    let block3 = create_test_block(3, block2_hash, 0);
    let block3_hash = block3.header.hash();
    storage.store_block(&block3).unwrap();

    let block_store = BlockStore::new(&storage);

    let retrieved_block = block_store.get_block(&block2_hash).unwrap().unwrap();
    assert_eq!(retrieved_block.header.height, 2);

    let by_height = block_store.get_block_by_height(3).unwrap().unwrap();
    assert_eq!(by_height.header.hash(), block3_hash);

    let latest = block_store.get_latest_block().unwrap().unwrap();
    assert_eq!(latest.header.height, 3);

    assert_eq!(block_store.get_latest_height().unwrap(), 3);

    assert!(block_store.block_exists(&block1_hash).unwrap());
    assert!(!block_store.block_exists(&[255u8; 32]).unwrap());

    let blocks = block_store.get_blocks_in_range(1, 3).unwrap();
    assert_eq!(blocks.len(), 3);
    assert_eq!(blocks[0].header.height, 1);
    assert_eq!(blocks[2].header.height, 3);
}

#[test]
fn test_state_store_operations() {
    let config = StorageConfig::default();
    let mut storage = BlockchainStorage::open(&config).unwrap();

    let address = [1u8; 32];
    {
        let state_store = StateStore::new(&storage);
        let state = state_store.get_account_state(&address).unwrap();
        assert_eq!(state.balance, 0);
        assert_eq!(state.nonce, 0);
    }

    let mut new_state = AccountState::new();
    new_state.balance = 1000;
    new_state.nonce = 5;
    storage.store_account_state(&address, &new_state).unwrap();

    {
        let state_store = StateStore::new(&storage);
        let retrieved_state = state_store.get_account_state(&address).unwrap();
        assert_eq!(retrieved_state.balance, 1000);
        assert_eq!(retrieved_state.nonce, 5);
    }

    storage.update_account_state(&address, 500, 1).unwrap();

    {
        let state_store = StateStore::new(&storage);
        let updated_state = state_store.get_account_state(&address).unwrap();
        assert_eq!(updated_state.balance, 1500);
        assert_eq!(updated_state.nonce, 6);

        assert!(state_store.account_exists(&address).unwrap());
        assert!(!state_store.account_exists(&[2u8; 32]).unwrap());
    }

    let mut state1 = AccountState::new();
    state1.balance = 2000;
    let mut state2 = AccountState::new();
    state2.balance = 3000;

    storage
        .store_account_states(vec![([10u8; 32], state1), ([11u8; 32], state2)])
        .unwrap();

    let state_store = StateStore::new(&storage);
    let check1 = state_store.get_account_state(&[10u8; 32]).unwrap();
    let check2 = state_store.get_account_state(&[11u8; 32]).unwrap();
    assert_eq!(check1.balance, 2000);
    assert_eq!(check2.balance, 3000);
}

#[test]
fn test_empty_store_is_sound() {
    let storage = BlockchainStorage::open(&StorageConfig::default()).unwrap();
    assert!(storage.verify_integrity().unwrap());
    assert_eq!(storage.get_latest_height().unwrap(), 0);
    assert!(storage.get_block(&[1u8; 32]).unwrap().is_none());
    assert!(storage.get_transaction(&[1u8; 32]).unwrap().is_none());
}

#[test]
fn test_schema_version() {
    let config = StorageConfig::default();
    let mut storage = BlockchainStorage::open(&config).unwrap();

    assert_eq!(get_schema_version(&storage).unwrap(), 0);

    set_schema_version(&mut storage, 42).unwrap();
    assert_eq!(get_schema_version(&storage).unwrap(), 42);
}

#[test]
fn test_migration_path() {
    let config = StorageConfig::default();
    let mut storage = BlockchainStorage::open(&config).unwrap();

    set_schema_version(&mut storage, 0).unwrap();

    let migrated = check_and_migrate(&mut storage, MigrationConfig::default()).unwrap();
    assert!(migrated);

    assert_eq!(get_schema_version(&storage).unwrap(), CURRENT_SCHEMA_VERSION);

    let migrated_again = check_and_migrate(&mut storage, MigrationConfig::default()).unwrap();
    assert!(!migrated_again);

    assert_eq!(available_migrations().len(), 1);
}

#[test]
fn test_block_store_timestamp_operations() {
    let config = StorageConfig::default();
    let mut storage = BlockchainStorage::open(&config).unwrap();

    let genesis_hash = [0u8; 32];
    let timestamps = [1617235200000u64, 1617235260000, 1617235320000];

    let mut prev_hash = genesis_hash;
    for (i, &timestamp) in timestamps.iter().enumerate() {
        let height = i as u64 + 1;
        let mut block = create_test_block(height, prev_hash, 0);
        block.header.timestamp = timestamp;
        storage.store_block(&block).unwrap();
        prev_hash = block.header.hash();
    }

    let block_store = BlockStore::new(&storage);

    let blocks = block_store
        .get_blocks_by_time_range(1617235200000, 1617235260000, 10)
        .unwrap();
    assert_eq!(blocks.len(), 2);
    assert_eq!(blocks[0].header.timestamp, 1617235200000);
    assert_eq!(blocks[1].header.timestamp, 1617235260000);

    let found_block = block_store.find_block_by_timestamp(1617235250000).unwrap();
    assert!(found_block.is_some());
    assert_eq!(found_block.unwrap().header.timestamp, 1617235200000);
}

#[test]
fn test_latest_height_is_numeric() {
    let mut storage = BlockchainStorage::open(&StorageConfig::default()).unwrap();

    // heights around the byte boundary: 256 is the latest even though its
    // little-endian key starts with a zero byte
    let mut prev = [0u8; 32];
    for height in [0u64, 255, 256] {
        let block = Block::new(prev, height, vec![], [0u8; 32]).unwrap();
        prev = block.header.hash();
        storage.store_block(&block).unwrap();
    }
    assert_eq!(storage.get_latest_height().unwrap(), 256);
}

#[test]
fn test_integrity_walks_past_byte_boundary() {
    let mut storage = BlockchainStorage::open(&StorageConfig::default()).unwrap();

    // a full chain of 258 blocks: heights 0 through 257
    let mut prev = [0u8; 32];
    for height in 0..=257u64 {
        let block = Block::new(prev, height, vec![], [0u8; 32]).unwrap();
        prev = block.header.hash();
        storage.store_block(&block).unwrap();
    }
    assert_eq!(storage.get_latest_height().unwrap(), 257);
    assert_eq!(storage.verify_integrity().unwrap(), true);

    // a rogue block far above the chain is seen: the store no longer
    // verifies as sound
    let rogue = Block::new([13u8; 32], 280, vec![], [0u8; 32]).unwrap();
    storage.store_block(&rogue).unwrap();
    assert!(!matches!(storage.verify_integrity(), Ok(true)));
}
