//! Blocana: a lightweight blockchain core for resource-constrained
//! environments, with verified transaction, state, mempool and ledger logic.

use vstd::prelude::*;

pub mod types;
pub mod strfmt;
pub mod crypto;
pub mod transaction;
pub mod clock;
pub mod state;
pub mod block;
pub mod codec;
pub mod errors;
pub mod metrics;
pub mod storage;

verus! {

use crate::strfmt::hex_chars_of;
use crate::strfmt::hex_of_bytes;

/// Error kinds for chain operations.
#[derive(Debug)]
pub enum Error {
    /// IO error
    IO(String),
    /// Cryptographic error
    Crypto(String),
    /// Database error
    DB(String),
    /// Validation error
    Validation(String),
    /// Network error
    Network(String),
    /// Configuration error
    Config(String),
    /// Serialization error
    Serialization(String),
    /// Consensus error
    Consensus(String),
    /// Other error kind
    Other(String),
}

impl Error {
    /// The error's message.
    pub fn message(&self) -> (r: String)
        ensures
            match *self {
                Error::IO(ref m) => r@ == m@,
                Error::Crypto(ref m) => r@ == m@,
                Error::DB(ref m) => r@ == m@,
                Error::Validation(ref m) => r@ == m@,
                Error::Network(ref m) => r@ == m@,
                Error::Config(ref m) => r@ == m@,
                Error::Serialization(ref m) => r@ == m@,
                Error::Consensus(ref m) => r@ == m@,
                Error::Other(ref m) => r@ == m@,
            },
    {
        match self {
            Error::IO(m) => crate::errors::clone_string(m),
            Error::Crypto(m) => crate::errors::clone_string(m),
            Error::DB(m) => crate::errors::clone_string(m),
            Error::Validation(m) => crate::errors::clone_string(m),
            Error::Network(m) => crate::errors::clone_string(m),
            Error::Config(m) => crate::errors::clone_string(m),
            Error::Serialization(m) => crate::errors::clone_string(m),
            Error::Consensus(m) => crate::errors::clone_string(m),
            Error::Other(m) => crate::errors::clone_string(m),
        }
    }
}

/// Configuration for a chain node.
#[derive(Clone)]
pub struct BlockchainConfig {
    /// Network identifier.
    pub network_id: u64,
    /// Maximum size of a block in bytes.
    pub max_block_size: usize,
    /// Target block time in milliseconds.
    pub target_block_time_ms: u64,
    /// Maximum number of transactions per block.
    pub max_txs_per_block: usize,
    /// Storage configuration.
    pub storage_config: crate::storage::StorageConfig,
    /// Mempool configuration.
    pub pool_config: crate::transaction::pool::TransactionPoolConfig,
}

impl Default for BlockchainConfig {
    /// The default chain configuration.
    fn default() -> (r: Self)
        ensures
            r.network_id == 1,
            r.max_block_size == 1000000,
            r.target_block_time_ms == 500,
            r.max_txs_per_block == 1000,
    {
        BlockchainConfig {
            network_id: 1,
            max_block_size: 1000000,
            target_block_time_ms: 500,
            max_txs_per_block: 1000,
            storage_config: crate::storage::StorageConfig::default(),
            pool_config: crate::transaction::pool::TransactionPoolConfig::default(),
        }
    }
}

/// A chain node: its configuration, ledger store, state and mempool.
pub struct Blockchain {
    /// The node's configuration.
    pub config: BlockchainConfig,
    /// The ledger store.
    pub storage: crate::storage::BlockchainStorage,
    /// The account state.
    pub state: crate::state::BlockchainState,
    /// The pool of pending transactions.
    pub pool: crate::transaction::pool::TransactionPool,
}

impl Blockchain {
    /// Whether the node's pieces are well formed.
    pub open spec fn wf(&self) -> bool {
        self.storage.wf() && self.pool.wf()
    }

    /// Create a new node from a configuration, with an empty store, empty
    /// state and empty pool.
    pub fn new(config: BlockchainConfig) -> (r: Result<Blockchain, Error>)
        ensures
            r is Ok,
            r->Ok_0.wf(),
            r->Ok_0.pool.entries().len() == 0,
    {
        let pool_config = config.pool_config;
        let storage = match crate::storage::BlockchainStorage::open(&config.storage_config) {
            Ok(s) => s,
            Err(_) => {
                return Err(Error::DB(String::from_str("Cannot open storage")));
            },
        };
        Ok(
            Blockchain {
                config,
                storage,
                state: crate::state::BlockchainState::new(),
                pool: crate::transaction::pool::TransactionPool::with_config(pool_config),
            },
        )
    }

    /// Produce a block over the best pending transactions: they are
    /// selected from the pool against the current state and wrapped in an
    /// unsigned version-1 block one height above the latest stored block,
    /// pointing at its hash (all zeroes over an empty store).
    pub fn generate_block(&mut self, validator: crate::types::PublicKeyBytes) -> (r: Result<
        crate::block::Block,
        Error,
    >)
        requires
            old(self).wf(),
        ensures
            final(self).wf(),
            final(self).pool.entries() == old(self).pool.entries(),
            crate::state::state_model(final(self).state) == crate::state::state_model(
                old(self).state,
            ),
            final(self).storage.height_model() == old(self).storage.height_model(),
            final(self).storage.blocks_model() == old(self).storage.blocks_model(),
            r is Ok ==> {
                let picks = crate::transaction::pool::spec_select(
                    old(self).pool.entries(),
                    crate::state::state_model(old(self).state),
                    old(self).config.max_txs_per_block as nat,
                );
                &&& r->Ok_0@.header.version == 1
                &&& r->Ok_0@.header.signature == crate::types::zero_signature()
                &&& r->Ok_0@.header.validator == validator@
                &&& r->Ok_0@.transactions.len() == picks.len()
                &&& (forall|p: int|
                    0 <= p < picks.len() ==> #[trigger] r->Ok_0@.transactions[p] == old(
                        self,
                    ).pool.entries()[picks[p]].tx)
                &&& r->Ok_0@.header.merkle_root == crate::crypto::merkle_root_of(
                    crate::block::tx_hashes_of(r->Ok_0@.transactions),
                )
            },
            old(self).storage.height_count() == 0 ==> r is Ok && r->Ok_0@.header.height == 1
                && r->Ok_0@.header.prev_hash == crate::types::zero_hash(),
            old(self).storage.height_count() > 0 ==> forall|l: u64|
                #[trigger] crate::storage::is_latest_height(old(self).storage.height_model(), l)
                    ==> if l < u64::MAX {
                    r is Ok && r->Ok_0@.header.height == l + 1 && r->Ok_0@.header.prev_hash == old(
                        self,
                    ).storage.height_model()[vstd::bytes::spec_u64_to_le_bytes(l)]
                } else {
                    r is Err
                },
    {
        let prev_hash: crate::types::Hash;
        let new_height: u64;
        if self.storage.height_entry_count() == 0 {
            prev_hash = crate::types::make_zero_hash();
            new_height = 1;
        } else {
            let latest_height = match self.storage.get_latest_height() {
                Ok(h) => h,
                Err(_) => {
                    return Err(Error::DB(String::from_str("Cannot read latest height")));
                },
            };
            if latest_height == u64::MAX {
                proof {
                    crate::storage::lemma_latest_witness(
                        self.storage.height_model(),
                        latest_height,
                    );
                }
                return Err(Error::Validation(String::from_str("Height overflow")));
            }
            proof {
                self.storage.lemma_wf_key_shapes();
                assert(self.storage.height_model().dom().contains(
                    vstd::bytes::spec_u64_to_le_bytes(latest_height),
                ));
            }
            prev_hash = match self.storage.get_block_hash_by_height(latest_height) {
                Ok(h) => h,
                Err(_) => {
                    proof {
                        assert(false);
                    }
                    return Err(Error::DB(String::from_str("Cannot read latest block hash")));
                },
            };
            new_height = latest_height + 1;
            proof {
                assert(prev_hash@ == self.storage.height_model()[vstd::bytes::spec_u64_to_le_bytes(
                    latest_height,
                )]);
                crate::storage::lemma_latest_witness(self.storage.height_model(), latest_height);
            }
        }
        let txs = self.pool.select_transactions(self.config.max_txs_per_block, &self.state);
        crate::block::Block::new(prev_hash, new_height, txs, validator)
    }

    /// Create a signed transfer from a key pair against the current state:
    /// a version-1 transaction at the sender's current nonce with no
    /// payload, whose signature covers the canonical preimage.
    pub fn create_transaction(
        &mut self,
        keypair: &crate::crypto::KeyPair,
        recipient: crate::types::PublicKeyBytes,
        amount: u64,
        fee: u64,
    ) -> (r: Result<crate::transaction::Transaction, Error>)
        requires
            old(self).wf(),
        ensures
            final(self).wf(),
            r is Ok,
            r->Ok_0@.version == 1,
            r->Ok_0@.sender == keypair.public_key@,
            r->Ok_0@.recipient == recipient@,
            r->Ok_0@.amount == amount,
            r->Ok_0@.fee == fee,
            r->Ok_0@.nonce == crate::state::model_acct(
                crate::state::state_model(old(self).state),
                keypair.public_key@,
            ).nonce,
            r->Ok_0@.data.len() == 0,
            r->Ok_0@.signature == crate::crypto::ed25519_sign_of(
                keypair.private_key@,
                crate::transaction::signing_preimage(r->Ok_0@),
            ),
            crate::crypto::ed25519_verify_of(
                crate::crypto::ed25519_pubkey_of(keypair.private_key@),
                r->Ok_0@.signature,
                crate::transaction::signing_preimage(r->Ok_0@),
            ),
    {
        let sender_state = self.state.get_account_state(&keypair.public_key);
        let mut tx = crate::transaction::Transaction::new(
            keypair.public_key,
            recipient,
            amount,
            fee,
            sender_state.nonce,
            Vec::new(),
        );
        match tx.sign(&keypair.private_key) {
            Ok(_) => Ok(tx),
            Err(e) => Err(e),
        }
    }
}

/// Renders a byte slice as a lowercase hex string.
pub fn hex_fmt(bytes: &[u8]) -> (r: String)
    ensures
        r@ == hex_chars_of(bytes@),
{
    hex_of_bytes(bytes)
}

} // verus!
