//! A higher-level interface for block operations over the ledger store.

use vstd::prelude::*;

verus! {

use crate::storage::{
    BlockchainStorage,
    Error,
    spec_chain_ok,
    is_latest_height,
    is_range_result,
    count_ts_in_range,
    ts_of_key,
    is_first_at_or_after,
    is_last_before,
    no_usable_after,
    within_probe_window,
    chosen_entry_result,
};
use crate::block::Block;
use crate::codec::dec_block;
use vstd::bytes::{spec_u64_to_le_bytes, spec_u64_from_le_bytes};

/// A specialized store for block operations.
pub struct BlockStore<'a> {
    storage: &'a BlockchainStorage,
}

impl<'a> BlockStore<'a> {
    /// The underlying storage.
    pub closed spec fn spec_storage(&self) -> &'a BlockchainStorage {
        self.storage
    }

    /// Create a new block store over a storage handle.
    pub fn new(storage: &'a BlockchainStorage) -> (r: BlockStore<'a>)
        ensures
            r.spec_storage() == storage,
    {
        BlockStore { storage }
    }

    /// Read a block by its hash.
    pub fn get_block(&self, hash: &crate::types::Hash) -> (r: Result<Option<Block>, Error>)
        requires
            self.spec_storage().wf(),
        ensures
            !self.spec_storage().blocks_model().dom().contains(hash@) ==> r is Ok && r->Ok_0
                is None,
            self.spec_storage().blocks_model().dom().contains(hash@) && dec_block(
                self.spec_storage().blocks_model()[hash@],
            ) is Some ==> r is Ok && r->Ok_0 is Some && r->Ok_0->Some_0@ == dec_block(
                self.spec_storage().blocks_model()[hash@],
            )->Some_0,
    {
        self.storage.get_block(hash)
    }

    /// Read a block by its height.
    pub fn get_block_by_height(&self, height: u64) -> (r: Result<Option<Block>, Error>)
        requires
            self.spec_storage().wf(),
        ensures
            !self.spec_storage().height_model().dom().contains(spec_u64_to_le_bytes(height)) ==> r
                is Ok && r->Ok_0 is None,
    {
        self.storage.get_block_by_height(height)
    }

    /// Read the block hash at a height.
    pub fn get_block_hash_by_height(&self, height: u64) -> (r: Result<crate::types::Hash, Error>)
        requires
            self.spec_storage().wf(),
        ensures
            self.spec_storage().height_model().dom().contains(spec_u64_to_le_bytes(height))
                && self.spec_storage().height_model()[spec_u64_to_le_bytes(height)].len() == 32
                ==> r is Ok && r->Ok_0@ == self.spec_storage().height_model()[spec_u64_to_le_bytes(
                height,
            )],
    {
        self.storage.get_block_hash_by_height(height)
    }

    /// The latest block height, read numerically; zero when the store is
    /// empty.
    pub fn get_latest_height(&self) -> (r: Result<u64, Error>)
        requires
            self.spec_storage().wf(),
        ensures
            r is Ok,
            self.spec_storage().height_count() == 0 ==> r->Ok_0 == 0,
            self.spec_storage().height_count() > 0 ==> is_latest_height(
                self.spec_storage().height_model(),
                r->Ok_0,
            ),
    {
        self.storage.get_latest_height()
    }

    /// The latest block; nothing when the store holds no block above
    /// height zero. The result decodes from the record the latest height
    /// entry points at.
    pub fn get_latest_block(&self) -> (r: Result<Option<Block>, Error>)
        requires
            self.spec_storage().wf(),
        ensures
            self.spec_storage().height_count() == 0 ==> r is Ok && r->Ok_0 is None,
            self.spec_storage().height_count() > 0 ==> forall|l: u64|
                #[trigger] is_latest_height(self.spec_storage().height_model(), l) ==> {
                    let hm = self.spec_storage().height_model();
                    let bm = self.spec_storage().blocks_model();
                    &&& (l == 0 ==> r is Ok && r->Ok_0 is None)
                    &&& (l > 0 && bm.dom().contains(hm[spec_u64_to_le_bytes(l)]) && dec_block(
                        bm[hm[spec_u64_to_le_bytes(l)]],
                    ) is Some ==> r is Ok && r->Ok_0 is Some && r->Ok_0->Some_0@ == dec_block(
                        bm[hm[spec_u64_to_le_bytes(l)]],
                    )->Some_0)
                },
    {
        let latest_height = match self.storage.get_latest_height() {
            Ok(h) => h,
            Err(e) => {
                return Err(e);
            },
        };
        if latest_height == 0 {
            proof {
                if self.spec_storage().height_count() > 0 {
                    crate::storage::lemma_latest_witness(
                        self.spec_storage().height_model(),
                        latest_height,
                    );
                }
            }
            return Ok(None);
        }
        proof {
            self.storage.lemma_wf_key_shapes();
            crate::storage::lemma_latest_witness(
                self.spec_storage().height_model(),
                latest_height,
            );
        }
        self.storage.get_block_by_height(latest_height)
    }

    /// Whether a block with the given hash is stored.
    pub fn block_exists(&self, hash: &crate::types::Hash) -> (r: Result<bool, Error>)
        requires
            self.spec_storage().wf(),
        ensures
            !self.spec_storage().blocks_model().dom().contains(hash@) ==> r is Ok && r->Ok_0
                == false,
            self.spec_storage().blocks_model().dom().contains(hash@) && dec_block(
                self.spec_storage().blocks_model()[hash@],
            ) is Some ==> r is Ok && r->Ok_0 == true,
    {
        match self.storage.get_block(hash) {
            Ok(Some(_)) => Ok(true),
            Ok(None) => Ok(false),
            Err(e) => Err(e),
        }
    }

    /// The blocks at consecutive heights from `start_height` through
    /// `end_height`, stopping early at the first absent height: the block
    /// at position `p` decodes from the record stored at height
    /// `start_height + p`.
    pub fn get_blocks_in_range(&self, start_height: u64, end_height: u64) -> (r: Result<
        Vec<Block>,
        Error,
    >)
        requires
            self.spec_storage().wf(),
        ensures
            r is Ok ==> r->Ok_0@.len() <= end_height - start_height + 1,
            end_height < start_height ==> r is Err,
            r is Ok ==> forall|p: int|
                0 <= p < r->Ok_0@.len() ==> {
                    let hm = self.spec_storage().height_model();
                    let bm = self.spec_storage().blocks_model();
                    let key = #[trigger] spec_u64_to_le_bytes((start_height + p) as u64);
                    &&& hm.dom().contains(key)
                    &&& bm.dom().contains(hm[key])
                    &&& dec_block(bm[hm[key]]) == Some(r->Ok_0@[p]@)
                },
    {
        if end_height < start_height {
            return Err(Error::Other(String::from_str("Invalid height range")));
        }
        let mut blocks: Vec<Block> = Vec::new();
        let mut height = start_height;
        loop
            invariant
                start_height <= end_height,
                start_height <= height,
                height <= end_height + 1,
                blocks@.len() == height - start_height,
                self.spec_storage().wf(),
                forall|p: int|
                    0 <= p < blocks@.len() ==> {
                        let hm = self.spec_storage().height_model();
                        let bm = self.spec_storage().blocks_model();
                        let key = #[trigger] spec_u64_to_le_bytes((start_height + p) as u64);
                        &&& hm.dom().contains(key)
                        &&& bm.dom().contains(hm[key])
                        &&& dec_block(bm[hm[key]]) == Some(blocks@[p]@)
                    },
            decreases end_height + 1 - height,
        {
            if height > end_height {
                return Ok(blocks);
            }
            match self.storage.get_block_by_height(height) {
                Ok(Some(block)) => {
                    blocks.push(block);
                },
                Ok(None) => {
                    return Ok(blocks);
                },
                Err(e) => {
                    return Err(e);
                },
            }
            if height == u64::MAX {
                return Ok(blocks);
            }
            height = height + 1;
        }
    }

    /// Walk the chain and report whether every height links to the one
    /// below it, as the underlying store does.
    pub fn verify_chain_integrity(&self) -> (r: Result<bool, Error>)
        requires
            self.spec_storage().wf(),
        ensures
            self.spec_storage().height_count() == 0 ==> r is Ok && r->Ok_0 == true,
            self.spec_storage().height_count() > 0 ==> forall|h: u64|
                #[trigger] is_latest_height(self.spec_storage().height_model(), h) ==> ((r is Ok
                    && r->Ok_0 == true) <==> spec_chain_ok(
                    self.spec_storage().height_model(),
                    self.spec_storage().blocks_model(),
                    h as int,
                )),
    {
        self.storage.verify_integrity()
    }

    /// The blocks stored with a timestamp in the inclusive range, ordered
    /// by timestamp, height-secondary, ascending, up to `limit`.
    pub fn get_blocks_by_time_range(&self, start_time: u64, end_time: u64, limit: usize) -> (r:
        Result<Vec<Block>, Error>)
        requires
            self.spec_storage().wf(),
        ensures
            r is Ok ==> r->Ok_0@.len() <= limit,
            r is Ok ==> is_range_result(
                self.spec_storage().ts_model(),
                self.spec_storage().blocks_model(),
                start_time,
                end_time,
                r->Ok_0@.map_values(|b: Block| b@),
            ),
            (forall|k: Seq<u8>|
                #[trigger] self.spec_storage().ts_model().dom().contains(k) && start_time
                    <= ts_of_key(k) <= end_time ==> self.spec_storage().blocks_model().dom().contains(
                    self.spec_storage().ts_model()[k],
                ) && dec_block(
                    self.spec_storage().blocks_model()[self.spec_storage().ts_model()[k]],
                ) is Some) ==> r is Ok && (r->Ok_0@.len() == limit || r->Ok_0@.len()
                == count_ts_in_range(self.spec_storage().ts_entries(), start_time, end_time)),
    {
        self.storage.get_blocks_by_time_range(start_time, end_time, limit)
    }

    /// How many blocks were stored with a timestamp in the inclusive range.
    pub fn count_blocks_by_time_range(&self, start_time: u64, end_time: u64) -> (r: Result<
        usize,
        Error,
    >)
        requires
            self.spec_storage().wf(),
        ensures
            r is Ok,
            r->Ok_0 as int == count_ts_in_range(
                self.spec_storage().ts_entries(),
                start_time,
                end_time,
            ),
    {
        self.storage.count_blocks_by_time_range(start_time, end_time)
    }

    /// Find the block stored nearest a timestamp: the first index entry at
    /// or after it within one second, else the nearest entry before it.
    pub fn find_block_by_timestamp(&self, timestamp: u64) -> (r: Result<Option<Block>, Error>)
        requires
            self.spec_storage().wf(),
        ensures
            self.spec_storage().ts_entries().len() == 0 ==> r is Ok && r->Ok_0 is None,
            forall|k: Seq<u8>|
                #[trigger] is_first_at_or_after(self.spec_storage().ts_model(), timestamp, k)
                    && within_probe_window(ts_of_key(k), timestamp) ==> chosen_entry_result(
                    self.spec_storage().ts_model(),
                    self.spec_storage().blocks_model(),
                    k,
                    r,
                ),
            no_usable_after(self.spec_storage().ts_model(), timestamp) ==> forall|k: Seq<u8>|
                #[trigger] is_last_before(self.spec_storage().ts_model(), timestamp, k)
                    ==> chosen_entry_result(
                    self.spec_storage().ts_model(),
                    self.spec_storage().blocks_model(),
                    k,
                    r,
                ),
    {
        self.storage.find_block_by_timestamp(timestamp)
    }
}

} // verus!
