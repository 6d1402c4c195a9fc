//! A higher-level interface for account state reads over the ledger store.
//! Writes go through the storage handle itself, which the engine requires
//! exclusively.

use vstd::prelude::*;

verus! {

use crate::storage::{BlockchainStorage, Error};
use crate::state::AccountState;
use crate::codec::{dec_account, enc_account, account_shape_ok};
use crate::state::AccountStateV;

/// A specialized read interface for account states.
pub struct StateStore<'a> {
    storage: &'a BlockchainStorage,
}

impl<'a> StateStore<'a> {
    /// The underlying storage.
    pub closed spec fn spec_storage(&self) -> &'a BlockchainStorage {
        self.storage
    }

    /// Create a new state store over a storage handle.
    pub fn new(storage: &'a BlockchainStorage) -> (r: StateStore<'a>)
        ensures
            r.spec_storage() == storage,
    {
        StateStore { storage }
    }

    /// Read the state of an account; an absent account reads as the zero
    /// state.
    pub fn get_account_state(&self, address: &crate::types::PublicKeyBytes) -> (r: Result<
        AccountState,
        Error,
    >)
        requires
            self.spec_storage().wf(),
        ensures
            !self.spec_storage().account_model().dom().contains(address@) ==> r is Ok && r->Ok_0@
                == crate::state::zero_account(),
            self.spec_storage().account_model().dom().contains(address@) && dec_account(
                self.spec_storage().account_model()[address@],
            ) is Some ==> r is Ok && r->Ok_0@ == dec_account(
                self.spec_storage().account_model()[address@],
            )->Some_0,
    {
        match self.storage.get_account_state(address) {
            Ok(Some(state)) => Ok(state),
            Ok(None) => Ok(AccountState::new()),
            Err(e) => Err(e),
        }
    }

    /// Whether the account is present in storage.
    pub fn account_exists(&self, address: &crate::types::PublicKeyBytes) -> (r: Result<bool, Error>)
        requires
            self.spec_storage().wf(),
        ensures
            !self.spec_storage().account_model().dom().contains(address@) ==> r is Ok && r->Ok_0
                == false,
            self.spec_storage().account_model().dom().contains(address@) && dec_account(
                self.spec_storage().account_model()[address@],
            ) is Some ==> r is Ok && r->Ok_0 == true,
    {
        match self.storage.get_account_state(address) {
            Ok(Some(_)) => Ok(true),
            Ok(None) => Ok(false),
            Err(e) => Err(e),
        }
    }
}

/// An account with its balance and nonce raised by the deltas, saturating.
pub open spec fn bumped_account(a: AccountStateV, balance_delta: u64, nonce_delta: u64) -> AccountStateV {
    AccountStateV {
        balance: crate::state::sat_add_u64(a.balance, balance_delta),
        nonce: crate::state::sat_add_u64(a.nonce, nonce_delta),
        ..a
    }
}

impl BlockchainStorage {
    /// Read, transform and write back the state of one account: its
    /// balance and nonce are raised by the deltas, saturating; an absent
    /// account starts from the zero state.
    pub fn update_account_state(
        &mut self,
        address: &crate::types::PublicKeyBytes,
        balance_delta: u64,
        nonce_delta: u64,
    ) -> (r: Result<(), Error>)
        requires
            old(self).wf(),
        ensures
            final(self).wf(),
            !old(self).account_model().dom().contains(address@) ==> r is Ok && final(self).account_model() == old(self).account_model().insert(
                address@,
                enc_account(bumped_account(crate::state::zero_account(), balance_delta, nonce_delta)),
            ),
            old(self).account_model().dom().contains(address@) && dec_account(
                old(self).account_model()[address@],
            ) is Some && account_shape_ok(
                bumped_account(
                    dec_account(old(self).account_model()[address@])->Some_0,
                    balance_delta,
                    nonce_delta,
                ),
            ) ==> r is Ok && final(self).account_model() == old(self).account_model().insert(
                address@,
                enc_account(
                    bumped_account(
                        dec_account(old(self).account_model()[address@])->Some_0,
                        balance_delta,
                        nonce_delta,
                    ),
                ),
            ),
            old(self).account_model().dom().contains(address@) && dec_account(
                old(self).account_model()[address@],
            ) is None ==> r is Err,
            r is Err ==> final(self).account_model() == old(self).account_model(),
    {
        let current = match self.get_account_state(address) {
            Ok(Some(state)) => state,
            Ok(None) => AccountState::new(),
            Err(e) => {
                return Err(e);
            },
        };
        let updated = AccountState {
            balance: current.balance.saturating_add(balance_delta),
            nonce: current.nonce.saturating_add(nonce_delta),
            code: current.code,
            storage: current.storage,
        };
        if !crate::codec::account_fits(&updated) {
            return Err(Error::Serialization(String::from_str("Account state too large")));
        }
        self.store_account_state(address, &updated)
    }

    /// Store several account states, one after the other, in one
    /// exclusive call: the account column gains each encoded state under
    /// its address, a later entry overriding an earlier one.
    pub fn store_account_states(
        &mut self,
        states: Vec<(crate::types::PublicKeyBytes, AccountState)>,
    ) -> (r: Result<(), Error>)
        requires
            old(self).wf(),
            forall|i: int|
                0 <= i < states@.len() ==> crate::codec::account_shape_ok(
                    (#[trigger] states@[i]).1@,
                ),
        ensures
            final(self).wf(),
            r is Ok,
            final(self).account_model() == accounts_batch_model(
                old(self).account_model(),
                states@,
            ),
            final(self).blocks_model() == old(self).blocks_model(),
            final(self).height_model() == old(self).height_model(),
            final(self).tx_model() == old(self).tx_model(),
            final(self).ts_model() == old(self).ts_model(),
            final(self).meta_model() == old(self).meta_model(),
    {
        let ghost am0 = self.account_model();
        let mut i: usize = 0;
        proof {
            assert(states@.skip(0) =~= states@);
        }
        while i < states.len()
            invariant
                i <= states@.len(),
                self.wf(),
                forall|j: int|
                    0 <= j < states@.len() ==> crate::codec::account_shape_ok(
                        (#[trigger] states@[j]).1@,
                    ),
                am0 == old(self).account_model(),
                accounts_batch_model(am0, states@) == accounts_batch_model(
                    self.account_model(),
                    states@.skip(i as int),
                ),
                self.blocks_model() == old(self).blocks_model(),
                self.height_model() == old(self).height_model(),
                self.tx_model() == old(self).tx_model(),
                self.ts_model() == old(self).ts_model(),
                self.meta_model() == old(self).meta_model(),
            decreases states@.len() - i,
        {
            let addr = states[i].0;
            proof {
                assert(states@.skip(i as int)[0] == states@[i as int]);
                assert(states@.skip(i as int).skip(1) =~= states@.skip(i as int + 1));
            }
            match self.store_account_state(&addr, &states[i].1) {
                Ok(_) => {},
                Err(e) => {
                    return Err(e);
                },
            }
            i = i + 1;
        }
        proof {
            assert(states@.skip(states@.len() as int) =~= Seq::<(
                crate::types::PublicKeyBytes,
                AccountState,
            )>::empty());
        }
        Ok(())
    }
}

/// The account column after storing a list of states in order.
pub open spec fn accounts_batch_model(
    m: Map<Seq<u8>, Seq<u8>>,
    states: Seq<(crate::types::PublicKeyBytes, AccountState)>,
) -> Map<Seq<u8>, Seq<u8>>
    decreases states.len(),
{
    if states.len() == 0 {
        m
    } else {
        accounts_batch_model(
            m.insert(states[0].0@, enc_account(states[0].1@)),
            states.skip(1),
        )
    }
}

} // verus!
