//! Account state and state transitions: per-address balance and nonce,
//! transaction application and block application.

use vstd::prelude::*;

verus! {

use crate::types::PublicKeyBytes;
use crate::transaction::{Transaction, TransactionV, clone_bytes};
use crate::Error;

/// Saturating 64-bit addition.
pub open spec fn sat_add_u64(a: u64, b: u64) -> u64 {
    if a + b > u64::MAX {
        u64::MAX
    } else {
        (a + b) as u64
    }
}

/// Saturating 64-bit multiplication.
pub open spec fn sat_mul_u64(a: u64, b: u64) -> u64 {
    if a * b > u64::MAX {
        u64::MAX
    } else {
        (a * b) as u64
    }
}

/// Computes the saturating product of two 64-bit values.
pub fn sat_mul(a: u64, b: u64) -> (r: u64)
    ensures
        r == sat_mul_u64(a, b),
{
    if b != 0 && a > u64::MAX / b {
        proof {
            assert(a >= u64::MAX / b + 1);
            assert(a * b >= (u64::MAX / b + 1) * b) by (nonlinear_arith)
                requires a >= u64::MAX / b + 1, b > 0;
            assert((u64::MAX / b + 1) * b > u64::MAX) by (nonlinear_arith)
                requires b > 0, u64::MAX / b == u64::MAX as int / b as int;
        }
        u64::MAX
    } else {
        proof {
            if b != 0 {
                assert(a * b <= (u64::MAX / b) * b) by (nonlinear_arith)
                    requires a <= u64::MAX / b, b > 0;
                assert((u64::MAX / b) * b <= u64::MAX) by (nonlinear_arith)
                    requires b > 0, u64::MAX / b == u64::MAX as int / b as int;
            } else {
                assert(a * b == 0) by (nonlinear_arith)
                    requires b == 0;
            }
        }
        a * b
    }
}

/// State of one account.
pub struct AccountState {
    /// Account balance.
    pub balance: u64,
    /// Transaction counter, for replay protection.
    pub nonce: u64,
    /// Optional contract code (unused by current consensus).
    pub code: Option<Vec<u8>>,
    /// Account storage (unused by current consensus).
    pub storage: Vec<([u8; 32], Vec<u8>)>,
}

/// The mathematical shape of an account state.
#[verifier::ext_equal]
pub struct AccountStateV {
    pub balance: u64,
    pub nonce: u64,
    pub code: Option<Seq<u8>>,
    pub storage: Seq<(Seq<u8>, Seq<u8>)>,
}

impl View for AccountState {
    type V = AccountStateV;

    open spec fn view(&self) -> AccountStateV {
        AccountStateV {
            balance: self.balance,
            nonce: self.nonce,
            code: match self.code {
                Some(c) => Some(c@),
                None => None,
            },
            storage: self.storage@.map_values(|p: ([u8; 32], Vec<u8>)| (p.0@, p.1@)),
        }
    }
}

/// The state of an absent account: zero balance, zero nonce, nothing else.
pub open spec fn zero_account() -> AccountStateV {
    AccountStateV { balance: 0, nonce: 0, code: None, storage: Seq::empty() }
}

impl Clone for AccountState {
    /// Copies the account state; the copy has the same view.
    fn clone(&self) -> (r: Self)
        ensures
            r@ == self@,
    {
        let code = match &self.code {
            Some(c) => Some(clone_bytes(c)),
            None => None,
        };
        let mut storage: Vec<([u8; 32], Vec<u8>)> = Vec::new();
        let mut i: usize = 0;
        while i < self.storage.len()
            invariant
                i <= self.storage@.len(),
                storage@.len() == i,
                forall|j: int|
                    0 <= j < i ==> #[trigger] storage@[j].0@ == self.storage@[j].0@
                        && storage@[j].1@ == self.storage@[j].1@,
            decreases self.storage@.len() - i,
        {
            let key = self.storage[i].0;
            let val = clone_bytes(&self.storage[i].1);
            storage.push((key, val));
            i = i + 1;
        }
        let r = AccountState { balance: self.balance, nonce: self.nonce, code, storage };
        proof {
            assert(r@.storage =~= self@.storage);
            assert(r@ =~= self@);
        }
        r
    }
}

impl AccountState {
    /// Create a new empty account state.
    pub fn new() -> (r: AccountState)
        ensures
            r@ == zero_account(),
    {
        let r = AccountState { balance: 0, nonce: 0, code: None, storage: Vec::new() };
        proof {
            assert(r@.storage =~= zero_account().storage);
            assert(r@ =~= zero_account());
        }
        r
    }

    /// Create a new account with an initial balance.
    pub fn with_balance(balance: u64) -> (r: AccountState)
        ensures
            r@ == (AccountStateV { balance, ..zero_account() }),
    {
        let r = AccountState { balance, nonce: 0, code: None, storage: Vec::new() };
        proof {
            assert(r@.storage =~= zero_account().storage);
            assert(r@ =~= AccountStateV { balance, ..zero_account() });
        }
        r
    }
}

/// Global chain state: a mapping from account address to account state.
pub struct BlockchainState {
    accounts: Vec<(PublicKeyBytes, AccountState)>,
}

/// The mapping an account list denotes; an earlier entry shadows a later
/// one with the same address.
pub open spec fn accounts_model(s: Seq<(PublicKeyBytes, AccountState)>) -> Map<
    Seq<u8>,
    AccountStateV,
>
    decreases s.len(),
{
    if s.len() == 0 {
        Map::empty()
    } else {
        accounts_model(s.skip(1)).insert(s[0].0@, s[0].1@)
    }
}

/// The mapping a state denotes.
pub closed spec fn state_model(st: BlockchainState) -> Map<Seq<u8>, AccountStateV> {
    accounts_model(st.accounts@)
}

/// The state of an address under a mapping; absent accounts are the zero state.
pub open spec fn model_acct(m: Map<Seq<u8>, AccountStateV>, a: Seq<u8>) -> AccountStateV {
    if m.dom().contains(a) {
        m[a]
    } else {
        zero_account()
    }
}

/// The mapping after one transaction: the sender must be at the
/// transaction's nonce and able to pay amount plus fee; the total is
/// deducted and the nonce incremented, then the amount is credited to the
/// recipient (saturating).
pub open spec fn apply_tx_model(m: Map<Seq<u8>, AccountStateV>, t: TransactionV) -> Option<
    Map<Seq<u8>, AccountStateV>,
> {
    let s0 = model_acct(m, t.sender);
    let total = sat_add_u64(t.amount, t.fee);
    if t.nonce != s0.nonce {
        None
    } else if s0.balance < total {
        None
    } else {
        let m1 = m.insert(
            t.sender,
            AccountStateV {
                balance: (s0.balance - total) as u64,
                nonce: (s0.nonce + 1) as u64,
                ..s0
            },
        );
        let r0 = model_acct(m1, t.recipient);
        Some(
            m1.insert(t.recipient, AccountStateV { balance: sat_add_u64(r0.balance, t.amount), ..r0 }),
        )
    }
}

/// The mapping after a sequence of transactions, applied in order; a
/// mid-sequence failure fails the whole application.
pub open spec fn apply_txs_model(m: Map<Seq<u8>, AccountStateV>, ts: Seq<TransactionV>) -> Option<
    Map<Seq<u8>, AccountStateV>,
>
    decreases ts.len(),
{
    if ts.len() == 0 {
        Some(m)
    } else {
        match apply_tx_model(m, ts[0]) {
            Some(m1) => apply_txs_model(m1, ts.skip(1)),
            None => None,
        }
    }
}

/// Applying one more transaction to a successfully applied prefix.
proof fn lemma_apply_txs_snoc(m: Map<Seq<u8>, AccountStateV>, ts: Seq<TransactionV>, i: int)
    requires
        0 <= i < ts.len(),
        apply_txs_model(m, ts.take(i)) is Some,
    ensures
        apply_tx_model(apply_txs_model(m, ts.take(i))->Some_0, ts[i]) is Some ==> apply_txs_model(
            m,
            ts.take(i + 1),
        ) == apply_tx_model(apply_txs_model(m, ts.take(i))->Some_0, ts[i]),
        apply_tx_model(apply_txs_model(m, ts.take(i))->Some_0, ts[i]) is None ==> apply_txs_model(
            m,
            ts.take(i + 1),
        ) is None,
    decreases i,
{
    if i == 0 {
        assert(ts.take(0) =~= Seq::<TransactionV>::empty());
        assert(ts.take(1) =~= seq![ts[0]]);
        assert(ts.take(1).skip(1) =~= Seq::<TransactionV>::empty());
        assert(apply_txs_model(m, ts.take(0)) == Some(m));
        assert(ts.take(1)[0] == ts[0]);
        if apply_tx_model(m, ts[0]) is Some {
            let m2 = apply_tx_model(m, ts[0])->Some_0;
            assert(apply_txs_model(m2, ts.take(1).skip(1)) == Some(m2));
            assert(apply_txs_model(m, ts.take(1)) == Some(m2));
        } else {
            assert(apply_txs_model(m, ts.take(1)) is None);
        }
    } else {
        assert(ts.take(i)[0] == ts[0]);
        assert(ts.take(i + 1)[0] == ts[0]);
        assert(ts.take(i).skip(1) =~= ts.skip(1).take(i - 1));
        assert(ts.take(i + 1).skip(1) =~= ts.skip(1).take(i));
        assert(ts.skip(1)[i - 1] == ts[i]);
        if apply_tx_model(m, ts[0]) is Some {
            let m1 = apply_tx_model(m, ts[0])->Some_0;
            assert(apply_txs_model(m, ts.take(i)) == apply_txs_model(
                m1,
                ts.skip(1).take(i - 1),
            ));
            assert(apply_txs_model(m, ts.take(i + 1)) == apply_txs_model(m1, ts.skip(1).take(i)));
            lemma_apply_txs_snoc(m1, ts.skip(1), i - 1);
            assert(apply_txs_model(m1, ts.skip(1).take(i - 1))->Some_0 == apply_txs_model(
                m,
                ts.take(i),
            )->Some_0);
        } else {
            assert(apply_txs_model(m, ts.take(i)) is None);
        }
    }
}

/// Skipping a prefix that does not hold an address leaves its lookup alone.
proof fn lemma_model_skip(s: Seq<(PublicKeyBytes, AccountState)>, i: int, a: Seq<u8>)
    requires
        0 <= i <= s.len(),
        forall|j: int| 0 <= j < i ==> s[j].0@ != a,
    ensures
        model_acct(accounts_model(s), a) == model_acct(accounts_model(s.skip(i)), a),
        accounts_model(s).dom().contains(a) == accounts_model(s.skip(i)).dom().contains(a),
    decreases i,
{
    if i > 0 {
        assert(forall|j: int| 0 <= j < i - 1 ==> #[trigger] s.skip(1)[j] == s[j + 1]);
        lemma_model_skip(s.skip(1), i - 1, a);
        assert(s.skip(1).skip(i - 1) =~= s.skip(i));
        assert(s[0].0@ != a);
        assert(accounts_model(s) == accounts_model(s.skip(1)).insert(s[0].0@, s[0].1@));
    } else {
        assert(s.skip(0) =~= s);
    }
}

/// Replacing the first entry for an address updates the mapping at that
/// address alone.
proof fn lemma_model_update(
    s: Seq<(PublicKeyBytes, AccountState)>,
    i: int,
    pair: (PublicKeyBytes, AccountState),
)
    requires
        0 <= i < s.len(),
        s[i].0@ == pair.0@,
        forall|j: int| 0 <= j < i ==> s[j].0@ != pair.0@,
    ensures
        accounts_model(s.update(i, pair)) == accounts_model(s).insert(pair.0@, pair.1@),
    decreases i,
{
    let su = s.update(i, pair);
    if i == 0 {
        assert(su.skip(1) =~= s.skip(1));
        assert(accounts_model(su) == accounts_model(s.skip(1)).insert(pair.0@, pair.1@));
        assert(accounts_model(s.skip(1)).insert(s[0].0@, s[0].1@).insert(pair.0@, pair.1@)
            =~= accounts_model(s.skip(1)).insert(pair.0@, pair.1@));
    } else {
        lemma_model_update(s.skip(1), i - 1, pair);
        assert(su.skip(1) =~= s.skip(1).update(i - 1, pair));
        assert(su[0] == s[0]);
        assert(accounts_model(su) == accounts_model(s.skip(1)).insert(pair.0@, pair.1@).insert(
            s[0].0@,
            s[0].1@,
        ));
        assert(s[0].0@ != pair.0@);
        assert(accounts_model(s.skip(1)).insert(pair.0@, pair.1@).insert(s[0].0@, s[0].1@)
            =~= accounts_model(s.skip(1)).insert(s[0].0@, s[0].1@).insert(pair.0@, pair.1@));
    }
}

/// Appending an entry for an absent address updates the mapping at that
/// address alone.
proof fn lemma_model_push(s: Seq<(PublicKeyBytes, AccountState)>, pair: (PublicKeyBytes, AccountState))
    requires
        forall|j: int| 0 <= j < s.len() ==> s[j].0@ != pair.0@,
    ensures
        accounts_model(s.push(pair)) == accounts_model(s).insert(pair.0@, pair.1@),
    decreases s.len(),
{
    if s.len() == 0 {
        assert(s.push(pair).skip(1) =~= Seq::<(PublicKeyBytes, AccountState)>::empty());
        assert(s.push(pair)[0] == pair);
        assert(s =~= Seq::<(PublicKeyBytes, AccountState)>::empty());
    } else {
        lemma_model_push(s.skip(1), pair);
        assert(s.push(pair).skip(1) =~= s.skip(1).push(pair));
        assert(s.push(pair)[0] == s[0]);
        assert(accounts_model(s.push(pair)) == accounts_model(s.skip(1)).insert(
            pair.0@,
            pair.1@,
        ).insert(s[0].0@, s[0].1@));
        assert(s[0].0@ != pair.0@);
        assert(accounts_model(s.skip(1)).insert(pair.0@, pair.1@).insert(s[0].0@, s[0].1@)
            =~= accounts_model(s.skip(1)).insert(s[0].0@, s[0].1@).insert(pair.0@, pair.1@));
    }
}

impl Clone for BlockchainState {
    /// Copies the state; the copy denotes the same mapping.
    fn clone(&self) -> (r: Self)
        ensures
            state_model(r) == state_model(*self),
    {
        let mut accounts: Vec<(PublicKeyBytes, AccountState)> = Vec::new();
        let mut i: usize = 0;
        while i < self.accounts.len()
            invariant
                i <= self.accounts@.len(),
                accounts@.len() == i,
                forall|j: int|
                    0 <= j < i ==> #[trigger] accounts@[j].0@ == self.accounts@[j].0@
                        && accounts@[j].1@ == self.accounts@[j].1@,
            decreases self.accounts@.len() - i,
        {
            let addr = self.accounts[i].0;
            let st = self.accounts[i].1.clone();
            accounts.push((addr, st));
            i = i + 1;
        }
        let r = BlockchainState { accounts };
        proof {
            lemma_model_congruence(r.accounts@, self.accounts@);
        }
        r
    }
}

/// Two account lists with pointwise equal views denote the same mapping.
proof fn lemma_model_congruence(
    a: Seq<(PublicKeyBytes, AccountState)>,
    b: Seq<(PublicKeyBytes, AccountState)>,
)
    requires
        a.len() == b.len(),
        forall|j: int| 0 <= j < a.len() ==> #[trigger] a[j].0@ == b[j].0@ && a[j].1@ == b[j].1@,
    ensures
        accounts_model(a) == accounts_model(b),
    decreases a.len(),
{
    if a.len() > 0 {
        lemma_model_congruence(a.skip(1), b.skip(1));
        assert(accounts_model(a) =~= accounts_model(b));
    } else {
        assert(accounts_model(a) =~= accounts_model(b));
    }
}

impl BlockchainState {
    /// Create a new empty state: every account is at the zero state.
    pub fn new() -> (r: BlockchainState)
        ensures
            state_model(r) == Map::<Seq<u8>, AccountStateV>::empty(),
    {
        BlockchainState { accounts: Vec::new() }
    }

    /// Read the state of an account; an absent account reads as the zero state.
    pub fn get_account_state(&self, address: &PublicKeyBytes) -> (r: AccountState)
        ensures
            r@ == model_acct(state_model(*self), address@),
    {
        let mut i: usize = 0;
        while i < self.accounts.len()
            invariant
                i <= self.accounts@.len(),
                forall|j: int| 0 <= j < i ==> self.accounts@[j].0@ != address@,
            decreases self.accounts@.len() - i,
        {
            if crate::types::hash_eq(&self.accounts[i].0, address) {
                let found = self.accounts[i].1.clone();
                proof {
                    lemma_model_skip(self.accounts@, i as int, address@);
                    assert(self.accounts@.skip(i as int)[0] == self.accounts@[i as int]);
                    assert(accounts_model(self.accounts@.skip(i as int)) == accounts_model(
                        self.accounts@.skip(i as int).skip(1),
                    ).insert(address@, self.accounts@[i as int].1@));
                }
                return found;
            }
            i = i + 1;
        }
        proof {
            lemma_model_skip(self.accounts@, self.accounts@.len() as int, address@);
            assert(self.accounts@.skip(self.accounts@.len() as int) =~= Seq::<(
                PublicKeyBytes,
                AccountState,
            )>::empty());
        }
        AccountState::new()
    }

    /// Write the state of an account.
    pub fn set_account_state(&mut self, address: &PublicKeyBytes, st: AccountState)
        ensures
            state_model(*final(self)) == state_model(*old(self)).insert(address@, st@),
    {
        let mut i: usize = 0;
        while i < self.accounts.len()
            invariant
                i <= self.accounts@.len(),
                self.accounts@ == old(self).accounts@,
                forall|j: int| 0 <= j < i ==> self.accounts@[j].0@ != address@,
            decreases self.accounts@.len() - i,
        {
            if crate::types::hash_eq(&self.accounts[i].0, address) {
                self.accounts.remove(i);
                self.accounts.insert(i, (*address, st));
                proof {
                    assert(self.accounts@ =~= old(self).accounts@.update(
                        i as int,
                        (*address, st),
                    ));
                    lemma_model_update(old(self).accounts@, i as int, (*address, st));
                }
                return ;
            }
            i = i + 1;
        }
        self.accounts.push((*address, st));
        proof {
            lemma_model_push(old(self).accounts@, (*address, st));
        }
    }

    /// Apply a transaction to the state. Fails, leaving the state
    /// unchanged, exactly when the nonce does not match the sender's or
    /// the sender cannot pay amount plus fee (saturating); on success the
    /// mapping moves as one transaction application.
    pub fn apply_transaction(&mut self, tx: &Transaction) -> (r: Result<(), Error>)
        requires
            tx@.nonce < u64::MAX,
        ensures
            r is Ok <==> apply_tx_model(state_model(*old(self)), tx@) is Some,
            r is Ok ==> state_model(*final(self)) == apply_tx_model(
                state_model(*old(self)),
                tx@,
            )->Some_0,
            r is Err ==> state_model(*final(self)) == state_model(*old(self)) && r->Err_0
                is Validation,
    {
        let sender_account = self.get_account_state(&tx.sender);
        if tx.nonce != sender_account.nonce {
            return Err(Error::Validation(String::from_str("Invalid nonce")));
        }
        let total_deduction = tx.amount.saturating_add(tx.fee);
        if sender_account.balance < total_deduction {
            return Err(Error::Validation(String::from_str("Insufficient balance")));
        }
        let new_sender = AccountState {
            balance: sender_account.balance - total_deduction,
            nonce: sender_account.nonce + 1,
            code: sender_account.code,
            storage: sender_account.storage,
        };
        self.set_account_state(&tx.sender, new_sender);
        let recipient_account = self.get_account_state(&tx.recipient);
        let new_recipient = AccountState {
            balance: recipient_account.balance.saturating_add(tx.amount),
            nonce: recipient_account.nonce,
            code: recipient_account.code,
            storage: recipient_account.storage,
        };
        self.set_account_state(&tx.recipient, new_recipient);
        Ok(())
    }

    /// Apply a block's transactions in order. A mid-block failure keeps
    /// the effects of the earlier transactions (no rollback); callers
    /// validate before applying.
    pub fn apply_block(&mut self, block: &crate::block::Block) -> (r: Result<(), Error>)
        requires
            forall|i: int|
                0 <= i < block@.transactions.len() ==> #[trigger] block@.transactions[i].nonce
                    < u64::MAX,
        ensures
            r is Ok <==> apply_txs_model(state_model(*old(self)), block@.transactions) is Some,
            r is Ok ==> state_model(*final(self)) == apply_txs_model(
                state_model(*old(self)),
                block@.transactions,
            )->Some_0,
            r is Err ==> r->Err_0 is Validation,
            r is Err ==> exists|i: int|
                {
                    &&& 0 <= i < block@.transactions.len()
                    &&& #[trigger] apply_txs_model(
                        state_model(*old(self)),
                        block@.transactions.take(i),
                    ) is Some
                    &&& state_model(*final(self)) == apply_txs_model(
                        state_model(*old(self)),
                        block@.transactions.take(i),
                    )->Some_0
                    &&& apply_tx_model(
                        state_model(*final(self)),
                        block@.transactions[i],
                    ) is None
                },
    {
        let ghost m0 = state_model(*self);
        proof {
            assert(block@.transactions.skip(0) =~= block@.transactions);
            assert(block@.transactions.take(0) =~= Seq::<TransactionV>::empty());
        }
        let mut i: usize = 0;
        while i < block.transactions.len()
            invariant
                i <= block@.transactions.len(),
                m0 == state_model(*old(self)),
                forall|k: int|
                    0 <= k < block@.transactions.len() ==> #[trigger] block@.transactions[k].nonce
                        < u64::MAX,
                apply_txs_model(m0, block@.transactions) == apply_txs_model(
                    state_model(*self),
                    block@.transactions.skip(i as int),
                ),
                apply_txs_model(m0, block@.transactions.take(i as int)) == Some(
                    state_model(*self),
                ),
            decreases block@.transactions.len() - i,
        {
            let ghost pre = state_model(*self);
            let r = self.apply_transaction(&block.transactions[i]);
            proof {
                assert(block@.transactions.skip(i as int)[0] == block@.transactions[i as int]);
                assert(block@.transactions.skip(i as int).skip(1) =~= block@.transactions.skip(
                    i as int + 1,
                ));
            }
            proof {
                lemma_apply_txs_snoc(m0, block@.transactions, i as int);
            }
            match r {
                Ok(_) => {},
                Err(e) => {
                    proof {
                        assert(apply_tx_model(pre, block@.transactions[i as int]) is None);
                        assert(apply_txs_model(m0, block@.transactions.take(i as int)) is Some);
                        assert(state_model(*self) == apply_txs_model(
                            m0,
                            block@.transactions.take(i as int),
                        )->Some_0);
                        assert(apply_tx_model(
                            state_model(*self),
                            block@.transactions[i as int],
                        ) is None);
                    }
                    return Err(e);
                },
            }
            i = i + 1;
        }
        proof {
            assert(block@.transactions.skip(block@.transactions.len() as int) =~= Seq::<
                TransactionV,
            >::empty());
        }
        Ok(())
    }

    /// Create a genesis state from initial account balances; a later entry
    /// for the same address overrides an earlier one.
    pub fn genesis_state(initial_balances: Vec<(PublicKeyBytes, u64)>) -> (r: BlockchainState)
        ensures
            state_model(r) == genesis_model(initial_balances@),
    {
        let mut state = BlockchainState::new();
        let mut i: usize = 0;
        while i < initial_balances.len()
            invariant
                i <= initial_balances@.len(),
                state_model(state) == genesis_model(initial_balances@.take(i as int)),
            decreases initial_balances@.len() - i,
        {
            let addr = initial_balances[i].0;
            let bal = initial_balances[i].1;
            state.set_account_state(&addr, AccountState::with_balance(bal));
            proof {
                lemma_genesis_snoc(initial_balances@, i as int);
            }
            i = i + 1;
        }
        proof {
            assert(initial_balances@.take(initial_balances@.len() as int) =~= initial_balances@);
        }
        state
    }
}

/// The mapping a list of initial balances denotes, inserted in order.
pub open spec fn genesis_model(bs: Seq<(PublicKeyBytes, u64)>) -> Map<Seq<u8>, AccountStateV>
    decreases bs.len(),
{
    if bs.len() == 0 {
        Map::empty()
    } else {
        genesis_model(bs.take(bs.len() - 1)).insert(
            bs[bs.len() - 1].0@,
            AccountStateV { balance: bs[bs.len() - 1].1, ..zero_account() },
        )
    }
}

proof fn lemma_genesis_snoc(bs: Seq<(PublicKeyBytes, u64)>, i: int)
    requires
        0 <= i < bs.len(),
    ensures
        genesis_model(bs.take(i + 1)) == genesis_model(bs.take(i)).insert(
            bs[i].0@,
            AccountStateV { balance: bs[i].1, ..zero_account() },
        ),
{
    assert(bs.take(i + 1).take(i) =~= bs.take(i));
    assert(bs.take(i + 1)[i] == bs[i]);
}

} // verus!
