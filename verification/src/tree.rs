//! The account tree: a fixed-depth sparse Merkle accumulator mapping
//! account index to balances, nonce and public-key hash.
//!
//! The meaning of every mutation is given once, at the spec level, by
//! `apply_op`; the executable tree is proved to implement exactly that
//! function, so two replays of the same operation sequence always agree.

use vstd::prelude::*;
use crate::hash::{mix, pow2, merkle_root, merkle_root_exec, mix_exec, lemma_tree_capacity,
    TREE_DEPTH};
use crate::ops::{RollupOp, ApplyError};

verus! {

/// Seed of the balance-vector hash chain.
pub const BALANCES_SEED: u64 = 0x243f_6a88_85a3_08d3;

/// The tree's leaf capacity.
pub open spec fn tree_capacity() -> nat {
    pow2(TREE_DEPTH as nat)
}

/// Mathematical value of one account.
#[verifier::ext_equal]
pub struct AccountView {
    /// Balance per token id; ids at or past the end hold zero.
    pub balances: Seq<u64>,
    /// Monotonic operation counter.
    pub nonce: u32,
    /// Digest of the account's public key.
    pub pub_key_hash: u64,
    /// Digest of the layer-1 address the account was created for.
    pub address: u64,
}

/// The freshly created account: all balances zero, nonce zero, no key.
pub open spec fn empty_account() -> AccountView {
    AccountView { balances: Seq::empty(), nonce: 0, pub_key_hash: 0, address: 0 }
}

/// The account's balance of `token` (zero when the vector is shorter).
pub open spec fn balance_of(a: AccountView, token: u16) -> u64 {
    if (token as int) < a.balances.len() {
        a.balances[token as int]
    } else {
        0
    }
}

/// The account with its balance of `token` set to `value`; the balance
/// vector grows with zeros as needed.
pub open spec fn with_balance(a: AccountView, token: u16, value: u64) -> AccountView {
    AccountView {
        balances: Seq::new(
            if a.balances.len() > token as int + 1 {
                a.balances.len()
            } else {
                (token + 1) as nat
            },
            |i: int|
                if i == token as int {
                    value
                } else if i < a.balances.len() {
                    a.balances[i]
                } else {
                    0
                },
        ),
        nonce: a.nonce,
        pub_key_hash: a.pub_key_hash,
        address: a.address,
    }
}

/// Credits `amount` of `token` to the account at `idx`.
pub open spec fn credit(s: Seq<AccountView>, idx: u32, token: u16, amount: u64) -> Result<
    Seq<AccountView>,
    ApplyError,
>
    recommends
        (idx as int) < s.len(),
{
    let b = balance_of(s[idx as int], token);
    if b + amount > u64::MAX {
        Err(ApplyError::BalanceOverflow)
    } else {
        Ok(s.update(idx as int, with_balance(s[idx as int], token, (b + amount) as u64)))
    }
}

/// The account with `nonce` bumped by one.
pub open spec fn with_bumped_nonce(a: AccountView) -> AccountView
    recommends
        a.nonce < u32::MAX,
{
    AccountView {
        balances: a.balances,
        nonce: (a.nonce + 1) as u32,
        pub_key_hash: a.pub_key_hash,
        address: a.address,
    }
}

/// What one operation does to the sequence of accounts, or the exact
/// error it fails with. This is the single source of truth for replay.
pub open spec fn apply_op(s: Seq<AccountView>, op: RollupOp) -> Result<
    Seq<AccountView>,
    ApplyError,
> {
    match op {
        RollupOp::NoOp => Ok(s),
        RollupOp::Deposit { account, token, amount } => {
            if account as int > s.len() {
                Err(ApplyError::IndexGap)
            } else if account as int == s.len() && s.len() >= tree_capacity() {
                Err(ApplyError::CapacityExceeded)
            } else {
                let s1 = if account as int == s.len() {
                    s.push(empty_account())
                } else {
                    s
                };
                credit(s1, account, token, amount)
            }
        },
        RollupOp::Transfer { from, to, token, amount, nonce } => {
            if from as int >= s.len() {
                Err(ApplyError::MissingAccount)
            } else if to as int > s.len() {
                Err(ApplyError::IndexGap)
            } else if to as int == s.len() && s.len() >= tree_capacity() {
                Err(ApplyError::CapacityExceeded)
            } else {
                let s1 = if to as int == s.len() {
                    s.push(empty_account())
                } else {
                    s
                };
                let sender = s1[from as int];
                if sender.nonce != nonce {
                    Err(ApplyError::StaleNonce)
                } else if sender.nonce == u32::MAX {
                    Err(ApplyError::NonceOverflow)
                } else if balance_of(sender, token) < amount {
                    Err(ApplyError::InsufficientBalance)
                } else {
                    let debited = with_bumped_nonce(
                        with_balance(sender, token, (balance_of(sender, token) - amount) as u64),
                    );
                    credit(s1.update(from as int, debited), to, token, amount)
                }
            }
        },
        RollupOp::Withdraw { account, token, amount, nonce } => {
            if account as int >= s.len() {
                Err(ApplyError::MissingAccount)
            } else {
                let a = s[account as int];
                if a.nonce != nonce {
                    Err(ApplyError::StaleNonce)
                } else if a.nonce == u32::MAX {
                    Err(ApplyError::NonceOverflow)
                } else if balance_of(a, token) < amount {
                    Err(ApplyError::InsufficientBalance)
                } else {
                    Ok(
                        s.update(
                            account as int,
                            with_bumped_nonce(
                                with_balance(a, token, (balance_of(a, token) - amount) as u64),
                            ),
                        ),
                    )
                }
            }
        },
        RollupOp::FullExit { account, token } => {
            if account as int > s.len() {
                Err(ApplyError::IndexGap)
            } else if account as int == s.len() && s.len() >= tree_capacity() {
                Err(ApplyError::CapacityExceeded)
            } else {
                let s1 = if account as int == s.len() {
                    s.push(empty_account())
                } else {
                    s
                };
                Ok(s1.update(account as int, with_balance(s1[account as int], token, 0)))
            }
        },
        RollupOp::ChangePubKey { account, new_pub_key_hash } => {
            if account as int >= s.len() {
                Err(ApplyError::MissingAccount)
            } else {
                let a = s[account as int];
                if a.nonce == u32::MAX {
                    Err(ApplyError::NonceOverflow)
                } else {
                    Ok(
                        s.update(
                            account as int,
                            AccountView {
                                balances: a.balances,
                                nonce: (a.nonce + 1) as u32,
                                pub_key_hash: new_pub_key_hash,
                                address: a.address,
                            },
                        ),
                    )
                }
            }
        },
        RollupOp::CreateAccount { account, address } => {
            if (account as int) < s.len() {
                Err(ApplyError::AccountExists)
            } else if account as int > s.len() {
                Err(ApplyError::IndexGap)
            } else if s.len() >= tree_capacity() {
                Err(ApplyError::CapacityExceeded)
            } else {
                Ok(s.push(AccountView { balances: Seq::empty(), nonce: 0, pub_key_hash: 0, address }))
            }
        },
    }
}

/// Applies a whole ordered operation sequence; the first failure wins.
pub open spec fn apply_ops(s: Seq<AccountView>, ops: Seq<RollupOp>) -> Result<
    Seq<AccountView>,
    ApplyError,
>
    decreases ops.len(),
{
    if ops.len() == 0 {
        Ok(s)
    } else {
        match apply_op(s, ops[0]) {
            Ok(s1) => apply_ops(s1, ops.skip(1)),
            Err(e) => Err(e),
        }
    }
}

/// The tree never outgrows its fixed depth.
pub open spec fn tree_wf(s: Seq<AccountView>) -> bool {
    s.len() <= tree_capacity()
}

/// A successful operation grows the tree by at most one account and
/// never past capacity.
pub proof fn lemma_apply_op_wf(s: Seq<AccountView>, op: RollupOp)
    requires
        tree_wf(s),
        apply_op(s, op) is Ok,
    ensures
        tree_wf(apply_op(s, op)->Ok_0),
{
}

/// Nonce monotonicity: a successful operation never lowers the nonce
/// of an account that was already bound, and never unbinds it.
pub proof fn lemma_apply_op_nonce_monotone(s: Seq<AccountView>, op: RollupOp, a: int)
    requires
        0 <= a < s.len(),
        apply_op(s, op) is Ok,
    ensures
        a < apply_op(s, op)->Ok_0.len(),
        apply_op(s, op)->Ok_0[a].nonce >= s[a].nonce,
{
}

/// Balance non-negativity: balances are machine naturals, so in every
/// reachable tree state no account's balance of any token is negative.
pub proof fn lemma_balance_non_negative(s: Seq<AccountView>, a: int, token: u16)
    requires
        0 <= a < s.len(),
    ensures
        balance_of(s[a], token) >= 0,
{
}

/// Hash chain over the balance vector.
pub open spec fn balances_hash(bs: Seq<u64>) -> u64
    decreases bs.len(),
{
    if bs.len() == 0 {
        BALANCES_SEED
    } else {
        mix(balances_hash(bs.drop_last()), bs.last())
    }
}

/// Leaf hash: a pure function of the account's fields.
pub open spec fn account_hash(a: AccountView) -> u64 {
    mix(mix(mix(balances_hash(a.balances), a.nonce as u64), a.pub_key_hash), a.address)
}

/// Leaf hashes of all accounts, in index order.
pub open spec fn leaves_of(s: Seq<AccountView>) -> Seq<u64> {
    Seq::new(s.len(), |i: int| account_hash(s[i]))
}

/// The root of the account tree: a pure function of the accounts.
pub open spec fn tree_root(s: Seq<AccountView>) -> u64 {
    merkle_root(leaves_of(s))
}

/// One account of the executable tree.
pub struct Account {
    /// Balance per token id, indexed by token.
    pub balances: Vec<u64>,
    /// Monotonic operation counter.
    pub nonce: u32,
    /// Digest of the account's public key.
    pub pub_key_hash: u64,
    /// Digest of the layer-1 address the account was created for.
    pub address: u64,
}

impl View for Account {
    type V = AccountView;

    open spec fn view(&self) -> AccountView {
        AccountView {
            balances: self.balances@,
            nonce: self.nonce,
            pub_key_hash: self.pub_key_hash,
            address: self.address,
        }
    }
}

impl Account {
    /// A structurally fresh copy with the same value.
    pub fn duplicate(&self) -> (r: Account)
        ensures
            r@ == self@,
    {
        let mut balances: Vec<u64> = Vec::new();
        let mut i: usize = 0;
        while i < self.balances.len()
            invariant
                i <= self.balances.len(),
                balances@ == self.balances@.take(i as int),
            decreases self.balances.len() - i,
        {
            balances.push(self.balances[i]);
            assert(balances@ =~= self.balances@.take(i + 1));
            i = i + 1;
        }
        assert(balances@ =~= self.balances@);
        Account { balances, nonce: self.nonce, pub_key_hash: self.pub_key_hash, address: self.address }
    }

    /// Computes the account's leaf hash.
    pub fn leaf_hash(&self) -> (r: u64)
        ensures
            r == account_hash(self@),
    {
        let mut h: u64 = BALANCES_SEED;
        let mut i: usize = 0;
        while i < self.balances.len()
            invariant
                i <= self.balances.len(),
                h == balances_hash(self.balances@.take(i as int)),
            decreases self.balances.len() - i,
        {
            h = mix_exec(h, self.balances[i]);
            proof {
                let t = self.balances@.take(i + 1);
                assert(t.drop_last() =~= self.balances@.take(i as int));
                assert(t.last() == self.balances@[i as int]);
            }
            i = i + 1;
        }
        assert(self.balances@.take(self.balances@.len() as int) =~= self.balances@);
        let h2 = mix_exec(h, self.nonce as u64);
        let h3 = mix_exec(h2, self.pub_key_hash);
        mix_exec(h3, self.address)
    }
}

/// The executable account tree.
pub struct AccountTree {
    /// Accounts in index order; the vector position is the index.
    pub accounts: Vec<Account>,
}

impl View for AccountTree {
    type V = Seq<AccountView>;

    open spec fn view(&self) -> Seq<AccountView> {
        Seq::new(self.accounts@.len(), |i: int| self.accounts@[i]@)
    }
}

impl AccountTree {
    /// The empty tree.
    pub fn new() -> (t: AccountTree)
        ensures
            t@ =~= Seq::<AccountView>::empty(),
    {
        AccountTree { accounts: Vec::new() }
    }

    /// Number of accounts bound so far.
    pub fn account_count(&self) -> (n: usize)
        ensures
            n == self@.len(),
    {
        self.accounts.len()
    }

    /// The balance of `token` at `account`; zero for an unbound index.
    pub fn balance(&self, account: u32, token: u16) -> (b: u64)
        ensures
            b == if (account as int) < self@.len() {
                balance_of(self@[account as int], token)
            } else {
                0u64
            },
    {
        if (account as usize) < self.accounts.len() {
            let a = &self.accounts[account as usize];
            if (token as usize) < a.balances.len() {
                a.balances[token as usize]
            } else {
                0
            }
        } else {
            0
        }
    }

    /// The nonce at `account`; zero for an unbound index.
    pub fn nonce(&self, account: u32) -> (n: u32)
        ensures
            n == if (account as int) < self@.len() {
                self@[account as int].nonce
            } else {
                0u32
            },
    {
        if (account as usize) < self.accounts.len() {
            self.accounts[account as usize].nonce
        } else {
            0
        }
    }

    /// The public-key hash at `account`; zero for an unbound index.
    pub fn pub_key_hash(&self, account: u32) -> (k: u64)
        ensures
            k == if (account as int) < self@.len() {
                self@[account as int].pub_key_hash
            } else {
                0u64
            },
    {
        if (account as usize) < self.accounts.len() {
            self.accounts[account as usize].pub_key_hash
        } else {
            0
        }
    }

    /// Sets the balance of `token` at the bound index `idx`, growing the
    /// balance vector with zeros as needed.
    fn set_balance(&mut self, idx: usize, token: u16, value: u64)
        requires
            idx < old(self)@.len(),
        ensures
            final(self)@ =~= old(self)@.update(
                idx as int,
                with_balance(old(self)@[idx as int], token, value),
            ),
    {
        let ghost old_view = self@;
        let ghost old_acct = self@[idx as int];
        let ghost old_balances = old_acct.balances;
        let a = &mut self.accounts[idx];
        while a.balances.len() <= token as usize
            invariant
                a.balances@.len() <= if old_balances.len() > token as int + 1 {
                    old_balances.len() as int
                } else {
                    token as int + 1
                },
                forall|j: int| 0 <= j < old_balances.len() ==> a.balances@[j] == old_balances[j],
                forall|j: int|
                    old_balances.len() <= j < a.balances@.len() ==> a.balances@[j] == 0u64,
                a.balances@.len() >= old_balances.len(),
                a.nonce == old_acct.nonce,
                a.pub_key_hash == old_acct.pub_key_hash,
                a.address == old_acct.address,
            decreases token as int + 1 - a.balances@.len(),
        {
            a.balances.push(0);
        }
        a.balances[token as usize] = value;
        assert(a@ =~~= with_balance(old_acct, token, value));
        assert(self@ =~~= old_view.update(idx as int, with_balance(old_view[idx as int], token, value)));
    }

    /// Appends the freshly created account at the next free index.
    fn push_empty(&mut self)
        ensures
            final(self)@ =~= old(self)@.push(empty_account()),
    {
        self.accounts.push(
            Account { balances: Vec::new(), nonce: 0, pub_key_hash: 0, address: 0 },
        );
    }

    /// Bumps the nonce of the account at the bound index `idx`.
    fn bump_nonce(&mut self, idx: usize)
        requires
            idx < old(self)@.len(),
            old(self)@[idx as int].nonce < u32::MAX,
        ensures
            final(self)@ =~~= old(self)@.update(
                idx as int,
                with_bumped_nonce(old(self)@[idx as int]),
            ),
    {
        let mut updated = self.accounts[idx].duplicate();
        updated.nonce = updated.nonce + 1;
        self.accounts[idx] = updated;
        assert(self@ =~~= old(self)@.update(idx as int, with_bumped_nonce(old(self)@[idx as int])));
    }

    /// Applies one decoded operation; on failure the tree is unchanged
    /// and the error is exactly the one `apply_op` gives.
    pub fn apply(&mut self, op: &RollupOp) -> (r: Result<(), ApplyError>)
        ensures
            match apply_op(old(self)@, *op) {
                Ok(s) => r is Ok && final(self)@ == s,
                Err(e) => r == Err::<(), ApplyError>(e) && final(self)@ == old(self)@,
            },
    {
        proof {
            lemma_tree_capacity();
        }
        match *op {
            RollupOp::NoOp => Ok(()),
            RollupOp::Deposit { account, token, amount } => {
                let len = self.accounts.len();
                if account as usize > len {
                    return Err(ApplyError::IndexGap);
                }
                if account as usize == len {
                    if len >= 0x100_0000 {
                        return Err(ApplyError::CapacityExceeded);
                    }
                    self.push_empty();
                    self.set_balance(account as usize, token, amount);
                    assert(self@ =~~= apply_op(old(self)@, *op)->Ok_0);
                } else {
                    let b = self.balance(account, token);
                    if b > u64::MAX - amount {
                        return Err(ApplyError::BalanceOverflow);
                    }
                    self.set_balance(account as usize, token, b + amount);
                    assert(self@ =~~= apply_op(old(self)@, *op)->Ok_0);
                }
                Ok(())
            },
            RollupOp::Transfer { from, to, token, amount, nonce } => {
                let len = self.accounts.len();
                if from as usize >= len {
                    return Err(ApplyError::MissingAccount);
                }
                if to as usize > len {
                    return Err(ApplyError::IndexGap);
                }
                if to as usize == len && len >= 0x100_0000 {
                    return Err(ApplyError::CapacityExceeded);
                }
                let sender_nonce = self.nonce(from);
                if sender_nonce != nonce {
                    return Err(ApplyError::StaleNonce);
                }
                if sender_nonce == u32::MAX {
                    return Err(ApplyError::NonceOverflow);
                }
                let bal = self.balance(from, token);
                if bal < amount {
                    return Err(ApplyError::InsufficientBalance);
                }
                if (to as usize) < len && to != from {
                    let b_to = self.balance(to, token);
                    if b_to > u64::MAX - amount {
                        return Err(ApplyError::BalanceOverflow);
                    }
                }
                let ghost s0 = self@;
                if to as usize == len {
                    self.push_empty();
                }
                let ghost s1 = self@;
                proof {
                    assert(s1 == if to as int == s0.len() { s0.push(empty_account()) } else { s0 });
                    assert(s1[from as int] == s0[from as int]);
                }
                self.set_balance(from as usize, token, bal - amount);
                proof {
                    assert(balance_of(s1[from as int], token) == bal);
                    assert(self@[from as int] == with_balance(s1[from as int], token,
                        (bal - amount) as u64));
                    assert(self@[from as int].nonce == sender_nonce);
                }
                self.bump_nonce(from as usize);
                let ghost s2 = self@;
                proof {
                    let debited = with_bumped_nonce(
                        with_balance(s1[from as int], token,
                            (balance_of(s1[from as int], token) - amount) as u64),
                    );
                    assert(s2 =~~= s1.update(from as int, debited));
                }
                let b_to_now = self.balance(to, token);
                assert(b_to_now + amount <= u64::MAX);
                self.set_balance(to as usize, token, b_to_now + amount);
                assert(self@ =~~= apply_op(old(self)@, *op)->Ok_0);
                Ok(())
            },
            RollupOp::Withdraw { account, token, amount, nonce } => {
                let len = self.accounts.len();
                if account as usize >= len {
                    return Err(ApplyError::MissingAccount);
                }
                let acct_nonce = self.nonce(account);
                if acct_nonce != nonce {
                    return Err(ApplyError::StaleNonce);
                }
                if acct_nonce == u32::MAX {
                    return Err(ApplyError::NonceOverflow);
                }
                let bal = self.balance(account, token);
                if bal < amount {
                    return Err(ApplyError::InsufficientBalance);
                }
                self.set_balance(account as usize, token, bal - amount);
                proof {
                    assert(self@[account as int].nonce == acct_nonce);
                }
                self.bump_nonce(account as usize);
                assert(self@ =~~= apply_op(old(self)@, *op)->Ok_0);
                Ok(())
            },
            RollupOp::FullExit { account, token } => {
                let len = self.accounts.len();
                if account as usize > len {
                    return Err(ApplyError::IndexGap);
                }
                if account as usize == len {
                    if len >= 0x100_0000 {
                        return Err(ApplyError::CapacityExceeded);
                    }
                    self.push_empty();
                }
                self.set_balance(account as usize, token, 0);
                assert(self@ =~~= apply_op(old(self)@, *op)->Ok_0);
                Ok(())
            },
            RollupOp::ChangePubKey { account, new_pub_key_hash } => {
                let len = self.accounts.len();
                if account as usize >= len {
                    return Err(ApplyError::MissingAccount);
                }
                let acct_nonce = self.nonce(account);
                if acct_nonce == u32::MAX {
                    return Err(ApplyError::NonceOverflow);
                }
                let mut updated = self.accounts[account as usize].duplicate();
                updated.pub_key_hash = new_pub_key_hash;
                updated.nonce = updated.nonce + 1;
                self.accounts[account as usize] = updated;
                assert(self@ =~~= apply_op(old(self)@, *op)->Ok_0);
                Ok(())
            },
            RollupOp::CreateAccount { account, address } => {
                let len = self.accounts.len();
                if (account as usize) < len {
                    return Err(ApplyError::AccountExists);
                }
                if account as usize > len {
                    return Err(ApplyError::IndexGap);
                }
                if len >= 0x100_0000 {
                    return Err(ApplyError::CapacityExceeded);
                }
                self.accounts.push(Account { balances: Vec::new(), nonce: 0, pub_key_hash: 0, address });
                assert(self@ =~~= apply_op(old(self)@, *op)->Ok_0);
                Ok(())
            },
        }
    }

    /// Recomputes the Merkle root over the current accounts.
    pub fn root(&self) -> (r: u64)
        requires
            tree_wf(self@),
        ensures
            r == tree_root(self@),
    {
        let mut leaves: Vec<u64> = Vec::new();
        let mut i: usize = 0;
        while i < self.accounts.len()
            invariant
                i <= self.accounts.len(),
                leaves@.len() == i,
                forall|j: int| 0 <= j < i ==> leaves@[j] == account_hash(self@[j]),
            decreases self.accounts.len() - i,
        {
            let h = self.accounts[i].leaf_hash();
            leaves.push(h);
            i = i + 1;
        }
        assert(leaves@ =~= leaves_of(self@));
        merkle_root_exec(&leaves)
    }

    /// A structurally fresh tree with the same accounts.
    pub fn snapshot(&self) -> (t: AccountTree)
        ensures
            t@ == self@,
    {
        let mut accounts: Vec<Account> = Vec::new();
        let mut i: usize = 0;
        while i < self.accounts.len()
            invariant
                i <= self.accounts.len(),
                accounts@.len() == i,
                forall|j: int| 0 <= j < i ==> accounts@[j]@ == self@[j],
            decreases self.accounts.len() - i,
        {
            let a = self.accounts[i].duplicate();
            accounts.push(a);
            i = i + 1;
        }
        let t = AccountTree { accounts };
        assert(t@ =~= self@);
        t
    }
}

} // verus!
