//! The rollup operations carried inside each committed block's payload.
//!
//! Operations are plain tagged records; their byte layout lives in
//! `codec` and their effect on the account tree in `tree`.

use vstd::prelude::*;

verus! {

/// One rollup operation, decoded from a block's payload. Operations
/// within a block are ordered and the order is significant.
#[derive(Clone, Copy, Debug, PartialEq, Eq, Structural)]
pub enum RollupOp {
    /// Fills space in a block; touches no account.
    NoOp,
    /// Credits `amount` of `token` to `account`, creating the account at
    /// the next free index when it is absent.
    Deposit { account: u32, token: u16, amount: u64 },
    /// Moves `amount` of `token` from `from` to `to` (creating `to` at
    /// the next free index when absent) and bumps the sender's nonce.
    Transfer { from: u32, to: u32, token: u16, amount: u64, nonce: u32 },
    /// Debits `amount` of `token` from `account` and bumps its nonce.
    Withdraw { account: u32, token: u16, amount: u64, nonce: u32 },
    /// Zeroes `account`'s balance of `token`, creating the account at the
    /// next free index when it is absent.
    FullExit { account: u32, token: u16 },
    /// Overwrites `account`'s public-key hash and bumps its nonce.
    ChangePubKey { account: u32, new_pub_key_hash: u64 },
    /// Binds the next free index to an address with zero balances.
    CreateAccount { account: u32, address: u64 },
}

/// Why applying an operation to the account tree failed. Any of these
/// during replay of an already-committed chain is fatal: it means the
/// decoder, ordering or hashing disagrees with the on-chain contract.
#[derive(Clone, Copy, Debug, PartialEq, Eq, Structural)]
pub enum ApplyError {
    /// A debit exceeds the account's balance of that token.
    InsufficientBalance,
    /// The operation's nonce does not match the account's nonce.
    StaleNonce,
    /// The operation targets an index that holds no account.
    MissingAccount,
    /// The operation would create an account past the next free index.
    IndexGap,
    /// A create targets an index that already holds an account.
    AccountExists,
    /// The tree has no free leaf left.
    CapacityExceeded,
    /// A credit would overflow the balance's machine width.
    BalanceOverflow,
    /// A nonce bump would overflow the nonce's machine width.
    NonceOverflow,
}

} // verus!
