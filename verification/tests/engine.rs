use data_restore::codec::{decode, encode, DecodeError};
use data_restore::driver::{
    DataRestoreDriver, DriverAction, DriverError, ReplayConfig, ReplayError, RunState,
};
use data_restore::events::{next_window, BlockRecord, EventKind};
use data_restore::ops::{ApplyError, RollupOp};
use data_restore::tree::AccountTree;

fn config() -> ReplayConfig {
    ReplayConfig { eth_blocks_step: 10, end_eth_blocks_offset: 2, genesis_eth_block: 0 }
}

/// Applies `ops` to the running `tree`, then builds the commit record a
/// settlement contract would have published for that block.
fn commit_record(tree: &mut AccountTree, l2: u32, eth: u64, ops: &Vec<RollupOp>) -> BlockRecord {
    for op in ops.iter() {
        tree.apply(op).unwrap();
    }
    BlockRecord {
        eth_height: eth,
        kind: EventKind::Committed,
        l2_block: l2,
        payload: encode(ops),
        claimed_root: Some(tree.root()),
    }
}

fn revert_record(l2: u32, eth: u64) -> BlockRecord {
    BlockRecord {
        eth_height: eth,
        kind: EventKind::Reverted,
        l2_block: l2,
        payload: Vec::new(),
        claimed_root: None,
    }
}

#[test]
fn decode_round_trip_every_variant() {
    let ops = vec![
        RollupOp::NoOp,
        RollupOp::CreateAccount { account: 0, address: 0xdead_beef },
        RollupOp::Deposit { account: 0, token: 3, amount: 1_000_000 },
        RollupOp::Transfer { from: 0, to: 1, token: 3, amount: 40, nonce: 0 },
        RollupOp::Withdraw { account: 0, token: 3, amount: 7, nonce: 1 },
        RollupOp::FullExit { account: 1, token: 3 },
        RollupOp::ChangePubKey { account: 0, new_pub_key_hash: 0x1234_5678_9abc_def0 },
    ];
    let payload = encode(&ops);
    let back = decode(&payload).unwrap();
    assert_eq!(back, ops);
}

#[test]
fn decode_round_trip_extreme_values() {
    let ops = vec![
        RollupOp::Deposit { account: u32::MAX, token: u16::MAX, amount: u64::MAX },
        RollupOp::Transfer { from: u32::MAX, to: 0, token: 0, amount: 0, nonce: u32::MAX },
    ];
    let payload = encode(&ops);
    assert_eq!(decode(&payload).unwrap(), ops);
}

#[test]
fn decode_rejects_unknown_tag() {
    let payload = vec![9u8];
    assert_eq!(decode(&payload), Err(DecodeError::BadTag));
}

#[test]
fn decode_rejects_truncated_payload() {
    // A deposit needs 15 bytes; hand it only the tag and a half field.
    let payload = vec![1u8, 0, 0];
    assert_eq!(decode(&payload), Err(DecodeError::Truncated));
}

#[test]
fn decode_rejects_trailing_bytes() {
    let ops = vec![RollupOp::NoOp];
    let mut payload = encode(&ops);
    payload.push(1);
    assert_eq!(decode(&payload), Err(DecodeError::Truncated));
}

#[test]
fn deposit_then_transfer_scenario() {
    // Genesis tree is empty.
    let mut tree = AccountTree::new();
    assert_eq!(tree.account_count(), 0);
    let empty_root = tree.root();

    // A deposit of 100 to account 0, token 0.
    tree.apply(&RollupOp::Deposit { account: 0, token: 0, amount: 100 }).unwrap();
    assert_eq!(tree.balance(0, 0), 100);
    assert_eq!(tree.nonce(0), 0);
    let root_after_deposit = tree.root();
    assert_ne!(root_after_deposit, empty_root);

    // Transfer 40 from account 0 (nonce 0) to the new account 1.
    tree.apply(&RollupOp::Transfer { from: 0, to: 1, token: 0, amount: 40, nonce: 0 }).unwrap();
    assert_eq!(tree.balance(0, 0), 60);
    assert_eq!(tree.balance(1, 0), 40);
    assert_eq!(tree.nonce(0), 1);

    // Replaying the same two operations from genesis gives the same root.
    let mut replay = AccountTree::new();
    replay.apply(&RollupOp::Deposit { account: 0, token: 0, amount: 100 }).unwrap();
    replay.apply(&RollupOp::Transfer { from: 0, to: 1, token: 0, amount: 40, nonce: 0 }).unwrap();
    assert_eq!(replay.root(), tree.root());

    // And once more: determinism holds on a second independent replay.
    let mut replay2 = AccountTree::new();
    replay2.apply(&RollupOp::Deposit { account: 0, token: 0, amount: 100 }).unwrap();
    replay2.apply(&RollupOp::Transfer { from: 0, to: 1, token: 0, amount: 40, nonce: 0 }).unwrap();
    assert_eq!(replay2.root(), replay.root());
}

#[test]
fn tree_rejects_insufficient_balance() {
    let mut tree = AccountTree::new();
    tree.apply(&RollupOp::Deposit { account: 0, token: 0, amount: 10 }).unwrap();
    let r = tree.apply(&RollupOp::Transfer { from: 0, to: 1, token: 0, amount: 11, nonce: 0 });
    assert_eq!(r, Err(ApplyError::InsufficientBalance));
    // The failed operation left the tree untouched.
    assert_eq!(tree.balance(0, 0), 10);
    assert_eq!(tree.account_count(), 1);
}

#[test]
fn tree_rejects_stale_nonce() {
    let mut tree = AccountTree::new();
    tree.apply(&RollupOp::Deposit { account: 0, token: 0, amount: 10 }).unwrap();
    let r = tree.apply(&RollupOp::Withdraw { account: 0, token: 0, amount: 1, nonce: 5 });
    assert_eq!(r, Err(ApplyError::StaleNonce));
}

#[test]
fn tree_rejects_missing_account_and_index_gap() {
    let mut tree = AccountTree::new();
    assert_eq!(
        tree.apply(&RollupOp::ChangePubKey { account: 0, new_pub_key_hash: 1 }),
        Err(ApplyError::MissingAccount)
    );
    assert_eq!(
        tree.apply(&RollupOp::Deposit { account: 1, token: 0, amount: 1 }),
        Err(ApplyError::IndexGap)
    );
    tree.apply(&RollupOp::CreateAccount { account: 0, address: 7 }).unwrap();
    assert_eq!(
        tree.apply(&RollupOp::CreateAccount { account: 0, address: 8 }),
        Err(ApplyError::AccountExists)
    );
}

#[test]
fn tree_rejects_balance_overflow() {
    let mut tree = AccountTree::new();
    tree.apply(&RollupOp::Deposit { account: 0, token: 0, amount: u64::MAX }).unwrap();
    let r = tree.apply(&RollupOp::Deposit { account: 0, token: 0, amount: 1 });
    assert_eq!(r, Err(ApplyError::BalanceOverflow));
}

#[test]
fn full_exit_and_change_pubkey_semantics() {
    let mut tree = AccountTree::new();
    tree.apply(&RollupOp::Deposit { account: 0, token: 2, amount: 55 }).unwrap();
    tree.apply(&RollupOp::ChangePubKey { account: 0, new_pub_key_hash: 0xabcd }).unwrap();
    assert_eq!(tree.pub_key_hash(0), 0xabcd);
    assert_eq!(tree.nonce(0), 1);
    tree.apply(&RollupOp::FullExit { account: 0, token: 2 }).unwrap();
    assert_eq!(tree.balance(0, 2), 0);
    // FullExit does not touch the nonce.
    assert_eq!(tree.nonce(0), 1);
}

#[test]
fn withdraw_semantics() {
    let mut tree = AccountTree::new();
    tree.apply(&RollupOp::Deposit { account: 0, token: 0, amount: 100 }).unwrap();
    tree.apply(&RollupOp::Withdraw { account: 0, token: 0, amount: 30, nonce: 0 }).unwrap();
    assert_eq!(tree.balance(0, 0), 70);
    assert_eq!(tree.nonce(0), 1);
}

#[test]
fn window_never_enters_confirmation_offset() {
    // head 100, offset 40: nothing past height 60 is ever requested.
    let w = next_window(0, 100, 40, 10).unwrap();
    assert_eq!(w, (1, 10));
    assert!(w.1 + 40 <= 100);
    let w2 = next_window(55, 100, 40, 10).unwrap();
    assert_eq!(w2, (56, 60));
    assert!(w2.1 + 40 <= 100);
    // Fully scanned up to the horizon: no window.
    assert_eq!(next_window(60, 100, 40, 10), None);
    // Head shorter than the offset: no window.
    assert_eq!(next_window(0, 39, 40, 10), None);
}

#[test]
fn driver_replays_a_window() {
    let mut chain = AccountTree::new();
    let ops1 = vec![RollupOp::Deposit { account: 0, token: 0, amount: 100 }];
    let ops2 = vec![RollupOp::Transfer { from: 0, to: 1, token: 0, amount: 40, nonce: 0 }];
    let b1 = commit_record(&mut chain, 1, 3, &ops1);
    let b2 = commit_record(&mut chain, 2, 4, &ops2);

    let mut d = DataRestoreDriver::new_from_genesis(config());
    d.start_state_update();
    d.handle_window(&vec![b1, b2], 5).unwrap();
    assert_eq!(d.events.committed.len(), 2);
    assert_eq!(d.events.last_scanned, 5);
    assert_eq!(d.current_root(), chain.root());
    assert_eq!(d.account_tree().balance(0, 0), 60);
    assert_eq!(d.account_tree().balance(1, 0), 40);
}

#[test]
fn driver_halts_on_root_mismatch() {
    let mut chain = AccountTree::new();
    let ops = vec![RollupOp::Deposit { account: 0, token: 0, amount: 1 }];
    let mut b1 = commit_record(&mut chain, 1, 3, &ops);
    b1.claimed_root = Some(b1.claimed_root.unwrap() ^ 1);

    let mut d = DataRestoreDriver::new_from_genesis(config());
    d.start_state_update();
    let r = d.handle_window(&vec![b1], 5);
    assert_eq!(r, Err(DriverError::Replay(ReplayError::RootMismatch)));
    assert_eq!(d.run_state, RunState::Failed);
    // Nothing was confirmed and the marker did not move.
    assert_eq!(d.events.committed.len(), 0);
    assert_eq!(d.events.last_scanned, 0);
}

#[test]
fn driver_halts_on_sequence_gap() {
    let mut chain = AccountTree::new();
    let ops = vec![RollupOp::Deposit { account: 0, token: 0, amount: 1 }];
    let b1 = commit_record(&mut chain, 1, 3, &ops);
    let ops2 = vec![RollupOp::Deposit { account: 0, token: 0, amount: 1 }];
    let b3 = commit_record(&mut chain, 3, 4, &ops2);

    let mut d = DataRestoreDriver::new_from_genesis(config());
    d.start_state_update();
    let r = d.handle_window(&vec![b1, b3], 5);
    assert_eq!(r, Err(DriverError::SequenceGap));
    assert_eq!(d.run_state, RunState::Failed);
    // The clean prefix survives.
    assert_eq!(d.events.committed.len(), 1);
}

#[test]
fn rollback_restores_state_before_reverted_blocks() {
    let mut chain = AccountTree::new();
    let b1 = commit_record(&mut chain, 1, 3, &vec![RollupOp::Deposit {
        account: 0,
        token: 0,
        amount: 100,
    }]);
    let root_after_b1 = chain.root();
    let b2 = commit_record(&mut chain, 2, 4, &vec![RollupOp::Transfer {
        from: 0,
        to: 1,
        token: 0,
        amount: 40,
        nonce: 0,
    }]);
    let b3 = commit_record(&mut chain, 3, 5, &vec![RollupOp::Withdraw {
        account: 0,
        token: 0,
        amount: 10,
        nonce: 1,
    }]);
    let l2_of_b2 = b2.l2_block;

    let mut d = DataRestoreDriver::new_from_genesis(config());
    d.start_state_update();
    d.handle_window(&vec![b1, b2, b3, revert_record(l2_of_b2, 6)], 7).unwrap();
    assert_eq!(d.events.committed.len(), 1);
    assert_eq!(d.current_root(), root_after_b1);
    assert_eq!(d.account_tree().balance(0, 0), 100);
    assert_eq!(d.account_tree().account_count(), 1);
}

#[test]
fn verified_events_are_bookkeeping_only() {
    let mut chain = AccountTree::new();
    let b1 = commit_record(&mut chain, 1, 3, &vec![RollupOp::Deposit {
        account: 0,
        token: 0,
        amount: 5,
    }]);
    let verify = BlockRecord {
        eth_height: 4,
        kind: EventKind::Verified,
        l2_block: 1,
        payload: Vec::new(),
        claimed_root: None,
    };
    let mut d = DataRestoreDriver::new_from_genesis(config());
    d.start_state_update();
    d.handle_window(&vec![b1, verify], 5).unwrap();
    assert_eq!(d.events.committed.len(), 1);
    assert_eq!(d.current_root(), chain.root());
}

#[test]
fn checkpoint_resume_equals_unbroken_pass() {
    let mut chain = AccountTree::new();
    let b1 = commit_record(&mut chain, 1, 3, &vec![RollupOp::Deposit {
        account: 0,
        token: 0,
        amount: 100,
    }]);
    let b2 = commit_record(&mut chain, 2, 4, &vec![RollupOp::Transfer {
        from: 0,
        to: 1,
        token: 0,
        amount: 40,
        nonce: 0,
    }]);
    let b3 = commit_record(&mut chain, 3, 5, &vec![RollupOp::Withdraw {
        account: 1,
        token: 0,
        amount: 15,
        nonce: 0,
    }]);

    // The unbroken pass.
    let mut whole = DataRestoreDriver::new_from_genesis(config());
    whole.start_state_update();
    whole
        .handle_window(&vec![b1.duplicate(), b2.duplicate(), b3.duplicate()], 6)
        .unwrap();

    // Run, checkpoint, restart, resume.
    let mut first = DataRestoreDriver::new_from_genesis(config());
    first.start_state_update();
    first.handle_window(&vec![b1, b2], 4).unwrap();
    let cp = first.make_checkpoint();

    let mut resumed = DataRestoreDriver::new_empty(config());
    resumed.load_state_from_storage(Some(&cp)).unwrap();
    resumed.start_state_update();
    assert_eq!(resumed.current_root(), first.current_root());
    resumed.handle_window(&vec![b3], 6).unwrap();

    assert_eq!(resumed.current_root(), whole.current_root());
    assert_eq!(resumed.events.committed.len(), whole.events.committed.len());
    assert_eq!(resumed.events.last_scanned, whole.events.last_scanned);
}

#[test]
fn resume_without_checkpoint_is_fatal() {
    let mut d = DataRestoreDriver::new_empty(config());
    assert_eq!(d.load_state_from_storage(None), Err(DriverError::NoCheckpoint));
    assert_eq!(d.run_state, RunState::Uninitialized);
}

#[test]
fn corrupt_checkpoint_is_refused() {
    let mut chain = AccountTree::new();
    let b1 = commit_record(&mut chain, 1, 3, &vec![RollupOp::Deposit {
        account: 0,
        token: 0,
        amount: 100,
    }]);
    let mut d = DataRestoreDriver::new_from_genesis(config());
    d.start_state_update();
    d.handle_window(&vec![b1], 4).unwrap();
    let mut cp = d.make_checkpoint();
    // Tamper with the declared tree: the records no longer replay to it.
    cp.tree.apply(&RollupOp::Deposit { account: 0, token: 0, amount: 1 }).unwrap();

    let mut fresh = DataRestoreDriver::new_empty(config());
    assert_eq!(fresh.load_state_from_storage(Some(&cp)), Err(DriverError::CorruptCheckpoint));
    assert_eq!(fresh.run_state, RunState::Uninitialized);
}

#[test]
fn stop_is_idempotent_and_honoured_between_windows() {
    let mut d = DataRestoreDriver::new_from_genesis(config());
    d.start_state_update();
    assert_eq!(d.next_action(100), DriverAction::Scan { from: 1, to: 10 });
    d.stop_state_update();
    d.stop_state_update();
    assert_eq!(d.next_action(100), DriverAction::Finish);
    d.finish_run();
    assert_eq!(d.run_state, RunState::Stopped);
}

#[test]
fn next_action_waits_when_nothing_is_confirmed() {
    let d = DataRestoreDriver::new_from_genesis(config());
    // head 2, offset 2: the horizon is 0, which is already scanned.
    assert_eq!(d.next_action(2), DriverAction::Wait);
    assert_eq!(d.next_action(1), DriverAction::Wait);
}
