//! The data-restore driver: the scan/decode/apply/checkpoint state
//! machine that replays confirmed commit events into the account tree.
//!
//! The driver never talks to the chain or to storage itself: the caller
//! fetches logs and persists checkpoints, and hands the driver plain
//! block records and heights. Every decision the driver makes is a
//! verified function of its state and those inputs, so a replay of the
//! same log always ends in the same tree.

use vstd::prelude::*;
use crate::codec::{decode, decode_payload, DecodeError};
use crate::events::{
    keep_count, next_window, records_chained, spec_next_window,
    BlockRecord, BlockRecordView, EventKind, EventsError, EventsState,
};
use crate::ops::{ApplyError, RollupOp};
use crate::tree::{
    apply_op, apply_ops, lemma_apply_op_wf, tree_root, tree_wf, AccountTree, AccountView,
};

verus! {

/// A fatal replay failure: the decoder, the operation ordering or the
/// hashing scheme disagrees with what the chain published.
#[derive(Clone, Copy, Debug, PartialEq, Eq, Structural)]
pub enum ReplayError {
    /// The block's payload does not decode.
    Decode(DecodeError),
    /// A decoded operation cannot be applied to the tree.
    Apply(ApplyError),
    /// The recomputed root differs from the root the event claims.
    RootMismatch,
}

/// What one committed block does to the account tree: decode its
/// payload, apply the operations in order, and hold the recomputed root
/// against the claimed one when the record carries it.
pub open spec fn replay_block(s: Seq<AccountView>, r: BlockRecordView) -> Result<
    Seq<AccountView>,
    ReplayError,
> {
    match decode_payload(r.payload) {
        Err(e) => Err(ReplayError::Decode(e)),
        Ok(ops) => match apply_ops(s, ops) {
            Err(e) => Err(ReplayError::Apply(e)),
            Ok(s2) => match r.claimed_root {
                Some(root) => if tree_root(s2) == root {
                    Ok(s2)
                } else {
                    Err(ReplayError::RootMismatch)
                },
                None => Ok(s2),
            },
        },
    }
}

/// Replays an ordered run of committed blocks; the first failure wins.
pub open spec fn replay_blocks(s: Seq<AccountView>, rs: Seq<BlockRecordView>) -> Result<
    Seq<AccountView>,
    ReplayError,
>
    decreases rs.len(),
{
    if rs.len() == 0 {
        Ok(s)
    } else {
        match replay_block(s, rs[0]) {
            Ok(m) => replay_blocks(m, rs.skip(1)),
            Err(e) => Err(e),
        }
    }
}

/// Applying one more operation at the end continues the fold.
pub proof fn lemma_apply_ops_snoc(s: Seq<AccountView>, ops: Seq<RollupOp>, op: RollupOp)
    ensures
        apply_ops(s, ops.push(op)) == match apply_ops(s, ops) {
            Ok(m) => apply_op(m, op),
            Err(e) => Err::<Seq<AccountView>, ApplyError>(e),
        },
    decreases ops.len(),
{
    if ops.len() == 0 {
        assert(ops.push(op)[0] == op);
        assert(ops.push(op).skip(1) =~= Seq::<RollupOp>::empty());
        match apply_op(s, op) {
            Ok(m) => {
                assert(apply_ops(m, ops.push(op).skip(1)) == Ok::<Seq<AccountView>, ApplyError>(m));
                assert(apply_ops(s, ops) == Ok::<Seq<AccountView>, ApplyError>(s));
            },
            Err(_) => {},
        }
    } else {
        assert(ops.push(op)[0] == ops[0]);
        assert(ops.push(op).skip(1) =~= ops.skip(1).push(op));
        match apply_op(s, ops[0]) {
            Ok(m) => {
                lemma_apply_ops_snoc(m, ops.skip(1), op);
            },
            Err(_) => {},
        }
    }
}

/// A failure in a prefix decides the whole run.
pub proof fn lemma_apply_ops_prefix_err(s: Seq<AccountView>, ops: Seq<RollupOp>, k: int)
    requires
        0 <= k <= ops.len(),
        apply_ops(s, ops.take(k)) is Err,
    ensures
        apply_ops(s, ops) == apply_ops(s, ops.take(k)),
    decreases k,
{
    assert(k > 0) by {
        if k == 0 {
            assert(ops.take(0) =~= Seq::<RollupOp>::empty());
        }
    }
    assert(ops.take(k)[0] == ops[0]);
    match apply_op(s, ops[0]) {
        Ok(m) => {
            assert(ops.take(k).skip(1) =~= ops.skip(1).take(k - 1));
            lemma_apply_ops_prefix_err(m, ops.skip(1), k - 1);
        },
        Err(_) => {},
    }
}

/// Replaying one more block at the end continues the fold.
pub proof fn lemma_replay_blocks_snoc(
    s: Seq<AccountView>,
    rs: Seq<BlockRecordView>,
    r: BlockRecordView,
)
    ensures
        replay_blocks(s, rs.push(r)) == match replay_blocks(s, rs) {
            Ok(m) => replay_block(m, r),
            Err(e) => Err::<Seq<AccountView>, ReplayError>(e),
        },
    decreases rs.len(),
{
    if rs.len() == 0 {
        assert(rs.push(r)[0] == r);
        assert(rs.push(r).skip(1) =~= Seq::<BlockRecordView>::empty());
        match replay_block(s, r) {
            Ok(m) => {
                assert(replay_blocks(m, rs.push(r).skip(1)) == Ok::<Seq<AccountView>, ReplayError>(
                    m,
                ));
                assert(replay_blocks(s, rs) == Ok::<Seq<AccountView>, ReplayError>(s));
            },
            Err(_) => {},
        }
    } else {
        assert(rs.push(r)[0] == rs[0]);
        assert(rs.push(r).skip(1) =~= rs.skip(1).push(r));
        match replay_block(s, rs[0]) {
            Ok(m) => {
                lemma_replay_blocks_snoc(m, rs.skip(1), r);
            },
            Err(_) => {},
        }
    }
}

/// Idempotent resume: replaying a log split at a checkpoint equals the
/// single unbroken pass over the whole log.
pub proof fn lemma_resume_equals_unbroken(
    s: Seq<AccountView>,
    rs1: Seq<BlockRecordView>,
    rs2: Seq<BlockRecordView>,
)
    ensures
        replay_blocks(s, rs1 + rs2) == match replay_blocks(s, rs1) {
            Ok(m) => replay_blocks(m, rs2),
            Err(e) => Err::<Seq<AccountView>, ReplayError>(e),
        },
    decreases rs1.len(),
{
    if rs1.len() == 0 {
        assert(rs1 + rs2 =~= rs2);
    } else {
        assert((rs1 + rs2)[0] == rs1[0]);
        assert((rs1 + rs2).skip(1) =~= rs1.skip(1) + rs2);
        match replay_block(s, rs1[0]) {
            Ok(m) => {
                lemma_resume_equals_unbroken(m, rs1.skip(1), rs2);
            },
            Err(_) => {},
        }
    }
}

/// Determinism: replaying a record run is a pure function of the start
/// state and the records; two replays of the same log from the same
/// start agree on every account and therefore on the root.
pub proof fn lemma_replay_deterministic(
    s1: Seq<AccountView>,
    s2: Seq<AccountView>,
    rs: Seq<BlockRecordView>,
)
    requires
        s1 == s2,
    ensures
        replay_blocks(s1, rs) == replay_blocks(s2, rs),
{
}

/// A replay that starts inside capacity stays inside capacity.
pub proof fn lemma_replay_blocks_wf(s: Seq<AccountView>, rs: Seq<BlockRecordView>)
    requires
        tree_wf(s),
        replay_blocks(s, rs) is Ok,
    ensures
        tree_wf(replay_blocks(s, rs)->Ok_0),
    decreases rs.len(),
{
    if rs.len() > 0 {
        match replay_block(s, rs[0]) {
            Ok(m) => {
                lemma_replay_block_wf(s, rs[0]);
                lemma_replay_blocks_wf(m, rs.skip(1));
            },
            Err(_) => {},
        }
    }
}

/// One replayed block keeps the tree inside capacity.
pub proof fn lemma_replay_block_wf(s: Seq<AccountView>, r: BlockRecordView)
    requires
        tree_wf(s),
        replay_block(s, r) is Ok,
    ensures
        tree_wf(replay_block(s, r)->Ok_0),
{
    match decode_payload(r.payload) {
        Ok(ops) => {
            lemma_apply_ops_wf(s, ops);
        },
        Err(_) => {},
    }
}

/// A successful operation run keeps the tree inside capacity.
pub proof fn lemma_apply_ops_wf(s: Seq<AccountView>, ops: Seq<RollupOp>)
    requires
        tree_wf(s),
        apply_ops(s, ops) is Ok,
    ensures
        tree_wf(apply_ops(s, ops)->Ok_0),
    decreases ops.len(),
{
    if ops.len() > 0 {
        match apply_op(s, ops[0]) {
            Ok(m) => {
                lemma_apply_op_wf(s, ops[0]);
                lemma_apply_ops_wf(m, ops.skip(1));
            },
            Err(_) => {},
        }
    }
}

/// Replays one block record into the tree. On any failure the tree is
/// untouched and the error is exactly what `replay_block` gives.
pub fn apply_block_record(tree: &mut AccountTree, rec: &BlockRecord) -> (r: Result<
    (),
    ReplayError,
>)
    requires
        tree_wf(old(tree)@),
    ensures
        match replay_block(old(tree)@, rec@) {
            Ok(s) => r is Ok && final(tree)@ == s && tree_wf(s),
            Err(e) => r == Err::<(), ReplayError>(e) && final(tree)@ == old(tree)@,
        },
{
    let ops = match decode(&rec.payload) {
        Ok(v) => v,
        Err(e) => {
            return Err(ReplayError::Decode(e));
        },
    };
    let ghost base = tree@;
    proof {
        assert(base == old(tree)@);
    }
    let mut work = tree.snapshot();
    let mut i: usize = 0;
    proof {
        assert(ops@.take(0) =~= Seq::<RollupOp>::empty());
    }
    while i < ops.len()
        invariant
            i <= ops@.len(),
            apply_ops(base, ops@.take(i as int)) == Ok::<Seq<AccountView>, ApplyError>(work@),
            base == old(tree)@,
            tree@ == old(tree)@,
            tree_wf(base),
            tree_wf(work@),
            decode_payload(rec@.payload) == Ok::<Seq<RollupOp>, DecodeError>(ops@),
        decreases ops@.len() - i,
    {
        let ghost before = work@;
        match work.apply(&ops[i]) {
            Ok(()) => {
                proof {
                    assert(ops@.take(i + 1) =~= ops@.take(i as int).push(ops@[i as int]));
                    lemma_apply_ops_snoc(base, ops@.take(i as int), ops@[i as int]);
                    lemma_apply_op_wf(before, ops@[i as int]);
                }
            },
            Err(e) => {
                proof {
                    assert(ops@.take(i + 1) =~= ops@.take(i as int).push(ops@[i as int]));
                    lemma_apply_ops_snoc(base, ops@.take(i as int), ops@[i as int]);
                    lemma_apply_ops_prefix_err(base, ops@, i + 1);
                    assert(apply_ops(base, ops@) == Err::<Seq<AccountView>, ApplyError>(e));
                }
                return Err(ReplayError::Apply(e));
            },
        }
        i = i + 1;
    }
    proof {
        assert(ops@.take(ops@.len() as int) =~= ops@);
    }
    match rec.claimed_root {
        Some(claimed) => {
            let root = work.root();
            if root != claimed {
                return Err(ReplayError::RootMismatch);
            }
        },
        None => {},
    }
    *tree = work;
    Ok(())
}

/// A failing prefix decides a whole block replay.
pub proof fn lemma_replay_blocks_prefix_err(s: Seq<AccountView>, rs: Seq<BlockRecordView>, k: int)
    requires
        0 <= k <= rs.len(),
        replay_blocks(s, rs.take(k)) is Err,
    ensures
        replay_blocks(s, rs) == replay_blocks(s, rs.take(k)),
    decreases k,
{
    assert(k > 0) by {
        if k == 0 {
            assert(rs.take(0) =~= Seq::<BlockRecordView>::empty());
        }
    }
    assert(rs.take(k)[0] == rs[0]);
    match replay_block(s, rs[0]) {
        Ok(m) => {
            assert(rs.take(k).skip(1) =~= rs.skip(1).take(k - 1));
            lemma_replay_blocks_prefix_err(m, rs.skip(1), k - 1);
        },
        Err(_) => {},
    }
}

/// Process-lifetime configuration, immutable once the driver is built.
#[derive(Clone, Copy, Debug, PartialEq, Eq, Structural)]
pub struct ReplayConfig {
    /// Widest scan window ever requested, in layer-1 blocks.
    pub eth_blocks_step: u64,
    /// Confirmation offset: most-recent layer-1 blocks never scanned.
    pub end_eth_blocks_offset: u64,
    /// Layer-1 height of the contract's deployment transaction.
    pub genesis_eth_block: u64,
}

impl ReplayConfig {
    /// The tuning constants must be positive.
    pub open spec fn wf(&self) -> bool {
        self.eth_blocks_step >= 1 && self.end_eth_blocks_offset >= 1
    }
}

/// The driver's control state.
#[derive(Clone, Copy, Debug, PartialEq, Eq, Structural)]
pub enum RunState {
    /// Built without a starting point; must load a checkpoint first.
    Uninitialized,
    /// Has a starting point, from genesis or from a checkpoint.
    Bootstrapped,
    /// Inside the scan/decode/apply/checkpoint loop.
    Running,
    /// Cleanly stopped on request between windows.
    Stopped,
    /// Halted on a fatal chain inconsistency.
    Failed,
}

/// Why the driver refused to proceed.
#[derive(Clone, Copy, Debug, PartialEq, Eq, Structural)]
pub enum DriverError {
    /// Asked to resume but no prior checkpoint exists.
    NoCheckpoint,
    /// The loaded checkpoint does not replay to its own declared root.
    CorruptCheckpoint,
    /// A commit record does not continue the confirmed run.
    SequenceGap,
    /// A committed block failed to replay.
    Replay(ReplayError),
}

/// What the caller should do next.
#[derive(Clone, Copy, Debug, PartialEq, Eq, Structural)]
pub enum DriverAction {
    /// Fetch the confirmed logs of this inclusive window.
    Scan { from: u64, to: u64 },
    /// No confirmed height is left to scan yet.
    Wait,
    /// A stop was requested; finish the run.
    Finish,
}

/// A durable snapshot: enough to resume exactly where a run left off.
pub struct Checkpoint {
    /// The account tree at the checkpoint.
    pub tree: AccountTree,
    /// All confirmed commit records up to the checkpoint.
    pub records: Vec<BlockRecord>,
    /// Last layer-1 height that was fully scanned.
    pub last_scanned: u64,
    /// Whether the run was bootstrapped from genesis.
    pub from_genesis: bool,
}

impl Checkpoint {
    /// The views of the recorded blocks, in order.
    pub open spec fn record_views(&self) -> Seq<BlockRecordView> {
        Seq::new(self.records@.len(), |i: int| self.records@[i]@)
    }

    /// A checkpoint is sound when its records chain, replay cleanly
    /// from genesis, and reproduce the declared tree's root.
    pub open spec fn valid(&self) -> bool {
        &&& records_chained(self.record_views())
        &&& tree_wf(self.tree@)
        &&& match replay_blocks(Seq::empty(), self.record_views()) {
            Ok(s) => tree_root(s) == tree_root(self.tree@),
            Err(_) => false,
        }
    }
}

/// What one incoming event record does to the confirmed set. A verify
/// event is bookkeeping only; a revert drops the reverted suffix; a
/// commit must continue the run and replay cleanly.
pub open spec fn step_records(rs: Seq<BlockRecordView>, rec: BlockRecordView) -> Result<
    Seq<BlockRecordView>,
    DriverError,
> {
    match rec.kind {
        EventKind::Verified => Ok(rs),
        EventKind::Reverted => Ok(rs.take(keep_count(rs, rec.l2_block) as int)),
        EventKind::Committed => {
            if rs.len() > 0 && rec.l2_block != rs.last().l2_block + 1 {
                Err(DriverError::SequenceGap)
            } else {
                match replay_blocks(Seq::empty(), rs) {
                    Ok(m) => match replay_block(m, rec) {
                        Ok(_) => Ok(rs.push(rec)),
                        Err(e) => Err(DriverError::Replay(e)),
                    },
                    Err(e) => Err(DriverError::Replay(e)),
                }
            }
        },
    }
}

/// Processes a window's records in order: the confirmed set after the
/// longest clean prefix, and the first fatal error if one occurred.
pub open spec fn process_window(rs: Seq<BlockRecordView>, new: Seq<BlockRecordView>) -> (
    Seq<BlockRecordView>,
    Option<DriverError>,
)
    decreases new.len(),
{
    if new.len() == 0 {
        (rs, None)
    } else {
        match step_records(rs, new[0]) {
            Ok(rs2) => process_window(rs2, new.skip(1)),
            Err(e) => (rs, Some(e)),
        }
    }
}

/// Processing one more record at the end continues the fold.
pub proof fn lemma_process_window_snoc(
    rs: Seq<BlockRecordView>,
    new: Seq<BlockRecordView>,
    rec: BlockRecordView,
)
    ensures
        process_window(rs, new.push(rec)) == ({
            let (m, err) = process_window(rs, new);
            match err {
                None => match step_records(m, rec) {
                    Ok(m2) => (m2, None::<DriverError>),
                    Err(e) => (m, Some(e)),
                },
                Some(e) => (m, Some(e)),
            }
        }),
    decreases new.len(),
{
    if new.len() == 0 {
        assert(new.push(rec)[0] == rec);
        assert(new.push(rec).skip(1) =~= Seq::<BlockRecordView>::empty());
        match step_records(rs, rec) {
            Ok(m2) => {
                assert(process_window(m2, new.push(rec).skip(1)) == (m2, None::<DriverError>));
            },
            Err(_) => {},
        }
    } else {
        assert(new.push(rec)[0] == new[0]);
        assert(new.push(rec).skip(1) =~= new.skip(1).push(rec));
        match step_records(rs, new[0]) {
            Ok(rs2) => {
                lemma_process_window_snoc(rs2, new.skip(1), rec);
            },
            Err(_) => {},
        }
    }
}

/// Once a window hits a fatal error, the rest of the window is moot.
pub proof fn lemma_process_window_err_stable(
    rs: Seq<BlockRecordView>,
    new: Seq<BlockRecordView>,
    k: int,
)
    requires
        0 <= k <= new.len(),
        process_window(rs, new.take(k)).1 is Some,
    ensures
        process_window(rs, new) == process_window(rs, new.take(k)),
    decreases k,
{
    assert(k > 0) by {
        if k == 0 {
            assert(new.take(0) =~= Seq::<BlockRecordView>::empty());
        }
    }
    assert(new.take(k)[0] == new[0]);
    match step_records(rs, new[0]) {
        Ok(rs2) => {
            assert(new.take(k).skip(1) =~= new.skip(1).take(k - 1));
            lemma_process_window_err_stable(rs2, new.skip(1), k - 1);
        },
        Err(_) => {},
    }
}

/// The data-restore driver. Its confirmed records always chain, and
/// every kept snapshot is exactly the replay of the corresponding
/// record prefix from the empty genesis tree, so the current tree is
/// always the replay of the whole confirmed log.
pub struct DataRestoreDriver {
    /// Immutable tuning constants.
    pub config: ReplayConfig,
    /// Where the driver stands in its lifecycle.
    pub run_state: RunState,
    /// Confirmed events and the scan progress marker.
    pub events: EventsState,
    /// Tree snapshots: entry `k` is the replay of the first `k`
    /// confirmed records, so entry `0` is the genesis tree and the last
    /// entry is the current tree. Reverts restore an earlier entry.
    pub snapshots: Vec<AccountTree>,
    /// Cooperative stop flag, polled between windows.
    pub stop_requested: bool,
}

impl DataRestoreDriver {
    /// The views of the confirmed records, in order.
    pub open spec fn records(&self) -> Seq<BlockRecordView> {
        self.events.records()
    }

    /// The current account tree's mathematical value.
    pub open spec fn tree_view(&self) -> Seq<AccountView> {
        self.snapshots@[self.snapshots@.len() - 1]@
    }

    /// The driver's invariant: records chain, and snapshot `k` is the
    /// replay of the first `k` records from the empty tree.
    pub open spec fn wf(&self) -> bool {
        &&& self.config.wf()
        &&& records_chained(self.records())
        &&& self.snapshots@.len() == self.records().len() + 1
        &&& forall|k: int|
            0 <= k < self.snapshots@.len() ==> replay_blocks(Seq::empty(), self.records().take(k))
                == Ok::<Seq<AccountView>, ReplayError>((#[trigger] self.snapshots@[k])@)
        &&& forall|k: int|
            0 <= k < self.snapshots@.len() ==> tree_wf((#[trigger] self.snapshots@[k])@)
    }

    /// Under the invariant, the current tree is the replay of the whole
    /// confirmed log.
    pub proof fn lemma_tree_is_replay(&self)
        requires
            self.wf(),
        ensures
            replay_blocks(Seq::empty(), self.records()) == Ok::<Seq<AccountView>, ReplayError>(
                self.tree_view(),
            ),
            tree_wf(self.tree_view()),
    {
        assert(self.records().take(self.records().len() as int) =~= self.records());
        assert(self.snapshots@[self.snapshots@.len() - 1]@ == self.tree_view());
    }

    /// A driver with no starting point: a checkpoint must be loaded
    /// before it can run.
    pub fn new_empty(config: ReplayConfig) -> (d: DataRestoreDriver)
        requires
            config.wf(),
        ensures
            d.wf(),
            d.config == config,
            d.run_state == RunState::Uninitialized,
            d.records() =~= Seq::<BlockRecordView>::empty(),
            d.tree_view() =~= Seq::<AccountView>::empty(),
            !d.stop_requested,
    {
        let mut snapshots: Vec<AccountTree> = Vec::new();
        snapshots.push(AccountTree::new());
        let d = DataRestoreDriver {
            config,
            run_state: RunState::Uninitialized,
            events: EventsState::new(0, false),
            snapshots,
            stop_requested: false,
        };
        proof {
            crate::hash::lemma_tree_capacity();
            assert(d.records().take(0) =~= Seq::<BlockRecordView>::empty());
            assert(d.snapshots@[0]@ =~= Seq::<AccountView>::empty());
        }
        d
    }

    /// Genesis bootstrap: the empty tree and the contract's deployment
    /// height as the first scan anchor. A pure function of the
    /// configuration, never of chain data.
    pub fn new_from_genesis(config: ReplayConfig) -> (d: DataRestoreDriver)
        requires
            config.wf(),
        ensures
            d.wf(),
            d.config == config,
            d.run_state == RunState::Bootstrapped,
            d.records() =~= Seq::<BlockRecordView>::empty(),
            d.tree_view() =~= Seq::<AccountView>::empty(),
            d.events.last_scanned == config.genesis_eth_block,
            d.events.from_genesis,
            !d.stop_requested,
    {
        let mut snapshots: Vec<AccountTree> = Vec::new();
        snapshots.push(AccountTree::new());
        let d = DataRestoreDriver {
            config,
            run_state: RunState::Bootstrapped,
            events: EventsState::new(config.genesis_eth_block, true),
            snapshots,
            stop_requested: false,
        };
        proof {
            crate::hash::lemma_tree_capacity();
            assert(d.records().take(0) =~= Seq::<BlockRecordView>::empty());
            assert(d.snapshots@[0]@ =~= Seq::<AccountView>::empty());
        }
        d
    }

    /// Enters the scan/decode/apply/checkpoint loop.
    pub fn start_state_update(&mut self)
        requires
            old(self).wf(),
            old(self).run_state == RunState::Bootstrapped,
        ensures
            *final(self) == (DataRestoreDriver { run_state: RunState::Running, ..*old(self) }),
            final(self).wf(),
    {
        self.run_state = RunState::Running;
    }

    /// Requests a cooperative stop; idempotent, honoured between
    /// windows.
    pub fn stop_state_update(&mut self)
        ensures
            *final(self) == (DataRestoreDriver { stop_requested: true, ..*old(self) }),
    {
        self.stop_requested = true;
    }

    /// Acknowledges a requested stop between windows.
    pub fn finish_run(&mut self)
        requires
            old(self).run_state == RunState::Running,
            old(self).stop_requested,
        ensures
            *final(self) == (DataRestoreDriver { run_state: RunState::Stopped, ..*old(self) }),
    {
        self.run_state = RunState::Stopped;
    }

    /// Decides the next move from the current state and the reported
    /// chain head: finish on a requested stop, scan the next confirmed
    /// window if one exists, otherwise wait. A scan window never
    /// reaches inside the confirmation offset of the head.
    pub fn next_action(&self, head: u64) -> (a: DriverAction)
        requires
            self.wf(),
        ensures
            a == (if self.stop_requested {
                DriverAction::Finish
            } else {
                match spec_next_window(
                    self.events.last_scanned,
                    head,
                    self.config.end_eth_blocks_offset,
                    self.config.eth_blocks_step,
                ) {
                    Some(w) => DriverAction::Scan { from: w.0, to: w.1 },
                    None => DriverAction::Wait,
                }
            }),
            match a {
                DriverAction::Scan { from, to } => {
                    &&& from == self.events.last_scanned + 1
                    &&& from <= to
                    &&& to + self.config.end_eth_blocks_offset <= head
                    &&& to - from + 1 <= self.config.eth_blocks_step
                },
                _ => true,
            },
    {
        if self.stop_requested {
            return DriverAction::Finish;
        }
        match next_window(
            self.events.last_scanned,
            head,
            self.config.end_eth_blocks_offset,
            self.config.eth_blocks_step,
        ) {
            Some(w) => DriverAction::Scan { from: w.0, to: w.1 },
            None => DriverAction::Wait,
        }
    }
}

impl DataRestoreDriver {
    /// Processes one fully fetched scan window: applies commit records
    /// in order, rolls back on revert events, and advances the progress
    /// marker only when the whole window went through. On a fatal
    /// error the driver keeps the state reached by the clean prefix,
    /// marks itself failed, and reports the exact error.
    pub fn handle_window(&mut self, records: &Vec<BlockRecord>, window_to: u64) -> (r: Result<
        (),
        DriverError,
    >)
        requires
            old(self).wf(),
            old(self).run_state == RunState::Running,
            window_to >= old(self).events.last_scanned,
        ensures
            final(self).wf(),
            final(self).config == old(self).config,
            final(self).stop_requested == old(self).stop_requested,
            final(self).events.from_genesis == old(self).events.from_genesis,
            ({
                let (rs2, err) = process_window(
                    old(self).records(),
                    Seq::new(records@.len(), |i: int| records@[i]@),
                );
                &&& final(self).records() == rs2
                &&& match err {
                    None => r is Ok && final(self).run_state == RunState::Running
                        && final(self).events.last_scanned == window_to,
                    Some(e) => r == Err::<(), DriverError>(e)
                        && final(self).run_state == RunState::Failed
                        && final(self).events.last_scanned == old(self).events.last_scanned,
                }
            }),
    {
        let ghost new_views = Seq::new(records@.len(), |i: int| records@[i]@);
        let ghost rs0 = self.records();
        let mut i: usize = 0;
        proof {
            assert(new_views.take(0) =~= Seq::<BlockRecordView>::empty());
        }
        while i < records.len()
            invariant
                i <= records@.len(),
                new_views == Seq::new(records@.len(), |i2: int| records@[i2]@),
                rs0 == old(self).records(),
                self.wf(),
                self.run_state == RunState::Running,
                self.config == old(self).config,
                self.stop_requested == old(self).stop_requested,
                self.events.last_scanned == old(self).events.last_scanned,
                self.events.from_genesis == old(self).events.from_genesis,
                process_window(rs0, new_views.take(i as int)) == (self.records(), None::<
                    DriverError,
                >),
            decreases records@.len() - i,
        {
            let rec = &records[i];
            let ghost rs = self.records();
            proof {
                assert(rec@ == new_views[i as int]);
                assert(new_views.take(i + 1) =~= new_views.take(i as int).push(rec@));
                lemma_process_window_snoc(rs0, new_views.take(i as int), rec@);
            }
            match rec.kind {
                EventKind::Verified => {
                },
                EventKind::Reverted => {
                    let kept = self.events.revert_from(rec.l2_block);
                    let ghost snaps0 = self.snapshots@;
                    let ghost ev = self.events;
                    proof {
                        assert(snaps0.take(snaps0.len() as int) =~= snaps0);
                    }
                    while self.snapshots.len() > kept + 1
                        invariant
                            kept + 1 <= self.snapshots@.len(),
                            kept + 1 <= snaps0.len(),
                            self.snapshots@.len() <= snaps0.len(),
                            self.snapshots@ =~= snaps0.take(self.snapshots@.len() as int),
                            self.events == ev,
                            self.config == old(self).config,
                            self.run_state == RunState::Running,
                            self.stop_requested == old(self).stop_requested,
                        decreases self.snapshots@.len(),
                    {
                        self.snapshots.pop();
                        proof {
                            assert(self.snapshots@ =~= snaps0.take(self.snapshots@.len() as int));
                        }
                    }
                    proof {
                        let rs2 = rs.take(kept as int);
                        assert(self.records() == rs2);
                        assert forall|j: int| 0 <= j < rs2.len() implies (#[trigger] rs2[j]).kind
                            == EventKind::Committed && rs2[j].l2_block == rs2[0].l2_block + j by {
                            assert(rs2[j] == rs[j]);
                            assert(rs2[0] == rs[0]);
                        }
                        assert forall|k: int| 0 <= k < self.snapshots@.len() implies replay_blocks(
                            Seq::empty(),
                            self.records().take(k),
                        ) == Ok::<Seq<AccountView>, ReplayError>(
                            (#[trigger] self.snapshots@[k])@,
                        ) && tree_wf(self.snapshots@[k]@) by {
                            assert(self.snapshots@[k] == snaps0[k]);
                            assert(rs2.take(k) =~= rs.take(k));
                        }
                    }
                },
                EventKind::Committed => {
                    let n = self.events.committed.len();
                    if n > 0 {
                        let last_l2 = self.events.committed[n - 1].l2_block;
                        if last_l2 == u32::MAX || rec.l2_block != last_l2 + 1 {
                            proof {
                                assert(rs.last() == self.events.committed@[n - 1]@);
                                assert(step_records(rs, rec@) == Err::<
                                    Seq<BlockRecordView>,
                                    DriverError,
                                >(DriverError::SequenceGap));
                                lemma_process_window_err_stable(rs0, new_views, i + 1);
                            }
                            self.run_state = RunState::Failed;
                            return Err(DriverError::SequenceGap);
                        }
                    }
                    let last = self.snapshots.len() - 1;
                    let mut cur = self.snapshots[last].snapshot();
                    proof {
                        self.lemma_tree_is_replay();
                        assert(cur@ == self.tree_view());
                    }
                    match apply_block_record(&mut cur, rec) {
                        Ok(()) => {
                            let pushed = self.events.push_committed(rec);
                            proof {
                                if pushed is Err {
                                    assert(false);
                                }
                            }
                            self.snapshots.push(cur);
                            proof {
                                EventsState::lemma_push_keeps_chain(rs, rec@);
                                let rs2 = rs.push(rec@);
                                assert(self.records() == rs2);
                                lemma_replay_blocks_snoc(Seq::empty(), rs, rec@);
                                assert forall|k: int|
                                    0 <= k < self.snapshots@.len() implies replay_blocks(
                                    Seq::empty(),
                                    self.records().take(k),
                                ) == Ok::<Seq<AccountView>, ReplayError>(
                                    (#[trigger] self.snapshots@[k])@,
                                ) && tree_wf(self.snapshots@[k]@) by {
                                    if k < self.snapshots@.len() - 1 {
                                        assert(rs2.take(k) =~= rs.take(k));
                                    } else {
                                        assert(self.snapshots@[k] == cur);
                                        assert(rs2.take(k) =~= rs2);
                                    }
                                }
                            }
                        },
                        Err(e) => {
                            proof {
                                assert(step_records(rs, rec@) == Err::<
                                    Seq<BlockRecordView>,
                                    DriverError,
                                >(DriverError::Replay(e)));
                                lemma_process_window_err_stable(rs0, new_views, i + 1);
                            }
                            self.run_state = RunState::Failed;
                            return Err(DriverError::Replay(e));
                        },
                    }
                },
            }
            i = i + 1;
        }
        proof {
            assert(new_views.take(records@.len() as int) =~= new_views);
        }
        self.events.advance_marker(window_to);
        Ok(())
    }
}

impl DataRestoreDriver {
    /// Takes the durable snapshot the storage engine persists: the
    /// current tree, the confirmed records and the progress marker,
    /// all structurally fresh. The result is always a valid
    /// checkpoint, so a crash-free save can always be resumed.
    pub fn make_checkpoint(&self) -> (cp: Checkpoint)
        requires
            self.wf(),
        ensures
            cp.record_views() == self.records(),
            cp.last_scanned == self.events.last_scanned,
            cp.from_genesis == self.events.from_genesis,
            cp.tree@ == self.tree_view(),
            cp.valid(),
    {
        let mut records: Vec<BlockRecord> = Vec::new();
        let mut i: usize = 0;
        while i < self.events.committed.len()
            invariant
                i <= self.events.committed@.len(),
                records@.len() == i,
                forall|j: int| 0 <= j < i ==> (#[trigger] records@[j])@ == self.records()[j],
            decreases self.events.committed@.len() - i,
        {
            let r = self.events.committed[i].duplicate();
            records.push(r);
            i = i + 1;
        }
        let last = self.snapshots.len() - 1;
        let tree = self.snapshots[last].snapshot();
        let cp = Checkpoint {
            tree,
            records,
            last_scanned: self.events.last_scanned,
            from_genesis: self.events.from_genesis,
        };
        proof {
            assert(cp.record_views() =~= self.records());
            self.lemma_tree_is_replay();
        }
        cp
    }

    /// Bootstraps from a loaded checkpoint, or reports exactly why it
    /// cannot: no checkpoint at all, or one whose records do not chain
    /// and replay to its own declared root. Resuming from a valid
    /// checkpoint reconstructs the identical confirmed set and tree, so
    /// a restart continues exactly where the checkpointed run stood.
    pub fn load_state_from_storage(&mut self, checkpoint: Option<&Checkpoint>) -> (r: Result<
        (),
        DriverError,
    >)
        requires
            old(self).wf(),
            old(self).run_state == RunState::Uninitialized,
        ensures
            match checkpoint {
                None => r == Err::<(), DriverError>(DriverError::NoCheckpoint) && *final(self)
                    == *old(self),
                Some(cp) => {
                    if cp.valid() {
                        &&& r is Ok
                        &&& final(self).wf()
                        &&& final(self).run_state == RunState::Bootstrapped
                        &&& final(self).records() == cp.record_views()
                        &&& final(self).events.last_scanned == cp.last_scanned
                        &&& final(self).events.from_genesis == cp.from_genesis
                        &&& final(self).config == old(self).config
                        &&& final(self).stop_requested == old(self).stop_requested
                    } else {
                        r == Err::<(), DriverError>(DriverError::CorruptCheckpoint) && *final(self)
                            == *old(self)
                    }
                },
            },
    {
        let cp = match checkpoint {
            None => {
                return Err(DriverError::NoCheckpoint);
            },
            Some(cp) => cp,
        };
        let ghost rv = cp.record_views();
        let mut events = EventsState::new(cp.last_scanned, cp.from_genesis);
        let mut snapshots: Vec<AccountTree> = Vec::new();
        snapshots.push(AccountTree::new());
        proof {
            crate::hash::lemma_tree_capacity();
            assert(rv.take(0) =~= Seq::<BlockRecordView>::empty());
            assert(snapshots@[0]@ =~= Seq::<AccountView>::empty());
        }
        let mut i: usize = 0;
        while i < cp.records.len()
            invariant
                i <= cp.records@.len(),
                checkpoint == Some(cp),
                *self == *old(self),
                rv == cp.record_views(),
                events.records() == rv.take(i as int),
                records_chained(events.records()),
                events.last_scanned == cp.last_scanned,
                events.from_genesis == cp.from_genesis,
                snapshots@.len() == i + 1,
                forall|k: int|
                    0 <= k < snapshots@.len() ==> replay_blocks(Seq::empty(), rv.take(k)) == Ok::<
                        Seq<AccountView>,
                        ReplayError,
                    >((#[trigger] snapshots@[k])@),
                forall|k: int| 0 <= k < snapshots@.len() ==> tree_wf((#[trigger] snapshots@[k])@),
            decreases cp.records@.len() - i,
        {
            let rec = &cp.records[i];
            let ghost taken = rv.take(i as int);
            proof {
                assert(rec@ == rv[i as int]);
                assert(rv.take(i + 1) =~= taken.push(rec@));
            }
            match events.push_committed(rec) {
                Ok(()) => {
                    proof {
                        EventsState::lemma_push_keeps_chain(taken, rec@);
                    }
                },
                Err(_) => {
                    proof {
                        if records_chained(rv) {
                            assert(rv[i as int].kind == EventKind::Committed);
                            if taken.len() > 0 {
                                assert(taken.last() == rv[i - 1]);
                                assert(rv[i as int].l2_block == rv[0].l2_block + i);
                                assert(rv[i - 1].l2_block == rv[0].l2_block + i - 1);
                            }
                            assert(false);
                        }
                    }
                    return Err(DriverError::CorruptCheckpoint);
                },
            }
            let last = snapshots.len() - 1;
            let mut cur = snapshots[last].snapshot();
            proof {
                assert(taken.take(taken.len() as int) =~= taken);
                assert(replay_blocks(Seq::empty(), taken) == Ok::<Seq<AccountView>, ReplayError>(
                    cur@,
                ));
            }
            match apply_block_record(&mut cur, rec) {
                Ok(()) => {
                    snapshots.push(cur);
                    proof {
                        lemma_replay_blocks_snoc(Seq::empty(), taken, rec@);
                        assert forall|k: int| 0 <= k < snapshots@.len() implies replay_blocks(
                            Seq::empty(),
                            rv.take(k),
                        ) == Ok::<Seq<AccountView>, ReplayError>(
                            (#[trigger] snapshots@[k])@,
                        ) && tree_wf(snapshots@[k]@) by {
                            if k == snapshots@.len() - 1 {
                                assert(snapshots@[k] == cur);
                            }
                        }
                    }
                },
                Err(e) => {
                    proof {
                        lemma_replay_blocks_snoc(Seq::empty(), taken, rec@);
                        lemma_replay_blocks_prefix_err(Seq::empty(), rv, i + 1);
                        assert(replay_blocks(Seq::empty(), rv) is Err);
                        assert(!cp.valid());
                    }
                    return Err(DriverError::CorruptCheckpoint);
                },
            }
            i = i + 1;
        }
        proof {
            assert(rv.take(rv.len() as int) =~= rv);
        }
        if cp.tree.account_count() > 0x100_0000 {
            proof {
                crate::hash::lemma_tree_capacity();
                assert(!tree_wf(cp.tree@));
            }
            return Err(DriverError::CorruptCheckpoint);
        }
        proof {
            crate::hash::lemma_tree_capacity();
        }
        let last = snapshots.len() - 1;
        let rebuilt_root = snapshots[last].root();
        let declared_root = cp.tree.root();
        if rebuilt_root != declared_root {
            return Err(DriverError::CorruptCheckpoint);
        }
        self.events = events;
        self.snapshots = snapshots;
        self.run_state = RunState::Bootstrapped;
        proof {
            assert(self.records() == rv);
            assert(cp.valid());
        }
        Ok(())
    }
}

/// Determinism at the driver level: two drivers that hold the same
/// confirmed log hold the identical account tree, whatever windows and
/// restarts led them there.
pub proof fn lemma_driver_determinism(d1: &DataRestoreDriver, d2: &DataRestoreDriver)
    requires
        d1.wf(),
        d2.wf(),
        d1.records() == d2.records(),
    ensures
        d1.tree_view() == d2.tree_view(),
{
    d1.lemma_tree_is_replay();
    d2.lemma_tree_is_replay();
}

/// Rollback correctness: a log of three committed blocks followed by a
/// revert of the second block's number leaves exactly the first block
/// confirmed, so the driver's tree (the replay of its confirmed log) is
/// the state after applying only the first block.
pub proof fn lemma_rollback_restores_prefix(
    b1: BlockRecordView,
    b2: BlockRecordView,
    b3: BlockRecordView,
    rev: BlockRecordView,
)
    requires
        records_chained(seq![b1, b2, b3]),
        rev.kind == EventKind::Reverted,
        rev.l2_block == b2.l2_block,
    ensures
        step_records(seq![b1, b2, b3], rev) == Ok::<Seq<BlockRecordView>, DriverError>(seq![b1]),
{
    let rs = seq![b1, b2, b3];
    assert(rs[0] == b1);
    assert(rs[1] == b2);
    assert(rs[2] == b3);
    assert(b2.l2_block == b1.l2_block + 1);
    assert(b3.l2_block == b1.l2_block + 2);
    assert(rs.last() == b3);
    assert(rs.drop_last() =~= seq![b1, b2]);
    assert(seq![b1, b2].last() == b2);
    assert(seq![b1, b2].drop_last() =~= seq![b1]);
    assert(seq![b1].last() == b1);
    assert(keep_count(seq![b1], rev.l2_block) == 1);
    assert(keep_count(seq![b1, b2], rev.l2_block) == 1);
    assert(keep_count(rs, rev.l2_block) == 1);
    assert(rs.take(1) =~= seq![b1]);
}

impl DataRestoreDriver {
    /// The current tree's Merkle root.
    pub fn current_root(&self) -> (r: u64)
        requires
            self.wf(),
        ensures
            r == tree_root(self.tree_view()),
    {
        proof {
            self.lemma_tree_is_replay();
        }
        let last = self.snapshots.len() - 1;
        self.snapshots[last].root()
    }

    /// Borrows the current account tree.
    pub fn account_tree(&self) -> (t: &AccountTree)
        requires
            self.wf(),
        ensures
            t@ == self.tree_view(),
    {
        let last = self.snapshots.len() - 1;
        &self.snapshots[last]
    }
}

} // verus!
