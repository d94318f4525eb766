//! Bookkeeping of confirmed contract events and the scan-window policy.
//!
//! The scanner never asks for a window that reaches inside the
//! confirmation offset of the chain head, and the confirmed commit
//! records always form a gap-free run of rollup block numbers.

use vstd::prelude::*;

verus! {

/// The contract event kinds that matter to replay.
#[derive(Clone, Copy, Debug, PartialEq, Eq, Structural)]
pub enum EventKind {
    /// A rollup block was committed with its operation payload.
    Committed,
    /// A previously committed rollup block was proven.
    Verified,
    /// Committed rollup blocks from some number on were reverted.
    Reverted,
}

/// Why a record could not be accepted into the confirmed set.
#[derive(Clone, Copy, Debug, PartialEq, Eq, Structural)]
pub enum EventsError {
    /// The record is not a commit record.
    NotCommitted,
    /// The record's rollup block number does not continue the run.
    SequenceGap,
}

/// Mathematical value of one block record.
#[verifier::ext_equal]
pub struct BlockRecordView {
    /// Layer-1 height of the event.
    pub eth_height: u64,
    /// What the event announces.
    pub kind: EventKind,
    /// Rollup (layer-2) block number.
    pub l2_block: u32,
    /// Raw operation payload of a committed block.
    pub payload: Seq<u8>,
    /// Root hash claimed by the event, when the event carries one.
    pub claimed_root: Option<u64>,
}

/// One decoded contract event pertaining to one rollup block.
pub struct BlockRecord {
    /// Layer-1 height of the event.
    pub eth_height: u64,
    /// What the event announces.
    pub kind: EventKind,
    /// Rollup (layer-2) block number.
    pub l2_block: u32,
    /// Raw operation payload of a committed block.
    pub payload: Vec<u8>,
    /// Root hash claimed by the event, when the event carries one.
    pub claimed_root: Option<u64>,
}

impl View for BlockRecord {
    type V = BlockRecordView;

    open spec fn view(&self) -> BlockRecordView {
        BlockRecordView {
            eth_height: self.eth_height,
            kind: self.kind,
            l2_block: self.l2_block,
            payload: self.payload@,
            claimed_root: self.claimed_root,
        }
    }
}

impl BlockRecord {
    /// A structurally fresh copy with the same value.
    pub fn duplicate(&self) -> (r: BlockRecord)
        ensures
            r@ == self@,
    {
        let mut payload: Vec<u8> = Vec::new();
        let mut i: usize = 0;
        while i < self.payload.len()
            invariant
                i <= self.payload.len(),
                payload@ == self.payload@.take(i as int),
            decreases self.payload.len() - i,
        {
            payload.push(self.payload[i]);
            assert(payload@ =~= self.payload@.take(i + 1));
            i = i + 1;
        }
        assert(payload@ =~= self.payload@);
        let r = BlockRecord {
            eth_height: self.eth_height,
            kind: self.kind,
            l2_block: self.l2_block,
            payload,
            claimed_root: self.claimed_root,
        };
        assert(r@ =~~= self@);
        r
    }
}

/// The confirmed commit records form a gap-free run of rollup block
/// numbers, and nothing but commit records is ever kept.
pub open spec fn records_chained(rs: Seq<BlockRecordView>) -> bool {
    &&& forall|i: int| 0 <= i < rs.len() ==> (#[trigger] rs[i]).kind == EventKind::Committed
    &&& forall|i: int| 0 <= i < rs.len() ==> (#[trigger] rs[i]).l2_block == rs[0].l2_block + i
}

/// How many leading records survive a revert of rollup blocks numbered
/// `l2` and above: records are dropped from the back while they are at
/// or past `l2`.
pub open spec fn keep_count(rs: Seq<BlockRecordView>, l2: u32) -> nat
    decreases rs.len(),
{
    if rs.len() == 0 {
        0
    } else if rs.last().l2_block >= l2 {
        keep_count(rs.drop_last(), l2)
    } else {
        rs.len()
    }
}

/// The next scan window, if any height is both unscanned and confirmed:
/// it starts right after the last scanned height, never reaches inside
/// the confirmation offset of `head`, and is at most `step` wide.
pub open spec fn spec_next_window(last_scanned: u64, head: u64, offset: u64, step: u64) -> Option<
    (u64, u64),
>
    recommends
        step >= 1,
{
    if head < offset {
        None
    } else {
        let horizon = (head - offset) as u64;
        if last_scanned >= horizon {
            None
        } else {
            let width = (horizon - last_scanned) as u64;
            let to = if width > step {
                (last_scanned + step) as u64
            } else {
                horizon
            };
            Some(((last_scanned + 1) as u64, to))
        }
    }
}

/// Computes the next scan window; a `Some` window never reaches inside
/// the confirmation offset of the head, starts right after the last
/// scanned height, and respects the step cap.
pub fn next_window(last_scanned: u64, head: u64, offset: u64, step: u64) -> (r: Option<(u64, u64)>)
    requires
        step >= 1,
    ensures
        r == spec_next_window(last_scanned, head, offset, step),
        match r {
            Some(w) => {
                &&& w.0 == last_scanned + 1
                &&& w.0 <= w.1
                &&& w.1 + offset <= head
                &&& w.1 - w.0 + 1 <= step
                &&& w.1 > last_scanned
            },
            None => head < offset || head - offset <= last_scanned,
        },
{
    if head < offset {
        return None;
    }
    let horizon = head - offset;
    if last_scanned >= horizon {
        return None;
    }
    let width = horizon - last_scanned;
    let to = if width > step {
        last_scanned + step
    } else {
        horizon
    };
    Some((last_scanned + 1, to))
}

/// The confirmed events and the scan progress marker.
pub struct EventsState {
    /// Confirmed commit records, in rollup block order, gap-free.
    pub committed: Vec<BlockRecord>,
    /// Last layer-1 height that was fully scanned.
    pub last_scanned: u64,
    /// Whether the marker came from genesis rather than a checkpoint.
    pub from_genesis: bool,
}

impl EventsState {
    /// The views of all confirmed records, in order.
    pub open spec fn records(&self) -> Seq<BlockRecordView> {
        Seq::new(self.committed@.len(), |i: int| self.committed@[i]@)
    }

    /// Fresh state that starts scanning after `start_height`.
    pub fn new(start_height: u64, from_genesis: bool) -> (s: EventsState)
        ensures
            s.records() =~= Seq::<BlockRecordView>::empty(),
            s.last_scanned == start_height,
            s.from_genesis == from_genesis,
    {
        EventsState { committed: Vec::new(), last_scanned: start_height, from_genesis }
    }

    /// Accepts one commit record that continues the gap-free run; the
    /// exact error says why a record is refused, and a refusal changes
    /// nothing.
    pub fn push_committed(&mut self, rec: &BlockRecord) -> (r: Result<(), EventsError>)
        ensures
            ({
                let rs = old(self).records();
                if rec@.kind != EventKind::Committed {
                    r == Err::<(), EventsError>(EventsError::NotCommitted) && *final(self)
                        == *old(self)
                } else if rs.len() > 0 && rec@.l2_block != rs.last().l2_block + 1 {
                    r == Err::<(), EventsError>(EventsError::SequenceGap) && *final(self) == *old(
                        self,
                    )
                } else {
                    r is Ok && final(self).records() =~= rs.push(rec@) && final(self).last_scanned
                        == old(self).last_scanned && final(self).from_genesis == old(
                        self,
                    ).from_genesis
                }
            }),
    {
        match rec.kind {
            EventKind::Committed => {},
            _ => {
                return Err(EventsError::NotCommitted);
            },
        }
        if self.committed.len() > 0 {
            let last_l2 = self.committed[self.committed.len() - 1].l2_block;
            if last_l2 == u32::MAX || rec.l2_block != last_l2 + 1 {
                return Err(EventsError::SequenceGap);
            }
        }
        let ghost rs = self.records();
        self.committed.push(rec.duplicate());
        assert(self.records() =~= rs.push(rec@));
        Ok(())
    }

    /// Chaining is preserved by an accepted record.
    pub proof fn lemma_push_keeps_chain(rs: Seq<BlockRecordView>, rec: BlockRecordView)
        requires
            records_chained(rs),
            rec.kind == EventKind::Committed,
            rs.len() > 0 ==> rec.l2_block == rs.last().l2_block + 1,
        ensures
            records_chained(rs.push(rec)),
    {
        let rs2 = rs.push(rec);
        assert forall|i: int| 0 <= i < rs2.len() implies (#[trigger] rs2[i]).l2_block == rs2[0].l2_block
            + i by {
            if rs.len() > 0 {
                assert(rs2[0] == rs[0]);
                if i < rs.len() {
                    assert(rs2[i] == rs[i]);
                } else {
                    assert(rs2[i] == rec);
                    assert(rs.last() == rs[rs.len() - 1]);
                }
            }
        }
    }

    /// Advances the scan progress marker; it never moves backward.
    pub fn advance_marker(&mut self, new_last_scanned: u64)
        requires
            new_last_scanned >= old(self).last_scanned,
        ensures
            final(self).last_scanned == new_last_scanned,
            final(self).records() == old(self).records(),
            final(self).from_genesis == old(self).from_genesis,
    {
        self.last_scanned = new_last_scanned;
    }

    /// Drops every confirmed record whose rollup block number is at or
    /// past `l2`; with a chained run this removes exactly the reverted
    /// suffix and keeps everything before it.
    #[verifier::rlimit(100)]
    pub fn revert_from(&mut self, l2: u32) -> (kept: usize)
        requires
            records_chained(old(self).records()),
        ensures
            kept <= old(self).records().len(),
            kept == keep_count(old(self).records(), l2),
            final(self).records() =~= old(self).records().take(kept as int),
            forall|i: int|
                0 <= i < kept ==> (#[trigger] old(self).records()[i]).l2_block < l2,
            forall|i: int|
                kept <= i < old(self).records().len() ==> (#[trigger] old(
                    self,
                ).records()[i]).l2_block >= l2,
            final(self).last_scanned == old(self).last_scanned,
            final(self).from_genesis == old(self).from_genesis,
    {
        let ghost rs = self.records();
        proof {
            assert(rs.take(rs.len() as int) =~= rs);
        }
        while self.committed.len() > 0 && self.committed[self.committed.len() - 1].l2_block >= l2
            invariant
                records_chained(rs),
                self.committed@.len() <= rs.len(),
                self.records() =~= rs.take(self.committed@.len() as int),
                keep_count(rs, l2) == keep_count(rs.take(self.committed@.len() as int), l2),
                forall|i: int|
                    self.committed@.len() <= i < rs.len() ==> (#[trigger] rs[i]).l2_block >= l2,
                self.last_scanned == old(self).last_scanned,
                self.from_genesis == old(self).from_genesis,
            decreases self.committed@.len(),
        {
            proof {
                let n = self.committed@.len() as int;
                assert(self.records()[n - 1] == rs.take(n)[n - 1]);
                assert(rs[n - 1].l2_block >= l2);
                assert(rs.take(n).last() == rs[n - 1]);
                assert(rs.take(n).drop_last() =~= rs.take(n - 1));
            }
            self.committed.pop();
            proof {
                assert(self.records() =~= rs.take(self.committed@.len() as int));
            }
        }
        let kept = self.committed.len();
        proof {
            if kept > 0 {
                let n = kept as int;
                assert(self.records()[n - 1] == rs.take(n)[n - 1]);
                assert(rs[n - 1].l2_block < l2);
                assert(rs.take(n).last() == rs[n - 1]);
                assert(keep_count(rs.take(n), l2) == n);
            } else {
                assert(rs.take(0) =~= Seq::<BlockRecordView>::empty());
            }
            assert forall|i: int| 0 <= i < kept implies (#[trigger] rs[i]).l2_block < l2 by {
                lemma_chained_increasing(rs, i, kept - 1);
            }
        }
        kept
    }
}

/// In a chained run the rollup block numbers strictly increase.
pub proof fn lemma_chained_increasing(rs: Seq<BlockRecordView>, i: int, j: int)
    requires
        records_chained(rs),
        0 <= i <= j < rs.len(),
    ensures
        rs[j].l2_block - rs[i].l2_block == j - i,
{
    assert(rs[i].l2_block == rs[0].l2_block + i);
    assert(rs[j].l2_block == rs[0].l2_block + j);
}

} // verus!
