//! The decisions of an upstream's tracker: which head a node's answers stand
//! for. The tracker asks the node for the block tagged pending; when that is
//! a pending block, it asks for the pending block's parent to learn the height.
//! The head decided on is then published in the upstream's head slot; nothing
//! is published when a round fails.

use vstd::prelude::*;

use crate::head::{ChainHead, ConfirmedHead, PendingHead};
use crate::head_order::behind;
use crate::shared::HeadSlot;
use crate::store::Upstream;

verus! {

/// What a node returned for a block request, as far as the tracker reads it.
#[derive(Debug, Clone, Copy, PartialEq, Eq, Structural)]
pub enum BlockSummary {
    /// A confirmed block with this number.
    Confirmed { block_number: u64 },
    /// A pending block holding this many transactions.
    Pending { tx_count: usize },
}

/// Why a tracker round found no head.
#[derive(Debug, Clone, Copy, PartialEq, Eq, Structural)]
pub enum TrackerError {
    /// The parent of the pending block was itself reported as pending.
    UnexpectedPendingBlock,
}

impl TrackerError {
    /// The message shown for this error.
    pub fn message(&self) -> (r: &'static str)
        ensures
            r@ == "unexpected pending block"@,
    {
        match self {
            TrackerError::UnexpectedPendingBlock => "unexpected pending block",
        }
    }
}

/// What the tracker does after reading the block tagged pending.
#[derive(Debug, Clone, Copy)]
pub enum TrackerStep {
    /// The node has no pending block: this is the head to publish.
    Publish(ChainHead),
    /// The node has a pending block holding `tx_count` transactions: its
    /// parent must be read to learn its height.
    FetchParent { tx_count: usize },
}

/// The step that the block tagged pending leads to.
pub open spec fn step_for_tip(tip: BlockSummary) -> TrackerStep {
    match tip {
        BlockSummary::Confirmed { block_number } => TrackerStep::Publish(
            ChainHead::Confirmed(ConfirmedHead { height: block_number }),
        ),
        BlockSummary::Pending { tx_count } => TrackerStep::FetchParent { tx_count },
    }
}

/// The head of a pending block holding `tx_count` transactions, given what the
/// node returned for its parent: one above the parent's number, or an error
/// when the parent is reported as pending too.
pub open spec fn head_over_parent(tx_count: usize, parent: BlockSummary) -> Result<ChainHead, TrackerError> {
    match parent {
        BlockSummary::Confirmed { block_number } => Ok(
            ChainHead::Pending(PendingHead { height: (block_number + 1) as u64, tx_count }),
        ),
        BlockSummary::Pending { .. } => Err(TrackerError::UnexpectedPendingBlock),
    }
}

/// Whether the parent's number leaves room for the pending block above it.
pub open spec fn parent_in_range(parent: BlockSummary) -> bool {
    match parent {
        BlockSummary::Confirmed { block_number } => block_number < u64::MAX,
        BlockSummary::Pending { .. } => true,
    }
}

/// Follows the chain head of one upstream and publishes it in the upstream's
/// head slot.
pub struct UpstreamTracker {
    head: HeadSlot,
}

impl UpstreamTracker {
    /// The slot this tracker publishes heads into.
    pub closed spec fn slot(&self) -> HeadSlot {
        self.head
    }

    /// A tracker that publishes into `head`.
    pub fn new(head: HeadSlot) -> (r: UpstreamTracker)
        ensures
            r.slot() == head,
    {
        UpstreamTracker { head }
    }

    /// A tracker that publishes into the head slot of `upstream`, the slot
    /// that routing reads for it.
    pub fn for_upstream(upstream: &Upstream) -> (r: UpstreamTracker)
        ensures
            r.slot() == upstream.head,
    {
        UpstreamTracker::new(upstream.head.clone())
    }

    /// Reads the block tagged pending: a confirmed block is the head to
    /// publish; for a pending block, the caller must read its parent.
    pub fn on_tip(&self, tip: BlockSummary) -> (r: TrackerStep)
        ensures
            r == step_for_tip(tip),
    {
        match tip {
            BlockSummary::Confirmed { block_number } => TrackerStep::Publish(
                ChainHead::Confirmed(ConfirmedHead { height: block_number }),
            ),
            BlockSummary::Pending { tx_count } => TrackerStep::FetchParent { tx_count },
        }
    }

    /// Reads the parent of a pending block holding `tx_count` transactions:
    /// the pending head it leads to is the head to publish.
    pub fn on_parent(&self, tx_count: usize, parent: BlockSummary) -> (r: Result<ChainHead, TrackerError>)
        requires
            parent_in_range(parent),
        ensures
            r == head_over_parent(tx_count, parent),
    {
        match parent {
            BlockSummary::Confirmed { block_number } => Ok(
                ChainHead::Pending(PendingHead { height: block_number + 1, tx_count }),
            ),
            BlockSummary::Pending { .. } => Err(TrackerError::UnexpectedPendingBlock),
        }
    }

    /// Publishes `head` in this tracker's slot, for routing to read.
    pub fn publish(&self, head: ChainHead) {
        self.head.store(head)
    }
}

/// Over a confirmed parent numbered `n` (below `u64::MAX`), the pending block
/// always gives a head, whatever its transaction count, none included: a
/// pending head one above the parent, holding exactly those transactions. It is
/// never behind the parent's own confirmed head, and equal to it exactly when
/// the pending block is still empty. Only a pending parent is an error.
pub proof fn lemma_pending_head_over_parent(tx_count: usize, parent: BlockSummary)
    requires
        parent_in_range(parent),
    ensures
        match parent {
            BlockSummary::Confirmed { block_number } => {
                &&& head_over_parent(tx_count, parent) is Ok
                &&& head_over_parent(tx_count, parent)->Ok_0 is Pending
                &&& head_over_parent(tx_count, parent)->Ok_0.position() == (block_number + 1, tx_count as int)
                &&& !behind(
                    head_over_parent(tx_count, parent)->Ok_0,
                    ChainHead::Confirmed(ConfirmedHead { height: block_number }),
                )
                &&& (head_over_parent(tx_count, parent)->Ok_0.position() == ChainHead::Confirmed(
                    ConfirmedHead { height: block_number },
                ).position() <==> tx_count == 0)
            },
            BlockSummary::Pending { .. } => head_over_parent(tx_count, parent) == Err::<ChainHead, TrackerError>(
                TrackerError::UnexpectedPendingBlock,
            ),
        },
{
}

} // verus!
