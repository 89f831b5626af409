use vstd::prelude::*;

verus! {

/// The latest block an upstream node knows about.
#[derive(Debug, Clone, Copy)]
pub enum ChainHead {
    Confirmed(ConfirmedHead),
    Pending(PendingHead),
}

/// A block that has been confirmed at `height`.
#[derive(Debug, Clone, Copy)]
pub struct ConfirmedHead {
    pub height: u64,
}

/// A pending block that will be confirmed at `height` and already holds
/// `tx_count` transactions.
#[derive(Debug, Clone, Copy)]
pub struct PendingHead {
    pub height: u64,
    pub tx_count: usize,
}

impl ConfirmedHead {
    /// Where this head stands in the order of heads: a confirmed block at
    /// height `h` is worth exactly as much as an empty pending block at `h + 1`.
    pub open spec fn position(self) -> (int, int) {
        (self.height as int + 1, 0)
    }
}

impl PendingHead {
    /// Where this head stands in the order of heads: first its height, then the
    /// number of transactions it already holds.
    pub open spec fn position(self) -> (int, int) {
        (self.height as int, self.tx_count as int)
    }
}

impl ChainHead {
    /// Where this head stands in the order of heads.
    pub open spec fn position(self) -> (int, int) {
        match self {
            ChainHead::Confirmed(c) => c.position(),
            ChainHead::Pending(p) => p.position(),
        }
    }
}

} // verus!
