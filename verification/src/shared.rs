//! The shared cells through which the background tasks and the request path
//! exchange state. Each is an `arc_swap::ArcSwap` behind an `Arc`, held in an
//! opaque struct: `ArcSwap`'s default strategy type is private to `arc_swap`,
//! so the type is not named in any contract, and only the trusted methods
//! below touch a cell. Another task may store into a cell at any time, so no
//! method claims anything about what a load returns; a copy of a cell is the
//! same cell.

use arc_swap::ArcSwap;
use std::sync::Arc;
use vstd::prelude::*;

use crate::head::ChainHead;
use crate::store::Upstream;

verus! {

/// The slot in which the tracker of one upstream publishes the latest head it
/// observed, read by the store when it routes a request.
#[verifier::external_body]
pub struct HeadSlot {
    cell: Arc<ArcSwap<Option<ChainHead>>>,
}

impl HeadSlot {
    /// Calls `arc_swap::ArcSwap::from_pointee` with no head, inside a new `Arc`.
    /// Nothing is claimed of the slot.
    #[verifier::external_body]
    pub(crate) fn empty() -> (slot: HeadSlot) {
        HeadSlot { cell: Arc::new(ArcSwap::from_pointee(None)) }
    }

    /// Calls `arc_swap::ArcSwapAny::load` and copies the head out of the guard.
    /// Nothing is claimed of the result: a tracker may have stored any head.
    #[verifier::external_body]
    pub(crate) fn load(&self) -> (head: Option<ChainHead>) {
        **self.cell.load()
    }

    /// Calls `arc_swap::ArcSwapAny::store` with `Some(head)`. Nothing is claimed:
    /// the contents of a shared slot appear in no contract.
    #[verifier::external_body]
    pub(crate) fn store(&self, head: ChainHead) {
        self.cell.store(Arc::new(Some(head)))
    }
}

impl Clone for HeadSlot {
    /// Calls `std::sync::Arc::clone`, which points to the same allocation:
    /// claims that the copy is the same shared slot (the struct holds nothing
    /// but that pointer).
    #[verifier::external_body]
    fn clone(&self) -> (slot: HeadSlot)
        ensures
            slot == *self,
    {
        HeadSlot { cell: Arc::clone(&self.cell) }
    }
}

/// The list of upstreams that requests may be routed to, replaced as a whole
/// by the store manager and read by the request path.
#[verifier::external_body]
pub struct UpstreamList {
    cell: Arc<ArcSwap<Vec<Upstream>>>,
}

impl UpstreamList {
    /// Calls `arc_swap::ArcSwap::from_pointee` with an empty list, inside a new
    /// `Arc`. Nothing is claimed of the list.
    #[verifier::external_body]
    pub(crate) fn empty() -> (list: UpstreamList) {
        UpstreamList { cell: Arc::new(ArcSwap::from_pointee(Vec::new())) }
    }

    /// Calls `arc_swap::ArcSwapAny::load_full`. Nothing is claimed of the result:
    /// the manager may have published any list.
    #[verifier::external_body]
    pub(crate) fn load(&self) -> (upstreams: Arc<Vec<Upstream>>) {
        self.cell.load_full()
    }

    /// Calls `arc_swap::ArcSwapAny::swap` with `upstreams` in a new `Arc`, and
    /// drops the list that was there. Nothing is claimed.
    #[verifier::external_body]
    pub(crate) fn swap(&self, upstreams: Vec<Upstream>) {
        self.cell.swap(Arc::new(upstreams));
    }
}

impl Clone for UpstreamList {
    /// Calls `std::sync::Arc::clone`, which points to the same allocation:
    /// claims that the copy is the same shared list (the struct holds nothing
    /// but that pointer).
    #[verifier::external_body]
    fn clone(&self) -> (list: UpstreamList)
        ensures
            list == *self,
    {
        UpstreamList { cell: Arc::clone(&self.cell) }
    }
}

} // verus!
