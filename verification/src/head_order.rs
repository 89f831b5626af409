use std::cmp::Ordering;
use vstd::prelude::*;
use vstd::std_specs::cmp::{PartialEqSpec, PartialOrdSpec};

use crate::head::{ChainHead, ConfirmedHead, PendingHead};

verus! {

/// Lexicographic order of two positions: first components, then second ones.
pub open spec fn order_of(a: (int, int), b: (int, int)) -> Ordering {
    if a.0 < b.0 {
        Ordering::Less
    } else if a.0 > b.0 {
        Ordering::Greater
    } else if a.1 < b.1 {
        Ordering::Less
    } else if a.1 > b.1 {
        Ordering::Greater
    } else {
        Ordering::Equal
    }
}

/// The ordering of two heads, by their positions.
pub open spec fn head_order(a: ChainHead, b: ChainHead) -> Ordering {
    order_of(a.position(), b.position())
}

/// Whether head `a` is strictly older than head `b`.
pub open spec fn behind(a: ChainHead, b: ChainHead) -> bool {
    head_order(a, b) == Ordering::Less
}

/// The ordering read the other way round.
pub open spec fn reversed(o: Ordering) -> Ordering {
    match o {
        Ordering::Less => Ordering::Greater,
        Ordering::Equal => Ordering::Equal,
        Ordering::Greater => Ordering::Less,
    }
}

impl ConfirmedHead {
    /// Orders two confirmed heads by height.
    pub fn cmp(&self, other: &ConfirmedHead) -> (r: Ordering)
        ensures
            r == order_of(self.position(), other.position()),
    {
        if self.height < other.height {
            Ordering::Less
        } else if self.height > other.height {
            Ordering::Greater
        } else {
            Ordering::Equal
        }
    }
}

impl PendingHead {
    /// Orders two pending heads by height, then by transaction count.
    pub fn cmp(&self, other: &PendingHead) -> (r: Ordering)
        ensures
            r == order_of(self.position(), other.position()),
    {
        if self.height < other.height {
            Ordering::Less
        } else if self.height > other.height {
            Ordering::Greater
        } else if self.tx_count < other.tx_count {
            Ordering::Less
        } else if self.tx_count > other.tx_count {
            Ordering::Greater
        } else {
            Ordering::Equal
        }
    }
}

impl PartialEq<ConfirmedHead> for ConfirmedHead {
    fn eq(&self, other: &ConfirmedHead) -> (r: bool) {
        self.height == other.height
    }
}

impl vstd::std_specs::cmp::PartialEqSpecImpl<ConfirmedHead> for ConfirmedHead {
    open spec fn obeys_eq_spec() -> bool {
        true
    }

    open spec fn eq_spec(&self, other: &ConfirmedHead) -> bool {
        self.position() == other.position()
    }
}

impl Eq for ConfirmedHead {
}

impl PartialEq<PendingHead> for PendingHead {
    fn eq(&self, other: &PendingHead) -> (r: bool) {
        self.height == other.height && self.tx_count == other.tx_count
    }
}

impl vstd::std_specs::cmp::PartialEqSpecImpl<PendingHead> for PendingHead {
    open spec fn obeys_eq_spec() -> bool {
        true
    }

    open spec fn eq_spec(&self, other: &PendingHead) -> bool {
        self.position() == other.position()
    }
}

impl Eq for PendingHead {
}

impl PartialEq<ConfirmedHead> for PendingHead {
    /// An empty pending block at `h + 1` stands for the same chain state as a
    /// confirmed block at `h`.
    fn eq(&self, other: &ConfirmedHead) -> (r: bool) {
        self.tx_count == 0 && self.height > other.height && self.height - 1 == other.height
    }
}

impl vstd::std_specs::cmp::PartialEqSpecImpl<ConfirmedHead> for PendingHead {
    open spec fn obeys_eq_spec() -> bool {
        true
    }

    open spec fn eq_spec(&self, other: &ConfirmedHead) -> bool {
        self.position() == other.position()
    }
}

impl PartialEq<PendingHead> for ConfirmedHead {
    fn eq(&self, other: &PendingHead) -> (r: bool) {
        other.tx_count == 0 && other.height > self.height && other.height - 1 == self.height
    }
}

impl vstd::std_specs::cmp::PartialEqSpecImpl<PendingHead> for ConfirmedHead {
    open spec fn obeys_eq_spec() -> bool {
        true
    }

    open spec fn eq_spec(&self, other: &PendingHead) -> bool {
        self.position() == other.position()
    }
}

impl PartialOrd<ConfirmedHead> for ConfirmedHead {
    fn partial_cmp(&self, other: &ConfirmedHead) -> (r: Option<Ordering>) {
        Some(self.cmp(other))
    }
}

impl vstd::std_specs::cmp::PartialOrdSpecImpl<ConfirmedHead> for ConfirmedHead {
    open spec fn obeys_partial_cmp_spec() -> bool {
        true
    }

    open spec fn partial_cmp_spec(&self, other: &ConfirmedHead) -> Option<Ordering> {
        Some(order_of(self.position(), other.position()))
    }
}

impl PartialOrd<PendingHead> for PendingHead {
    fn partial_cmp(&self, other: &PendingHead) -> (r: Option<Ordering>) {
        Some(self.cmp(other))
    }
}

impl vstd::std_specs::cmp::PartialOrdSpecImpl<PendingHead> for PendingHead {
    open spec fn obeys_partial_cmp_spec() -> bool {
        true
    }

    open spec fn partial_cmp_spec(&self, other: &PendingHead) -> Option<Ordering> {
        Some(order_of(self.position(), other.position()))
    }
}

impl PartialOrd<ConfirmedHead> for PendingHead {
    /// Compares the pending height with the height at which the confirmed
    /// block's successor sits; at the same height, a pending block that already
    /// holds transactions is ahead.
    fn partial_cmp(&self, other: &ConfirmedHead) -> (r: Option<Ordering>) {
        let order = if self.height <= other.height {
            Ordering::Less
        } else if self.height - 1 > other.height {
            Ordering::Greater
        } else if self.tx_count == 0 {
            Ordering::Equal
        } else {
            Ordering::Greater
        };
        Some(order)
    }
}

impl vstd::std_specs::cmp::PartialOrdSpecImpl<ConfirmedHead> for PendingHead {
    open spec fn obeys_partial_cmp_spec() -> bool {
        true
    }

    open spec fn partial_cmp_spec(&self, other: &ConfirmedHead) -> Option<Ordering> {
        Some(order_of(self.position(), other.position()))
    }
}

impl PartialOrd<PendingHead> for ConfirmedHead {
    fn partial_cmp(&self, other: &PendingHead) -> (r: Option<Ordering>) {
        let order = if other.height <= self.height {
            Ordering::Greater
        } else if other.height - 1 > self.height {
            Ordering::Less
        } else if other.tx_count == 0 {
            Ordering::Equal
        } else {
            Ordering::Less
        };
        Some(order)
    }
}

impl vstd::std_specs::cmp::PartialOrdSpecImpl<PendingHead> for ConfirmedHead {
    open spec fn obeys_partial_cmp_spec() -> bool {
        true
    }

    open spec fn partial_cmp_spec(&self, other: &PendingHead) -> Option<Ordering> {
        Some(order_of(self.position(), other.position()))
    }
}

impl ChainHead {
    /// Orders two heads; heads of different kinds are compared through the
    /// position of the pending block against the confirmed block's successor.
    pub fn cmp(&self, other: &ChainHead) -> (r: Ordering)
        ensures
            r == head_order(*self, *other),
    {
        match (self, other) {
            (ChainHead::Confirmed(left), ChainHead::Confirmed(right)) => left.cmp(right),
            (ChainHead::Confirmed(left), ChainHead::Pending(right)) => left.partial_cmp(
                right,
            ).unwrap(),
            (ChainHead::Pending(left), ChainHead::Confirmed(right)) => left.partial_cmp(
                right,
            ).unwrap(),
            (ChainHead::Pending(left), ChainHead::Pending(right)) => left.cmp(right),
        }
    }
}

impl ChainHead {
    /// Whether this head is strictly older than `other`.
    pub fn is_behind(&self, other: &ChainHead) -> (r: bool)
        ensures
            r == behind(*self, *other),
    {
        match self.cmp(other) {
            Ordering::Less => true,
            _ => false,
        }
    }
}

impl PartialEq<ChainHead> for ChainHead {
    fn eq(&self, other: &ChainHead) -> (r: bool) {
        match (self, other) {
            (ChainHead::Confirmed(left), ChainHead::Confirmed(right)) => left == right,
            (ChainHead::Confirmed(left), ChainHead::Pending(right)) => left == right,
            (ChainHead::Pending(left), ChainHead::Confirmed(right)) => left == right,
            (ChainHead::Pending(left), ChainHead::Pending(right)) => left == right,
        }
    }
}

impl vstd::std_specs::cmp::PartialEqSpecImpl<ChainHead> for ChainHead {
    open spec fn obeys_eq_spec() -> bool {
        true
    }

    open spec fn eq_spec(&self, other: &ChainHead) -> bool {
        self.position() == other.position()
    }
}

impl Eq for ChainHead {
}

impl PartialOrd<ChainHead> for ChainHead {
    fn partial_cmp(&self, other: &ChainHead) -> (r: Option<Ordering>) {
        Some(self.cmp(other))
    }
}

impl vstd::std_specs::cmp::PartialOrdSpecImpl<ChainHead> for ChainHead {
    open spec fn obeys_partial_cmp_spec() -> bool {
        true
    }

    open spec fn partial_cmp_spec(&self, other: &ChainHead) -> Option<Ordering> {
        Some(head_order(*self, *other))
    }
}

/// Heads are equal exactly when they compare as `Equal`.
pub proof fn lemma_equal_iff_same_position(a: ChainHead, b: ChainHead)
    ensures
        (a.position() == b.position()) <==> head_order(a, b) == Ordering::Equal,
{
}

/// Comparing the other way round reverses the result.
pub proof fn lemma_order_antisymmetric(a: ChainHead, b: ChainHead)
    ensures
        head_order(b, a) == reversed(head_order(a, b)),
{
}

/// The order is transitive: if `a` compares to `b` as `b` compares to `c`,
/// then `a` compares to `c` the same way.
pub proof fn lemma_order_transitive(a: ChainHead, b: ChainHead, c: ChainHead, o: Ordering)
    requires
        head_order(a, b) == o,
        head_order(b, c) == o,
    ensures
        head_order(a, c) == o,
{
}

/// A head may be replaced by an equal one on either side of a comparison.
pub proof fn lemma_equal_heads_compare_alike(a: ChainHead, b: ChainHead, c: ChainHead)
    requires
        head_order(a, b) == Ordering::Equal,
    ensures
        head_order(a, c) == head_order(b, c),
        head_order(c, a) == head_order(c, b),
{
}

/// Any two heads are comparable, and `partial_cmp` agrees with `cmp`.
pub proof fn lemma_partial_order_is_total(a: ChainHead, b: ChainHead)
    ensures
        a.partial_cmp_spec(&b) == Some(head_order(a, b)),
{
}

/// A confirmed head and a pending head are equal, whichever side is asked,
/// exactly when the pending block is empty and sits right above the confirmed
/// one; and each side orders the pair the other way round from the other.
pub proof fn lemma_cross_kind_consistent(c: ConfirmedHead, p: PendingHead)
    ensures
        c.eq_spec(&p) == p.eq_spec(&c),
        c.eq_spec(&p) <==> (p.tx_count == 0 && p.height == c.height + 1),
        c.partial_cmp_spec(&p) == Some(reversed(p.partial_cmp_spec(&c).unwrap())),
        c.partial_cmp_spec(&p) == ChainHead::Confirmed(c).partial_cmp_spec(&ChainHead::Pending(p)),
{
}

/// A pending block on top of confirmed block `h` is at least as new as `h`,
/// is equal to it while it holds no transaction, and is older than the next
/// confirmed block.
pub proof fn lemma_pending_between_confirmations(c: ConfirmedHead, p: PendingHead, next: ConfirmedHead)
    requires
        p.height == c.height + 1,
        next.height == c.height + 1,
    ensures
        head_order(ChainHead::Confirmed(c), ChainHead::Pending(p)) == (if p.tx_count == 0 {
            Ordering::Equal
        } else {
            Ordering::Less
        }),
        head_order(ChainHead::Pending(p), ChainHead::Confirmed(next)) == Ordering::Less,
{
}

/// Among pending blocks at one height, the one holding more transactions is newer.
pub proof fn lemma_more_transactions_is_newer(p: PendingHead, q: PendingHead)
    requires
        p.height == q.height,
        p.tx_count < q.tx_count,
    ensures
        head_order(ChainHead::Pending(p), ChainHead::Pending(q)) == Ordering::Less,
{
}

} // verus!
