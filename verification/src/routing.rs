//! Which upstreams a request may be routed to: those whose head is at least
//! as new as the newest head any upstream reported.

use vstd::prelude::*;

use crate::head::ChainHead;
use crate::head_order::behind;

verus! {

/// The newest of the known heads, picked as `Iterator::max` picks: among
/// heads that compare equal, the last one. `None` when no head is known.
pub open spec fn newest(heads: Seq<Option<ChainHead>>) -> Option<ChainHead>
    decreases heads.len(),
{
    if heads.len() == 0 {
        None
    } else {
        let rest = newest(heads.drop_last());
        match heads.last() {
            None => rest,
            Some(h) => match rest {
                None => Some(h),
                Some(m) => if behind(h, m) {
                    Some(m)
                } else {
                    Some(h)
                },
            },
        }
    }
}

/// Whether an upstream that reports `head` has caught up with `newest`.
pub open spec fn caught_up(head: Option<ChainHead>, newest: ChainHead) -> bool {
    match head {
        Some(h) => !behind(h, newest),
        None => false,
    }
}

/// Whether `a` holds a head at least as new as the head in `b`, if `b` holds one.
pub open spec fn at_least(a: Option<ChainHead>, b: Option<ChainHead>) -> bool {
    match (a, b) {
        (_, None) => true,
        (Some(x), Some(y)) => !behind(x, y),
        (None, Some(_)) => false,
    }
}

/// `picked` lists, in increasing order, exactly the indices of the upstreams
/// in `heads` that have caught up with `newest`.
pub open spec fn lists_caught_up(picked: Seq<usize>, heads: Seq<Option<ChainHead>>, newest: ChainHead) -> bool {
    &&& forall|k: int| 0 <= k < picked.len() ==> #[trigger] picked[k] < heads.len()
    &&& forall|k: int| 0 <= k < picked.len() ==> caught_up(heads[#[trigger] picked[k] as int], newest)
    &&& forall|i: int| 0 <= i < heads.len() && caught_up(#[trigger] heads[i], newest) ==> picked.contains(i as usize)
    &&& forall|k: int, l: int| 0 <= k < l < picked.len() ==> picked[k] < picked[l]
}

/// The upstreams a request may go to: when `reported` holds no head, none;
/// otherwise those whose head in `current` is at least as new as the newest
/// head in `reported`. Routing reads the heads twice, and a tracker may publish
/// in between, so the two sequences need not agree.
pub open spec fn eligible(picked: Seq<usize>, reported: Seq<Option<ChainHead>>, current: Seq<Option<ChainHead>>) -> bool {
    match newest(reported) {
        None => picked.len() == 0,
        Some(m) => lists_caught_up(picked, current, m),
    }
}

/// The indices, in increasing order, of the upstreams in `heads` that have
/// caught up with `newest`.
pub open spec fn caught_up_list(heads: Seq<Option<ChainHead>>, newest: ChainHead) -> Seq<usize>
    decreases heads.len(),
{
    if heads.len() == 0 {
        Seq::empty()
    } else {
        let prefix = caught_up_list(heads.drop_last(), newest);
        if caught_up(heads.last(), newest) {
            prefix.push((heads.len() - 1) as usize)
        } else {
            prefix
        }
    }
}

/// The upstreams a request may go to, in increasing order: when `reported`
/// holds no head, none; otherwise those whose head in `current` is at least as
/// new as the newest head in `reported`.
pub open spec fn eligible_list(reported: Seq<Option<ChainHead>>, current: Seq<Option<ChainHead>>) -> Seq<usize> {
    match newest(reported) {
        None => Seq::empty(),
        Some(m) => caught_up_list(current, m),
    }
}

/// Whether upstream `i` may receive a request, given the heads read once to
/// find the newest (`reported`) and once more to test each upstream
/// (`current`): some head was reported, and upstream `i`'s current head is at
/// least as new as the newest reported one.
pub open spec fn eligible_at(reported: Seq<Option<ChainHead>>, current: Seq<Option<ChainHead>>, i: int) -> bool {
    match newest(reported) {
        Some(m) => 0 <= i < current.len() && caught_up(current[i], m),
        None => false,
    }
}

/// The newest known head.
pub fn newest_head(heads: &Vec<Option<ChainHead>>) -> (r: Option<ChainHead>)
    ensures
        r == newest(heads@),
{
    let mut best: Option<ChainHead> = None;
    let mut i: usize = 0;
    while i < heads.len()
        invariant
            i <= heads@.len(),
            best == newest(heads@.take(i as int)),
        decreases heads@.len() - i,
    {
        assert(heads@.take(i + 1).drop_last() =~= heads@.take(i as int));
        match heads[i] {
            None => {},
            Some(h) => {
                best = match best {
                    None => Some(h),
                    Some(m) => if h.is_behind(&m) {
                        Some(m)
                    } else {
                        Some(h)
                    },
                };
            },
        }
        i = i + 1;
    }
    assert(heads@.take(heads@.len() as int) =~= heads@);
    best
}

/// The indices, in increasing order, of the upstreams whose head has caught up
/// with `newest`.
pub fn caught_up_indices(heads: &Vec<Option<ChainHead>>, newest: ChainHead) -> (r: Vec<usize>)
    ensures
        lists_caught_up(r@, heads@, newest),
        r@ == caught_up_list(heads@, newest),
{
    let mut picked: Vec<usize> = Vec::new();
    let mut i: usize = 0;
    while i < heads.len()
        invariant
            i <= heads@.len(),
            picked@ == caught_up_list(heads@.take(i as int), newest),
            forall|k: int| 0 <= k < picked@.len() ==> #[trigger] picked@[k] < i,
            forall|k: int| 0 <= k < picked@.len() ==> caught_up(heads@[#[trigger] picked@[k] as int], newest),
            forall|j: int| 0 <= j < i && caught_up(#[trigger] heads@[j], newest) ==> picked@.contains(j as usize),
            forall|k: int, l: int| 0 <= k < l < picked@.len() ==> picked@[k] < picked@[l],
        decreases heads@.len() - i,
    {
        let keep = match heads[i] {
            Some(h) => !h.is_behind(&newest),
            None => false,
        };
        let ghost before = picked@;
        assert(heads@.take(i + 1).drop_last() =~= heads@.take(i as int));
        assert(heads@.take(i + 1).last() == heads@[i as int]);
        if keep {
            picked.push(i);
            assert(picked@[picked@.len() - 1] == i);
        }
        assert(picked@ == caught_up_list(heads@.take(i + 1), newest));
        assert forall|j: int| 0 <= j < i + 1 && caught_up(#[trigger] heads@[j], newest) implies picked@.contains(j as usize) by {
            if j == i {
                assert(picked@[picked@.len() - 1] == i);
            } else {
                let k = choose|k: int| 0 <= k < before.len() && before[k] == j as usize;
                assert(picked@[k] == j as usize);
            }
        }
        i = i + 1;
    }
    assert(heads@.take(heads@.len() as int) =~= heads@);
    picked
}

/// The upstreams a request may go to, given the heads read once to find the
/// newest (`reported`) and once more to test each upstream (`current`).
pub fn eligible_upstreams(reported: &Vec<Option<ChainHead>>, current: &Vec<Option<ChainHead>>) -> (r: Vec<usize>)
    ensures
        eligible(r@, reported@, current@),
        r@ == eligible_list(reported@, current@),
{
    match newest_head(reported) {
        Some(m) => caught_up_indices(current, m),
        None => Vec::new(),
    }
}

/// The newest head is one of the reported heads.
pub proof fn lemma_newest_is_reported(heads: Seq<Option<ChainHead>>)
    ensures
        newest(heads) matches Some(h) ==> exists|i: int| 0 <= i < heads.len() && heads[i] == Some(h),
    decreases heads.len(),
{
    if heads.len() > 0 {
        let rest = heads.drop_last();
        lemma_newest_is_reported(rest);
        if let Some(m) = newest(rest) {
            if newest(heads) == Some(m) {
                let i = choose|i: int| 0 <= i < rest.len() && rest[i] == Some(m);
                assert(heads[i] == Some(m));
            }
        }
        if newest(heads) == heads.last() {
            assert(heads[heads.len() - 1] == heads.last());
        }
    }
}

/// No reported head is newer than the newest head.
pub proof fn lemma_newest_is_not_behind(heads: Seq<Option<ChainHead>>)
    ensures
        newest(heads) is Some ==> forall|i: int|
            0 <= i < heads.len() ==> at_least(newest(heads), #[trigger] heads[i]),
    decreases heads.len(),
{
    if heads.len() > 0 {
        let rest = heads.drop_last();
        lemma_newest_is_not_behind(rest);
        lemma_newest_exists_iff_reported(rest);
        if newest(heads) is Some {
            assert forall|i: int| 0 <= i < heads.len() implies at_least(newest(heads), #[trigger] heads[i]) by {
                if i < heads.len() - 1 {
                    assert(heads[i] == rest[i]);
                    if newest(rest) is Some {
                        assert(at_least(newest(rest), rest[i]));
                    } else {
                        assert(!(rest[i] is Some));
                    }
                }
            }
        }
    }
}

/// A newest head exists exactly when some upstream reported a head.
pub proof fn lemma_newest_exists_iff_reported(heads: Seq<Option<ChainHead>>)
    ensures
        newest(heads) is Some <==> exists|i: int| 0 <= i < heads.len() && #[trigger] heads[i] is Some,
    decreases heads.len(),
{
    if heads.len() > 0 {
        let rest = heads.drop_last();
        lemma_newest_exists_iff_reported(rest);
        if newest(heads) is Some {
            lemma_newest_is_reported(heads);
        }
        if exists|i: int| 0 <= i < heads.len() && #[trigger] heads[i] is Some {
            let i = choose|i: int| 0 <= i < heads.len() && #[trigger] heads[i] is Some;
            if i < heads.len() - 1 {
                assert(rest[i] is Some);
            }
        }
    }
}

/// Routing only goes to upstreams at the newest head: when the heads did not
/// change between the two reads, every eligible upstream's head is at least as
/// new as every reported head, and some upstream is eligible as soon as any
/// upstream reported a head.
pub proof fn lemma_routes_only_to_newest(picked: Seq<usize>, heads: Seq<Option<ChainHead>>)
    requires
        eligible(picked, heads, heads),
    ensures
        forall|k: int, i: int|
            0 <= k < picked.len() && 0 <= i < heads.len() ==> at_least(
                #[trigger] heads[picked[k] as int],
                #[trigger] heads[i],
            ),
        (exists|i: int| 0 <= i < heads.len() && #[trigger] heads[i] is Some) ==> picked.len() > 0,
{
    lemma_newest_is_reported(heads);
    lemma_newest_is_not_behind(heads);
    lemma_newest_exists_iff_reported(heads);
    if let Some(m) = newest(heads) {
        assert forall|k: int, i: int|
            0 <= k < picked.len() && 0 <= i < heads.len() implies at_least(
                #[trigger] heads[picked[k] as int],
                #[trigger] heads[i],
            ) by {
            assert(caught_up(heads[picked[k] as int], m));
        }
        let i = choose|i: int| 0 <= i < heads.len() && heads[i] == Some(m);
        assert(caught_up(heads[i], m));
        assert(picked.contains(i as usize));
    }
}

} // verus!
