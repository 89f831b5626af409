//! The set of upstreams that requests are routed to, and the manager that
//! keeps it in line with what the resolver reports.

use rand::rngs::ThreadRng;
use rand::Rng;
use vstd::prelude::*;

use crate::endpoint::UpstreamId;
use crate::handles::{is_value_of, TrackerHandles};
use crate::head::ChainHead;
use crate::resolver::{
    fresh, gone, lemma_fresh_members, lemma_gone_members, lemma_round_outcome,
    lemma_still_present_members, still_present,
};
use crate::routing::{
    at_least, caught_up, eligible_at, eligible_list, eligible_upstreams, lemma_newest_is_not_behind, newest, newest_head,
};
use crate::shared::{HeadSlot, UpstreamList};

verus! {

#[verifier::external_type_specification]
#[verifier::external_body]
pub struct ExThreadRng(ThreadRng);

/// Calls `rand::thread_rng`. Nothing is claimed of the generator.
#[verifier::external_body]
fn local_rng() -> (rng: ThreadRng) {
    rand::thread_rng()
}

/// Calls `rand::Rng::gen_range` with the range `0..len`, which panics when the
/// range is empty, hence `len > 0`. Claims only that the index is in range;
/// which index comes out is up to chance.
#[verifier::external_body]
fn random_index(rng: &mut ThreadRng, len: usize) -> (i: usize)
    requires
        len > 0,
    ensures
        i < len,
{
    rng.gen_range(0..len)
}

/// An upstream that requests may be routed to, with the slot in which its
/// tracker publishes the head it observes.
#[derive(Clone)]
pub struct Upstream {
    pub id: UpstreamId,
    pub head: HeadSlot,
}

impl Upstream {
    /// A copy of this upstream that shares its head slot.
    pub fn share(&self) -> (r: Upstream)
        ensures
            r == *self,
    {
        Upstream { id: self.id.duplicate(), head: self.head.clone() }
    }
}

/// The endpoints of `upstreams`, in order.
pub open spec fn ids_of(upstreams: Seq<Upstream>) -> Seq<Seq<char>> {
    upstreams.map_values(|u: Upstream| u.id@)
}

/// The endpoints of `ids`, in order.
pub open spec fn endpoints_of(ids: Seq<UpstreamId>) -> Seq<Seq<char>> {
    ids.map_values(|id: UpstreamId| id@)
}

/// The upstreams that requests are routed to, shared between the manager that
/// publishes them and the request path that reads them.
#[derive(Clone)]
pub struct UpstreamStore {
    upstreams: UpstreamList,
}

/// Reads the head that each upstream's tracker published last.
fn load_heads(upstreams: &Vec<Upstream>) -> (heads: Vec<Option<ChainHead>>)
    ensures
        heads@.len() == upstreams@.len(),
{
    let mut heads: Vec<Option<ChainHead>> = Vec::new();
    let mut i: usize = 0;
    while i < upstreams.len()
        invariant
            i <= upstreams@.len(),
            heads@.len() == i,
        decreases upstreams@.len() - i,
    {
        heads.push(upstreams[i].head.load());
        i = i + 1;
    }
    heads
}

/// The endpoint of upstream `available[k]`, for the draw `k` among the
/// upstreams listed in `available`.
pub fn endpoint_at(upstreams: &Vec<Upstream>, available: &Vec<usize>, k: usize) -> (r: String)
    requires
        k < available@.len(),
        available@[k as int] < upstreams@.len(),
    ensures
        r@ == upstreams@[available@[k as int] as int].id@,
{
    upstreams[available[k]].id.endpoint.clone()
}

/// The endpoint of an upstream drawn at random among those that may receive
/// a request, given the heads read once to find the newest (`reported`) and
/// once more to test each upstream (`current`); `None` when no upstream may.
/// Which of them is drawn is up to chance.
pub fn choose_upstream(
    upstreams: &Vec<Upstream>,
    reported: &Vec<Option<ChainHead>>,
    current: &Vec<Option<ChainHead>>,
) -> (r: Option<String>)
    requires
        reported@.len() == upstreams@.len(),
        current@.len() == upstreams@.len(),
    ensures
        r is None <==> eligible_list(reported@, current@).len() == 0,
        r matches Some(s) ==> exists|k: int|
            0 <= k < eligible_list(reported@, current@).len() && s@
                == upstreams@[#[trigger] eligible_list(reported@, current@)[k] as int].id@,
        r is None <==> !exists|i: int| eligible_at(reported@, current@, i),
        r matches Some(s) ==> exists|i: int|
            #[trigger] eligible_at(reported@, current@, i) && upstreams@[i].id@ == s@,
        reported@ == current@ ==> (r matches Some(s) ==> exists|i: int|
            0 <= i < upstreams@.len() && #[trigger] upstreams@[i].id@ == s@ && forall|j: int|
                0 <= j < current@.len() ==> at_least(current@[i], #[trigger] current@[j])),
{
    let available = eligible_upstreams(reported, current);
    proof {
        lemma_newest_is_not_behind(reported@);
        match newest(reported@) {
            Some(m) => {
                assert forall|i: int| eligible_at(reported@, current@, i) implies available@.len() > 0 by {
                    assert(available@.contains(i as usize));
                }
            },
            None => {},
        }
    }
    if available.len() == 0 {
        None
    } else {
        let mut rng = local_rng();
        let k = random_index(&mut rng, available.len());
        let i = available[k];
        let endpoint = endpoint_at(upstreams, &available, k);
        proof {
            assert(available@[k as int] == i);
            let m = newest(reported@).unwrap();
            assert(caught_up(current@[i as int], m));
            assert(eligible_at(reported@, current@, i as int));
            assert(upstreams@[i as int].id@ == endpoint@);
            if reported@ == current@ {
                assert forall|j: int| 0 <= j < current@.len() implies at_least(current@[i as int], #[trigger] current@[j]) by {
                    assert(at_least(newest(reported@), reported@[j]));
                }
                assert(0 <= i < upstreams@.len() && upstreams@[i as int].id@ == endpoint@ && forall|j: int|
                    0 <= j < current@.len() ==> at_least(current@[i as int], #[trigger] current@[j]));
            }
        }
        Some(endpoint)
    }
}

impl UpstreamStore {
    /// The upstream list currently published. Another task may publish a new
    /// one at any time.
    pub fn upstreams(&self) -> (r: std::sync::Arc<Vec<Upstream>>) {
        self.upstreams.load()
    }

    /// Publishes `upstreams` in place of the current list.
    pub fn publish(&self, upstreams: Vec<Upstream>) {
        self.upstreams.swap(upstreams)
    }

    /// The endpoint of an upstream at the newest known head, picked at random
    /// among all such upstreams; `None` when no upstream has reported a head.
    ///
    /// The published list and the heads are read from shared cells that other
    /// tasks update at any time: the heads are read once to find the newest,
    /// then, if there is one, once more to find the upstreams that caught up
    /// with it. Alongside the endpoint, returns (as ghost values) what was
    /// read: the list, the first reading of the heads, and the second one (the
    /// first again when there was no second read, as nothing was known).
    pub fn get_upstream(&self) -> (r: (
        Option<String>,
        Ghost<(Seq<Upstream>, Seq<Option<ChainHead>>, Seq<Option<ChainHead>>)>,
    ))
        ensures
            r.1@.1.len() == r.1@.0.len(),
            r.1@.2.len() == r.1@.0.len(),
            r.0 is None <==> !exists|i: int| eligible_at(r.1@.1, r.1@.2, i),
            r.0 matches Some(s) ==> exists|i: int|
                #[trigger] eligible_at(r.1@.1, r.1@.2, i) && r.1@.0[i].id@ == s@,
            r.1@.1 == r.1@.2 ==> (r.0 matches Some(s) ==> exists|i: int|
                0 <= i < r.1@.0.len() && #[trigger] r.1@.0[i].id@ == s@ && forall|j: int|
                    0 <= j < r.1@.2.len() ==> at_least(r.1@.2[i], #[trigger] r.1@.2[j])),
    {
        let upstreams = self.upstreams.load();
        let reported = load_heads(&upstreams);
        match newest_head(&reported) {
            Some(_) => {
                let current = load_heads(&upstreams);
                let chosen = choose_upstream(&upstreams, &reported, &current);
                assert(chosen is None <==> !exists|i: int| eligible_at(reported@, current@, i));
                assert(reported@ == current@ ==> (chosen matches Some(s) ==> exists|i: int|
                    0 <= i < upstreams@.len() && #[trigger] upstreams@[i].id@ == s@ && forall|j: int|
                        0 <= j < current@.len() ==> at_least(current@[i], #[trigger] current@[j])));
                let ghost read = (upstreams@, reported@, current@);
                (chosen, Ghost(read))
            },
            None => {
                proof {
                    assert(!exists|i: int| eligible_at(reported@, reported@, i));
                }
                (None, Ghost((upstreams@, reported@, reported@)))
            },
        }
    }
}

/// `ids` with every endpoint listed in `removal` left out.
pub open spec fn without(ids: Seq<Seq<char>>, removal: Seq<Seq<char>>) -> Seq<Seq<char>>
    decreases ids.len(),
{
    if ids.len() == 0 {
        ids
    } else {
        let rest = without(ids.drop_last(), removal);
        if removal.contains(ids.last()) {
            rest
        } else {
            rest.push(ids.last())
        }
    }
}

/// Whether `id`'s endpoint is among those of `ids`.
pub fn listed(ids: &Vec<UpstreamId>, id: &UpstreamId) -> (r: bool)
    ensures
        r == endpoints_of(ids@).contains(id@),
{
    let mut j: usize = 0;
    while j < ids.len()
        invariant
            j <= ids@.len(),
            forall|t: int| 0 <= t < j ==> ids@[t]@ != id@,
        decreases ids@.len() - j,
    {
        if ids[j].same_endpoint(id) {
            assert(endpoints_of(ids@)[j as int] == id@);
            return true;
        }
        j = j + 1;
    }
    assert forall|t: int| 0 <= t < endpoints_of(ids@).len() implies endpoints_of(ids@)[t] != id@ by {
        assert(ids@[t]@ != id@);
    }
    false
}

/// The upstreams of `existing` whose endpoint is not in `removal`, in order.
pub open spec fn kept_upstreams(existing: Seq<Upstream>, removal: Seq<Seq<char>>) -> Seq<Upstream>
    decreases existing.len(),
{
    if existing.len() == 0 {
        existing
    } else {
        let rest = kept_upstreams(existing.drop_last(), removal);
        if removal.contains(existing.last().id@) {
            rest
        } else {
            rest.push(existing.last())
        }
    }
}

/// The endpoints of the kept upstreams are the endpoints of `existing` with
/// those in `removal` left out.
pub proof fn lemma_kept_upstreams_ids(existing: Seq<Upstream>, removal: Seq<Seq<char>>)
    ensures
        ids_of(kept_upstreams(existing, removal)) == without(ids_of(existing), removal),
    decreases existing.len(),
{
    if existing.len() > 0 {
        let rest = existing.drop_last();
        lemma_kept_upstreams_ids(rest, removal);
        assert(ids_of(rest) =~= ids_of(existing).drop_last());
        assert(ids_of(existing).last() == existing.last().id@);
        assert(ids_of(kept_upstreams(existing, removal)) =~= without(ids_of(existing), removal));
    }
}

/// The list to publish after a resolution: the new upstreams first, then the
/// existing ones that were not removed, in their order and with their head
/// slots.
pub fn merge_upstreams(added: Vec<Upstream>, existing: &Vec<Upstream>, removal: &Vec<UpstreamId>) -> (r: Vec<Upstream>)
    ensures
        r@ == added@ + kept_upstreams(existing@, endpoints_of(removal@)),
        ids_of(r@) == ids_of(added@) + without(ids_of(existing@), endpoints_of(removal@)),
{
    let ghost removed = endpoints_of(removal@);
    let ghost base = added@;
    let mut merged = added;
    let mut i: usize = 0;
    while i < existing.len()
        invariant
            i <= existing@.len(),
            removed == endpoints_of(removal@),
            merged@ == base + kept_upstreams(existing@.take(i as int), removed),
        decreases existing@.len() - i,
    {
        assert(existing@.take(i + 1).drop_last() =~= existing@.take(i as int));
        assert(existing@.take(i + 1).last() == existing@[i as int]);
        let is_removed = listed(removal, &existing[i].id);
        if !is_removed {
            merged.push(existing[i].share());
        }
        assert(merged@ =~= base + kept_upstreams(existing@.take(i + 1), removed));
        i = i + 1;
    }
    assert(existing@.take(existing@.len() as int) =~= existing@);
    proof {
        lemma_kept_upstreams_ids(existing@, removed);
        assert(ids_of(merged@) =~= ids_of(base) + ids_of(kept_upstreams(existing@, removed)));
    }
    merged
}

/// What the resolver found changed: upstreams to add and upstreams to remove.
pub struct UpstreamResolvedEvent {
    pub addition: Vec<UpstreamId>,
    pub removal: Vec<UpstreamId>,
}

/// The events that the store manager reacts to.
pub enum UpstreamStoreManagerEvent {
    /// A tracker published a new head.
    NewHead,
    /// The resolver found the set of upstreams changed.
    UpstreamResolved(UpstreamResolvedEvent),
}

/// The trackers held after recording `started` in order over `held`; a later
/// tracker for the same endpoint replaces an earlier one.
pub open spec fn with_trackers<H>(held: Map<Seq<char>, H>, started: Seq<(Seq<char>, H)>) -> Map<Seq<char>, H>
    decreases started.len(),
{
    if started.len() == 0 {
        held
    } else {
        with_trackers(held, started.drop_last()).insert(started.last().0, started.last().1)
    }
}

/// The trackers held after taking out those of the endpoints in `removal`.
pub open spec fn without_trackers<H>(held: Map<Seq<char>, H>, removal: Seq<Seq<char>>) -> Map<Seq<char>, H>
    decreases removal.len(),
{
    if removal.len() == 0 {
        held
    } else {
        without_trackers(held, removal.drop_last()).remove(removal.last())
    }
}

/// The handle taken out for each endpoint in `removal`, in order: `None`
/// where no tracker was held for it (any more).
pub open spec fn taken_trackers<H>(held: Map<Seq<char>, H>, removal: Seq<Seq<char>>) -> Seq<Option<H>>
    decreases removal.len(),
{
    if removal.len() == 0 {
        Seq::empty()
    } else {
        let before = without_trackers(held, removal.drop_last());
        let key = removal.last();
        taken_trackers(held, removal.drop_last()).push(
            if before.contains_key(key) {
                Some(before[key])
            } else {
                None
            },
        )
    }
}

/// The started upstreams, in order.
pub open spec fn started_upstreams<H>(started: Seq<(Upstream, H)>) -> Seq<Upstream> {
    started.map_values(|p: (Upstream, H)| p.0)
}

/// The endpoints of the started trackers, in order.
pub open spec fn started_keys<H>(started: Seq<(Seq<char>, H)>) -> Seq<Seq<char>> {
    started.map_values(|p: (Seq<char>, H)| p.0)
}

/// The endpoint and tracker handle of each started upstream.
pub open spec fn started_trackers<H>(started: Seq<(Upstream, H)>) -> Seq<(Seq<char>, H)> {
    started.map_values(|p: (Upstream, H)| (p.0.id@, p.1))
}

/// Keeps the published upstream list in line with the resolver, and holds the
/// handle of each upstream's tracker (of type `H`, which the tasks that run
/// the trackers define).
pub struct UpstreamStoreManager<H> {
    store: UpstreamStore,
    tracker_handles: TrackerHandles<H>,
}

impl<H> UpstreamStoreManager<H> {
    /// No endpoint has two tracker handles.
    #[verifier::type_invariant]
    spec fn inv(&self) -> bool {
        self.tracker_handles.wf()
    }

    /// The tracker handle held for each endpoint.
    pub closed spec fn trackers(&self) -> Map<Seq<char>, H> {
        self.tracker_handles@
    }

    /// A manager with no upstream and no tracker.
    pub fn new() -> (r: UpstreamStoreManager<H>)
        ensures
            r.trackers() == Map::<Seq<char>, H>::empty(),
    {
        UpstreamStoreManager {
            store: UpstreamStore { upstreams: UpstreamList::empty() },
            tracker_handles: TrackerHandles::new(),
        }
    }

    /// The store through which this manager publishes the upstream list.
    pub closed spec fn published(&self) -> UpstreamStore {
        self.store
    }

    /// The store that the request path reads: the one this manager publishes
    /// to, sharing its list.
    pub fn store(&self) -> (r: UpstreamStore)
        ensures
            r == self.published(),
    {
        UpstreamStore { upstreams: self.store.upstreams.clone() }
    }

    /// The upstreams for the endpoints in `addition`, in order, each with a
    /// fresh head slot, for their trackers to be started.
    pub fn new_upstreams(addition: &Vec<UpstreamId>) -> (r: Vec<Upstream>)
        ensures
            ids_of(r@) == endpoints_of(addition@),
    {
        let mut r: Vec<Upstream> = Vec::new();
        let mut i: usize = 0;
        while i < addition.len()
            invariant
                i <= addition@.len(),
                r@.len() == i,
                ids_of(r@) == endpoints_of(addition@).take(i as int),
            decreases addition@.len() - i,
        {
            let ghost before = r@;
            let id = addition[i].duplicate();
            r.push(Upstream { id, head: HeadSlot::empty() });
            assert(r@ == before.push(r@[i as int]));
            assert(r@[i as int].id@ == endpoints_of(addition@)[i as int]);
            assert(ids_of(r@) =~= endpoints_of(addition@).take(i + 1));
            i = i + 1;
        }
        assert(endpoints_of(addition@).take(addition@.len() as int) =~= endpoints_of(addition@));
        r
    }

    /// Records a resolution: keeps the handle of each started tracker, makes
    /// the list to publish in place of `existing` (the started upstreams, then
    /// the existing ones that are not in `removal`), then takes out the tracker
    /// handle of each endpoint in `removal`, in order, for the caller to stop
    /// (`None` where no tracker was held for it). Returns the list to publish
    /// and the handles taken out.
    pub fn apply_resolution(
        &mut self,
        started: Vec<(Upstream, H)>,
        existing: &Vec<Upstream>,
        removal: &Vec<UpstreamId>,
    ) -> (r: (Vec<Upstream>, Vec<Option<H>>))
        ensures
            final(self).published() == old(self).published(),
            r.0@ == started_upstreams(started@) + kept_upstreams(existing@, endpoints_of(removal@)),
            ids_of(r.0@) == started_keys(started_trackers(started@)) + without(
                ids_of(existing@),
                endpoints_of(removal@),
            ),
            final(self).trackers() == without_trackers(
                with_trackers(old(self).trackers(), started_trackers(started@)),
                endpoints_of(removal@),
            ),
            r.1@ == taken_trackers(
                with_trackers(old(self).trackers(), started_trackers(started@)),
                endpoints_of(removal@),
            ),
    {
        proof {
            use_type_invariant(&*self);
        }
        let mut handles = TrackerHandles::new();
        std::mem::swap(&mut handles, &mut self.tracker_handles);
        let ghost all = started@;
        let ghost held = handles@;
        let mut started = started;
        let total = started.len();
        let mut added: Vec<Upstream> = Vec::new();
        let mut done: usize = 0;
        while done < total
            invariant
                handles.wf(),
                self.store == old(self).store,
                total == all.len(),
                done <= total,
                started@ == all.skip(done as int),
                added@ == started_upstreams(all).take(done as int),
                handles@ == with_trackers(held, started_trackers(all).take(done as int)),
            decreases total - done,
        {
            let (upstream, handle) = started.remove(0);
            assert(started_trackers(all).take(done + 1).drop_last() =~= started_trackers(all).take(done as int));
            assert(all[done as int] == (upstream, handle));
            handles.insert(upstream.id.duplicate(), handle);
            added.push(upstream);
            done = done + 1;
            assert(started@ =~= all.skip(done as int));
            assert(added@ =~= started_upstreams(all).take(done as int));
        }
        assert(started_trackers(all).take(all.len() as int) =~= started_trackers(all));
        assert(started_upstreams(all).take(all.len() as int) =~= started_upstreams(all));
        let merged = merge_upstreams(added, existing, removal);
        let ghost inserted = handles@;
        let ghost keys = endpoints_of(removal@);
        let mut removed: Vec<Option<H>> = Vec::new();
        let mut j: usize = 0;
        while j < removal.len()
            invariant
                handles.wf(),
                self.store == old(self).store,
                j <= removal@.len(),
                keys == endpoints_of(removal@),
                handles@ == without_trackers(inserted, keys.take(j as int)),
                removed@ == taken_trackers(inserted, keys.take(j as int)),
            decreases removal@.len() - j,
        {
            assert(keys.take(j + 1).drop_last() =~= keys.take(j as int));
            assert(keys.take(j + 1).last() == removal@[j as int]@);
            let handle = handles.remove(&removal[j]);
            removed.push(handle);
            j = j + 1;
        }
        assert(keys.take(removal@.len() as int) =~= keys);
        assert(ids_of(started_upstreams(all)) =~= started_keys(started_trackers(all)));
        self.tracker_handles = handles;
        (merged, removed)
    }

    /// The handles of all running trackers, for them to be stopped.
    pub fn into_tracker_handles(self) -> (r: Vec<H>)
        ensures
            forall|k: Seq<char>| #[trigger] self.trackers().contains_key(k) ==> r@.contains(
                self.trackers()[k],
            ),
            forall|i: int| 0 <= i < r@.len() ==> is_value_of(self.trackers(), #[trigger] r@[i]),
    {
        proof {
            use_type_invariant(&self);
        }
        self.tracker_handles.into_values()
    }
}

/// The published list holds exactly the added upstreams and the existing ones
/// that were not removed.
pub proof fn lemma_merge_members(added: Seq<Seq<char>>, existing: Seq<Seq<char>>, removal: Seq<Seq<char>>)
    ensures
        forall|e: Seq<char>| #[trigger] (added + without(existing, removal)).contains(e) <==> added.contains(e)
            || (existing.contains(e) && !removal.contains(e)),
    decreases existing.len(),
{
    if existing.len() > 0 {
        let rest = existing.drop_last();
        lemma_merge_members(added, rest, removal);
        let p = without(rest, removal);
        let q = without(existing, removal);
        let x = existing.last();
        assert forall|e: Seq<char>| #[trigger] (added + q).contains(e) <==> added.contains(e)
            || (existing.contains(e) && !removal.contains(e)) by {
            if (added + q).contains(e) && !added.contains(e) {
                let i = choose|i: int| 0 <= i < (added + q).len() && (added + q)[i] == e;
                assert(i >= added.len());
                let k = i - added.len();
                if !removal.contains(x) && k == p.len() {
                    assert(existing[existing.len() - 1] == e);
                } else {
                    assert(p[k] == e);
                    assert((added + p)[i] == e);
                    assert((added + p).contains(e));
                    assert(rest.contains(e));
                    let j = choose|j: int| 0 <= j < rest.len() && rest[j] == e;
                    assert(existing[j] == e);
                }
            }
            if added.contains(e) {
                let i = choose|i: int| 0 <= i < added.len() && added[i] == e;
                assert((added + q)[i] == e);
            } else if existing.contains(e) && !removal.contains(e) {
                let i = choose|i: int| 0 <= i < existing.len() && existing[i] == e;
                if i == existing.len() - 1 {
                    assert(q[p.len() as int] == e);
                    assert((added + q)[added.len() + p.len() as int] == e);
                } else {
                    assert(rest[i] == e);
                    assert((added + p).contains(e));
                    let j = choose|j: int| 0 <= j < (added + p).len() && (added + p)[j] == e;
                    assert((added + q)[j] == e);
                }
            }
        }
    }
}

/// After the removals, no tracker is held for a removed endpoint, and the
/// trackers of the other endpoints are untouched.
pub proof fn lemma_removed_have_no_tracker<H>(held: Map<Seq<char>, H>, removal: Seq<Seq<char>>)
    ensures
        forall|k: Seq<char>| removal.contains(k) ==> !#[trigger] without_trackers(held, removal).contains_key(k),
        forall|k: Seq<char>|
            !removal.contains(k) ==> (#[trigger] without_trackers(held, removal).contains_key(k)
                == held.contains_key(k)) && (held.contains_key(k) ==> without_trackers(held, removal)[k]
                == held[k]),
    decreases removal.len(),
{
    if removal.len() > 0 {
        let rest = removal.drop_last();
        lemma_removed_have_no_tracker(held, rest);
        let before = without_trackers(held, rest);
        let after = without_trackers(held, removal);
        assert(after == before.remove(removal.last()));
        assert forall|k: Seq<char>| removal.contains(k) implies !#[trigger] without_trackers(held, removal).contains_key(k) by {
            if k != removal.last() {
                let i = choose|i: int| 0 <= i < removal.len() && removal[i] == k;
                assert(i != removal.len() - 1);
                assert(rest[i] == k);
                assert(rest.contains(k));
                assert(!before.contains_key(k));
            }
        }
        assert forall|k: Seq<char>| !removal.contains(k) implies (#[trigger] without_trackers(held, removal).contains_key(k)
            == held.contains_key(k)) && (held.contains_key(k) ==> without_trackers(held, removal)[k] == held[k]) by {
            assert(k != removal[removal.len() - 1]);
            if rest.contains(k) {
                let i = choose|i: int| 0 <= i < rest.len() && rest[i] == k;
                assert(removal[i] == k);
            }
            assert(before.contains_key(k) == held.contains_key(k));
        }
    }
}

/// After the trackers are recorded, each started endpoint holds the handle of
/// its last start, and the other endpoints are untouched.
pub proof fn lemma_started_have_tracker<H>(held: Map<Seq<char>, H>, started: Seq<(Seq<char>, H)>)
    ensures
        forall|i: int|
            0 <= i < started.len() && (forall|j: int| i < j < started.len() ==> started[j].0 != started[i].0)
                ==> #[trigger] with_trackers(held, started).contains_key(started[i].0)
                && with_trackers(held, started)[started[i].0] == started[i].1,
        forall|k: Seq<char>|
            (forall|i: int| 0 <= i < started.len() ==> started[i].0 != k) ==> (
            #[trigger] with_trackers(held, started).contains_key(k) == held.contains_key(k)) && (
            held.contains_key(k) ==> with_trackers(held, started)[k] == held[k]),
    decreases started.len(),
{
    if started.len() > 0 {
        let rest = started.drop_last();
        lemma_started_have_tracker(held, rest);
        let n: int = started.len() - 1;
        assert(rest.len() == n);
        let before = with_trackers(held, rest);
        let after = with_trackers(held, started);
        assert(after == before.insert(started[n].0, started[n].1));
        assert forall|i: int|
            0 <= i < started.len() && (forall|j: int| i < j < started.len() ==> started[j].0 != started[i].0)
                implies #[trigger] with_trackers(held, started).contains_key(started[i].0)
                && with_trackers(held, started)[started[i].0] == started[i].1 by {
            if i < n {
                assert(started[n].0 != started[i].0);
                assert(rest[i] == started[i]);
                assert forall|j: int| i < j < rest.len() implies rest[j].0 != rest[i].0 by {
                    assert(rest[j] == started[j]);
                    assert(started[j].0 != started[i].0);
                }
                assert(before.contains_key(rest[i].0) && before[rest[i].0] == rest[i].1);
            }
        }
        assert forall|k: Seq<char>|
            (forall|i: int| 0 <= i < started.len() ==> started[i].0 != k) implies (
            #[trigger] with_trackers(held, started).contains_key(k) == held.contains_key(k)) && (
            held.contains_key(k) ==> with_trackers(held, started)[k] == held[k]) by {
            assert(started[n].0 != k);
            assert forall|i: int| 0 <= i < rest.len() implies rest[i].0 != k by {
                assert(rest[i] == started[i]);
                assert(started[i].0 != k);
            }
            assert(before.contains_key(k) == held.contains_key(k));
        }
    }
}

/// When no endpoint is removed twice, the handle taken out for each removed
/// endpoint is the one held for it before the removals, if any.
pub proof fn lemma_taken_were_held<H>(held: Map<Seq<char>, H>, removal: Seq<Seq<char>>)
    requires
        removal.no_duplicates(),
    ensures
        taken_trackers(held, removal).len() == removal.len(),
        forall|j: int|
            0 <= j < removal.len() ==> #[trigger] taken_trackers(held, removal)[j] == (if held.contains_key(
                removal[j],
            ) {
                Some(held[removal[j]])
            } else {
                None
            }),
    decreases removal.len(),
{
    if removal.len() > 0 {
        let rest = removal.drop_last();
        assert(rest.no_duplicates());
        lemma_taken_were_held(held, rest);
        lemma_removed_have_no_tracker(held, rest);
        let key = removal.last();
        assert(!rest.contains(key)) by {
            if rest.contains(key) {
                let i = choose|i: int| 0 <= i < rest.len() && rest[i] == key;
                assert(removal[i] == removal[removal.len() - 1]);
            }
        }
        assert forall|j: int| 0 <= j < removal.len() implies #[trigger] taken_trackers(held, removal)[j] == (if held.contains_key(
            removal[j],
        ) {
            Some(held[removal[j]])
        } else {
            None
        }) by {
            if j < rest.len() {
                assert(taken_trackers(held, removal)[j] == taken_trackers(held, rest)[j]);
                assert(rest[j] == removal[j]);
            }
        }
    }
}

/// An endpoint holds a tracker after the starts exactly when it held one
/// before or was started.
pub proof fn lemma_with_trackers_domain<H>(held: Map<Seq<char>, H>, started: Seq<(Seq<char>, H)>)
    ensures
        forall|k: Seq<char>| #[trigger] with_trackers(held, started).contains_key(k) <==> held.contains_key(k)
            || started.map_values(|p: (Seq<char>, H)| p.0).contains(k),
    decreases started.len(),
{
    if started.len() > 0 {
        let rest = started.drop_last();
        lemma_with_trackers_domain(held, rest);
        let keys = started.map_values(|p: (Seq<char>, H)| p.0);
        let rest_keys = rest.map_values(|p: (Seq<char>, H)| p.0);
        assert(rest_keys =~= keys.drop_last());
        assert forall|k: Seq<char>| #[trigger] with_trackers(held, started).contains_key(k) <==> held.contains_key(k)
            || keys.contains(k) by {
            assert(with_trackers(held, rest).contains_key(k) <==> held.contains_key(k) || rest_keys.contains(k));
            assert(with_trackers(held, started) == with_trackers(held, rest).insert(started.last().0, started.last().1));
            if keys.contains(k) && k != started.last().0 {
                let i = choose|i: int| 0 <= i < keys.len() && keys[i] == k;
                assert(i != keys.len() - 1);
                assert(rest_keys[i] == k);
            }
            if rest_keys.contains(k) {
                let i = choose|i: int| 0 <= i < rest_keys.len() && rest_keys[i] == k;
                assert(keys[i] == k);
            }
            assert(keys[keys.len() - 1] == started.last().0);
        }
    }
}

/// An endpoint holds a tracker after the removals exactly when it held one
/// before and was not removed.
pub proof fn lemma_without_trackers_domain<H>(held: Map<Seq<char>, H>, removal: Seq<Seq<char>>)
    ensures
        forall|k: Seq<char>| #[trigger] without_trackers(held, removal).contains_key(k) <==> held.contains_key(k)
            && !removal.contains(k),
{
    lemma_removed_have_no_tracker(held, removal);
    assert forall|k: Seq<char>| #[trigger] without_trackers(held, removal).contains_key(k) <==> held.contains_key(k)
        && !removal.contains(k) by {
        if !removal.contains(k) {
            assert(without_trackers(held, removal).contains_key(k) == held.contains_key(k));
        }
    }
}

/// When the manager held a tracker for exactly the endpoints that the
/// resolver had resolved, and it starts a tracker for each endpoint of the
/// resolver's next event and removes those the event removes, it then holds a
/// tracker for exactly the endpoints that the resolver now holds.
pub proof fn lemma_trackers_follow_resolution<H>(
    held: Map<Seq<char>, H>,
    known: Seq<Seq<char>>,
    latest: Seq<Seq<char>>,
    started: Seq<(Seq<char>, H)>,
)
    requires
        known.no_duplicates(),
        forall|k: Seq<char>| #[trigger] held.contains_key(k) <==> known.contains(k),
        started.map_values(|p: (Seq<char>, H)| p.0) == fresh(still_present(known, latest), latest),
    ensures
        forall|k: Seq<char>|
            #[trigger] without_trackers(with_trackers(held, started), gone(known, latest)).contains_key(k)
                <==> (still_present(known, latest) + fresh(still_present(known, latest), latest)).contains(k),
{
    let kept = still_present(known, latest);
    let added = fresh(kept, latest);
    let removed = gone(known, latest);
    let grown = with_trackers(held, started);
    lemma_with_trackers_domain(held, started);
    lemma_without_trackers_domain(grown, removed);
    lemma_round_outcome(known, latest);
    lemma_still_present_members(known, latest);
    lemma_fresh_members(kept, latest);
    assert forall|k: Seq<char>| #[trigger] without_trackers(grown, removed).contains_key(k) <==> (kept + added).contains(k) by {
        assert(without_trackers(grown, removed).contains_key(k) <==> grown.contains_key(k) && !removed.contains(k));
        assert(grown.contains_key(k) <==> held.contains_key(k) || added.contains(k));
        assert((kept + added).contains(k) <==> latest.contains(k));
        if added.contains(k) {
            assert(latest.contains(k));
        }
        if latest.contains(k) && !added.contains(k) {
            assert((kept + added).contains(k));
            let i = choose|i: int| 0 <= i < (kept + added).len() && (kept + added)[i] == k;
            if i >= kept.len() {
                assert(added[i - kept.len()] == k);
            }
            assert(kept.contains(k));
        }
    }
}

/// Leaving endpoints out repeats none that was not repeated.
pub proof fn lemma_without_unique(ids: Seq<Seq<char>>, removal: Seq<Seq<char>>)
    requires
        ids.no_duplicates(),
    ensures
        without(ids, removal).no_duplicates(),
    decreases ids.len(),
{
    if ids.len() > 0 {
        let rest = ids.drop_last();
        assert(rest.no_duplicates()) by {
            assert forall|a: int, b: int| 0 <= a < rest.len() && 0 <= b < rest.len() && a != b implies rest[a] != rest[b] by {
                assert(ids[a] != ids[b]);
            }
        }
        lemma_without_unique(rest, removal);
        lemma_merge_members(Seq::empty(), rest, removal);
        let p = without(rest, removal);
        let x = ids.last();
        if !removal.contains(x) {
            assert(!p.contains(x)) by {
                if p.contains(x) {
                    assert((Seq::<Seq<char>>::empty() + p) =~= p);
                    assert(rest.contains(x));
                    let k = choose|k: int| 0 <= k < rest.len() && rest[k] == x;
                    assert(ids[k] == ids[ids.len() - 1]);
                }
            }
            let q = p.push(x);
            assert forall|a: int, b: int| 0 <= a < q.len() && 0 <= b < q.len() && a != b implies q[a] != q[b] by {
                if a == p.len() {
                    assert(p[b] != x);
                } else if b == p.len() {
                    assert(p[a] != x);
                }
            }
        }
    }
}

/// The list published after a resolution lists, each once, exactly the
/// endpoints that then hold a tracker, provided that this was so of the
/// existing list before, and that the started endpoints are not repeated, not
/// already listed and not removed.
pub proof fn lemma_published_matches_trackers<H>(
    held: Map<Seq<char>, H>,
    existing: Seq<Seq<char>>,
    started: Seq<(Seq<char>, H)>,
    removal: Seq<Seq<char>>,
)
    requires
        existing.no_duplicates(),
        forall|k: Seq<char>| #[trigger] held.contains_key(k) <==> existing.contains(k),
        started_keys(started).no_duplicates(),
        forall|k: Seq<char>|
            #[trigger] started_keys(started).contains(k) ==> !existing.contains(k)
                && !removal.contains(k),
    ensures
        (started_keys(started) + without(existing, removal)).no_duplicates(),
        forall|k: Seq<char>|
            #[trigger] (started_keys(started) + without(existing, removal)).contains(k)
                <==> without_trackers(with_trackers(held, started), removal).contains_key(k),
{
    let keys = started_keys(started);
    let kept = without(existing, removal);
    let all = keys + kept;
    lemma_without_unique(existing, removal);
    lemma_merge_members(keys, existing, removal);
    lemma_merge_members(Seq::empty(), existing, removal);
    assert((Seq::<Seq<char>>::empty() + kept) =~= kept);
    lemma_with_trackers_domain(held, started);
    lemma_without_trackers_domain(with_trackers(held, started), removal);
    assert forall|a: int, b: int| 0 <= a < all.len() && 0 <= b < all.len() && a != b implies all[a] != all[b] by {
        if a < keys.len() && b >= keys.len() {
            assert(keys.contains(all[a]));
            assert(kept.contains(all[b]));
        } else if b < keys.len() && a >= keys.len() {
            assert(keys.contains(all[b]));
            assert(kept.contains(all[a]));
        }
    }
}

/// When the existing list held, each once, exactly the endpoints that the
/// resolver had resolved, the list published after the resolver's next event
/// holds, each once, exactly the endpoints that the resolver now holds.
pub proof fn lemma_published_follows_resolution(
    existing: Seq<Seq<char>>,
    known: Seq<Seq<char>>,
    latest: Seq<Seq<char>>,
)
    requires
        existing.no_duplicates(),
        known.no_duplicates(),
        forall|k: Seq<char>| #[trigger] existing.contains(k) <==> known.contains(k),
    ensures
        (fresh(still_present(known, latest), latest) + without(existing, gone(known, latest))).no_duplicates(),
        forall|k: Seq<char>|
            #[trigger] (fresh(still_present(known, latest), latest) + without(existing, gone(known, latest))).contains(k)
                <==> (still_present(known, latest) + fresh(still_present(known, latest), latest)).contains(k),
{
    let kept = still_present(known, latest);
    let added = fresh(kept, latest);
    let removed = gone(known, latest);
    let left = without(existing, removed);
    let all = added + left;
    lemma_round_outcome(known, latest);
    lemma_still_present_members(known, latest);
    lemma_fresh_members(kept, latest);
    lemma_gone_members(known, latest);
    lemma_without_unique(existing, removed);
    lemma_merge_members(added, existing, removed);
    lemma_merge_members(Seq::empty(), existing, removed);
    assert((Seq::<Seq<char>>::empty() + left) =~= left);
    assert forall|k: Seq<char>| #[trigger] left.contains(k) <==> kept.contains(k) by {}
    assert forall|a: int, b: int| 0 <= a < all.len() && 0 <= b < all.len() && a != b implies all[a] != all[b] by {
        if a < added.len() && b >= added.len() {
            assert(added.contains(all[a]));
            assert(left.contains(all[b]));
        } else if b < added.len() && a >= added.len() {
            assert(added.contains(all[b]));
            assert(left.contains(all[a]));
        }
    }
    assert forall|k: Seq<char>| #[trigger] all.contains(k) <==> (kept + added).contains(k) by {
        assert(all.contains(k) <==> added.contains(k) || left.contains(k));
        if (kept + added).contains(k) {
            let i = choose|i: int| 0 <= i < (kept + added).len() && (kept + added)[i] == k;
            if i < kept.len() {
                assert(kept.contains(k));
            } else {
                assert(added[i - kept.len()] == k);
            }
        }
        if kept.contains(k) {
            let i = choose|i: int| 0 <= i < kept.len() && kept[i] == k;
            assert((kept + added)[i] == k);
        }
        if added.contains(k) {
            let i = choose|i: int| 0 <= i < added.len() && added[i] == k;
            assert((kept + added)[kept.len() + i] == k);
        }
    }
}

/// The upstreams kept by a resolution are the existing upstreams themselves
/// (each with its own id and its own head slot) whose endpoint is not removed,
/// in their order: exactly the existing list filtered by that condition. In
/// particular an upstream is kept exactly when it is an existing one that was
/// not removed.
pub proof fn lemma_kept_are_existing(existing: Seq<Upstream>, removal: Seq<Seq<char>>)
    ensures
        kept_upstreams(existing, removal) == existing.filter(|u: Upstream| !removal.contains(u.id@)),
        forall|u: Upstream|
            #[trigger] kept_upstreams(existing, removal).contains(u) <==> existing.contains(u)
                && !removal.contains(u.id@),
    decreases existing.len(),
{
    reveal_with_fuel(Seq::filter, 1);
    if existing.len() > 0 {
        let rest = existing.drop_last();
        lemma_kept_are_existing(rest, removal);
        let p = kept_upstreams(rest, removal);
        let x = existing.last();
        assert forall|u: Upstream| #[trigger] kept_upstreams(existing, removal).contains(u) <==> existing.contains(u)
            && !removal.contains(u.id@) by {
            let q = kept_upstreams(existing, removal);
            if q.contains(u) {
                let i = choose|i: int| 0 <= i < q.len() && q[i] == u;
                if !removal.contains(x.id@) && i == p.len() {
                    assert(existing[existing.len() - 1] == u);
                } else {
                    assert(p[i] == u);
                    assert(p.contains(u));
                    let j = choose|j: int| 0 <= j < rest.len() && rest[j] == u;
                    assert(existing[j] == u);
                }
            }
            if existing.contains(u) && !removal.contains(u.id@) {
                let i = choose|i: int| 0 <= i < existing.len() && existing[i] == u;
                if i == existing.len() - 1 {
                    assert(q[p.len() as int] == u);
                } else {
                    assert(rest[i] == u);
                    assert(p.contains(u));
                    let j = choose|j: int| 0 <= j < p.len() && p[j] == u;
                    assert(q[j] == u);
                }
            }
        }
    }
}

} // verus!
