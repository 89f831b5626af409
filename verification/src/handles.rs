use vstd::prelude::*;

use crate::endpoint::UpstreamId;

verus! {

/// Whether entry `i` of `entries` is the one for endpoint `key`.
pub open spec fn keyed_at<H>(entries: Seq<(UpstreamId, H)>, key: Seq<char>, i: int) -> bool {
    0 <= i < entries.len() && entries[i].0@ == key
}

/// Whether `handle` is held for some endpoint in `handles`.
pub open spec fn is_value_of<H>(handles: Map<Seq<char>, H>, handle: H) -> bool {
    exists|key: Seq<char>| #[trigger] handles.contains_key(key) && handles[key] == handle
}

/// The handles of the running trackers, one per upstream endpoint.
///
/// Entries are kept in a `Vec` in which no endpoint occurs twice; seen from
/// outside, the collection is a map from endpoints to handles.
pub struct TrackerHandles<H> {
    entries: Vec<(UpstreamId, H)>,
}

impl<H> View for TrackerHandles<H> {
    type V = Map<Seq<char>, H>;

    closed spec fn view(&self) -> Map<Seq<char>, H> {
        Map::new(
            |key: Seq<char>| exists|i: int| keyed_at(self.entries@, key, i),
            |key: Seq<char>| self.entries@[choose|i: int| keyed_at(self.entries@, key, i)].1,
        )
    }
}

impl<H> TrackerHandles<H> {
    /// No endpoint has two entries.
    pub closed spec fn wf(&self) -> bool {
        forall|i: int, j: int|
            0 <= i < j < self.entries@.len() ==> self.entries@[i].0@ != self.entries@[j].0@
    }

    proof fn lemma_entry_in_view(&self, i: int)
        requires
            self.wf(),
            0 <= i < self.entries@.len(),
        ensures
            self@.contains_key(self.entries@[i].0@),
            self@[self.entries@[i].0@] == self.entries@[i].1,
    {
        let key = self.entries@[i].0@;
        assert(keyed_at(self.entries@, key, i));
        let j = choose|j: int| keyed_at(self.entries@, key, j);
        assert(j == i) by {
            if j < i {
                assert(self.entries@[j].0@ != self.entries@[i].0@);
            } else if i < j {
                assert(self.entries@[i].0@ != self.entries@[j].0@);
            }
        }
    }

    /// No handle is held.
    pub fn new() -> (r: TrackerHandles<H>)
        ensures
            r.wf(),
            r@ == Map::<Seq<char>, H>::empty(),
    {
        let r = TrackerHandles { entries: Vec::new() };
        assert(r@ =~= Map::<Seq<char>, H>::empty());
        r
    }

    /// The index of the entry for `id`'s endpoint, if there is one.
    fn position_of(&self, id: &UpstreamId) -> (r: Option<usize>)
        ensures
            match r {
                Some(i) => keyed_at(self.entries@, id@, i as int),
                None => forall|i: int| !keyed_at(self.entries@, id@, i),
            },
    {
        let mut i: usize = 0;
        while i < self.entries.len()
            invariant
                i <= self.entries@.len(),
                forall|t: int| 0 <= t < i ==> !keyed_at(self.entries@, id@, t),
            decreases self.entries@.len() - i,
        {
            if self.entries[i].0.same_endpoint(id) {
                return Some(i);
            }
            i = i + 1;
        }
        None
    }

    /// Records `handle` for `id`'s endpoint; a handle already held for that
    /// endpoint is dropped.
    pub fn insert(&mut self, id: UpstreamId, handle: H)
        requires
            old(self).wf(),
        ensures
            final(self).wf(),
            final(self)@ == old(self)@.insert(id@, handle),
    {
        let ghost key = id@;
        let ghost before = self.entries@;
        match self.position_of(&id) {
            Some(i) => {
                let _ = self.entries.set(i, (id, handle));
                assert(self.wf()) by {
                    assert forall|a: int, b: int| 0 <= a < b < self.entries@.len() implies
                        self.entries@[a].0@ != self.entries@[b].0@ by {
                        assert(before[a].0@ != before[b].0@);
                    }
                }
                assert forall|k: Seq<char>| #[trigger] self@.contains_key(k) == old(self)@.insert(key, handle).contains_key(k) by {
                    if k == key {
                        assert(keyed_at(self.entries@, k, i as int));
                    } else if old(self)@.contains_key(k) {
                        let j = choose|j: int| keyed_at(before, k, j);
                        assert(keyed_at(self.entries@, k, j));
                    } else if self@.contains_key(k) {
                        let j = choose|j: int| keyed_at(self.entries@, k, j);
                        assert(keyed_at(before, k, j));
                    }
                }
                assert forall|k: Seq<char>| #[trigger] self@.contains_key(k) implies self@[k] == old(self)@.insert(key, handle)[k] by {
                    let j = choose|j: int| keyed_at(self.entries@, k, j);
                    self.lemma_entry_in_view(j);
                    if k == key {
                        self.lemma_entry_in_view(i as int);
                    } else {
                        assert(keyed_at(before, k, j));
                        old(self).lemma_entry_in_view(j);
                    }
                }
                assert(self@ =~= old(self)@.insert(key, handle));
            },
            None => {
                self.entries.push((id, handle));
                let ghost n: int = self.entries@.len() - 1;
                assert(self.wf()) by {
                    assert forall|a: int, b: int| 0 <= a < b < self.entries@.len() implies
                        self.entries@[a].0@ != self.entries@[b].0@ by {
                        if b == n {
                            assert(!keyed_at(before, key, a));
                        } else {
                            assert(before[a].0@ != before[b].0@);
                        }
                    }
                }
                assert forall|k: Seq<char>| #[trigger] self@.contains_key(k) == old(self)@.insert(key, handle).contains_key(k) by {
                    if k == key {
                        assert(keyed_at(self.entries@, k, n));
                    } else if old(self)@.contains_key(k) {
                        let j = choose|j: int| keyed_at(before, k, j);
                        assert(keyed_at(self.entries@, k, j));
                    } else if self@.contains_key(k) {
                        let j = choose|j: int| keyed_at(self.entries@, k, j);
                        assert(keyed_at(before, k, j));
                    }
                }
                assert forall|k: Seq<char>| #[trigger] self@.contains_key(k) implies self@[k] == old(self)@.insert(key, handle)[k] by {
                    let j = choose|j: int| keyed_at(self.entries@, k, j);
                    self.lemma_entry_in_view(j);
                    if k == key {
                        self.lemma_entry_in_view(n);
                    } else {
                        assert(keyed_at(before, k, j));
                        old(self).lemma_entry_in_view(j);
                    }
                }
                assert(self@ =~= old(self)@.insert(key, handle));
            },
        }
    }

    /// Takes out the handle held for `id`'s endpoint, if any.
    pub fn remove(&mut self, id: &UpstreamId) -> (r: Option<H>)
        requires
            old(self).wf(),
        ensures
            final(self).wf(),
            final(self)@ == old(self)@.remove(id@),
            r == (if old(self)@.contains_key(id@) {
                Some(old(self)@[id@])
            } else {
                None
            }),
    {
        let ghost key = id@;
        let ghost before = self.entries@;
        match self.position_of(id) {
            Some(i) => {
                proof {
                    old(self).lemma_entry_in_view(i as int);
                }
                let (_, handle) = self.entries.remove(i);
                assert(self.wf()) by {
                    assert forall|a: int, b: int| 0 <= a < b < self.entries@.len() implies
                        self.entries@[a].0@ != self.entries@[b].0@ by {
                        let a0 = if a < i { a } else { a + 1 };
                        let b0 = if b < i { b } else { b + 1 };
                        assert(before[a0].0@ != before[b0].0@);
                    }
                }
                assert forall|k: Seq<char>| #[trigger] self@.contains_key(k) == old(self)@.remove(key).contains_key(k) by {
                    if old(self)@.contains_key(k) && k != key {
                        let j = choose|j: int| keyed_at(before, k, j);
                        assert(j != i);
                        let j1 = if j < i { j } else { j - 1 };
                        assert(keyed_at(self.entries@, k, j1));
                    }
                    if self@.contains_key(k) {
                        let j = choose|j: int| keyed_at(self.entries@, k, j);
                        let j0 = if j < i { j } else { j + 1 };
                        assert(keyed_at(before, k, j0));
                        assert(j0 != i);
                        assert(before[j0].0@ != before[i as int].0@) by {
                            if j0 < i {
                            } else {
                            }
                        }
                    }
                }
                assert forall|k: Seq<char>| #[trigger] self@.contains_key(k) implies self@[k] == old(self)@.remove(key)[k] by {
                    let j = choose|j: int| keyed_at(self.entries@, k, j);
                    self.lemma_entry_in_view(j);
                    let j0 = if j < i { j } else { j + 1 };
                    assert(keyed_at(before, k, j0));
                    old(self).lemma_entry_in_view(j0);
                }
                assert(self@ =~= old(self)@.remove(key));
                Some(handle)
            },
            None => {
                assert(!old(self)@.contains_key(key));
                assert(self@ =~= old(self)@.remove(key));
                None
            },
        }
    }

    /// All held handles.
    pub fn into_values(self) -> (r: Vec<H>)
        requires
            self.wf(),
        ensures
            forall|k: Seq<char>| #[trigger] self@.contains_key(k) ==> r@.contains(self@[k]),
            forall|i: int| 0 <= i < r@.len() ==> is_value_of(self@, #[trigger] r@[i]),
    {
        let ghost all = self.entries@;
        let ghost view = self@;
        proof {
            assert forall|j: int| 0 <= j < all.len() implies #[trigger] view.contains_key(all[j].0@)
                && view[all[j].0@] == all[j].1 by {
                self.lemma_entry_in_view(j);
            }
        }
        let mut entries = self.entries;
        let mut values: Vec<H> = Vec::new();
        let ghost mut origin: Seq<int> = Seq::empty();
        while entries.len() > 0
            invariant
                entries@ == all.take(entries@.len() as int),
                entries@.len() <= all.len(),
                forall|j: int| entries@.len() <= j < all.len() ==> values@.contains(#[trigger] all[j].1),
                origin.len() == values@.len(),
                forall|t: int|
                    0 <= t < values@.len() ==> entries@.len() <= #[trigger] origin[t] < all.len()
                        && all[origin[t]].1 == values@[t],
            decreases entries@.len(),
        {
            let ghost before = values@;
            let ghost n: int = entries@.len() - 1;
            let (_, handle) = entries.pop().unwrap();
            values.push(handle);
            proof {
                origin = origin.push(n);
            }
            assert(entries@ =~= all.take(entries@.len() as int));
            assert(values@[values@.len() - 1] == all[n].1);
            assert forall|j: int| entries@.len() <= j < all.len() implies values@.contains(#[trigger] all[j].1) by {
                if j == n {
                    assert(values@[values@.len() - 1] == all[j].1);
                } else {
                    let t = choose|t: int| 0 <= t < before.len() && before[t] == all[j].1;
                    assert(values@[t] == all[j].1);
                }
            }
            assert forall|t: int| 0 <= t < values@.len() implies entries@.len() <= #[trigger] origin[t] < all.len()
                && all[origin[t]].1 == values@[t] by {
                if t < values@.len() - 1 {
                    assert(values@[t] == before[t]);
                }
            }
        }
        proof {
            assert forall|k: Seq<char>| #[trigger] self@.contains_key(k) implies values@.contains(self@[k]) by {
                let j = choose|j: int| keyed_at(all, k, j);
                assert(values@.contains(all[j].1));
            }
            assert forall|t: int| 0 <= t < values@.len() implies is_value_of(self@, #[trigger] values@[t]) by {
                let j = origin[t];
                assert(self@.contains_key(all[j].0@));
                assert(self@[all[j].0@] == values@[t]);
            }
        }
        values
    }
}

} // verus!
