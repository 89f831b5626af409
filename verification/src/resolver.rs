//! Turns upstream specifications into the current set of upstreams, and works
//! out what changed since the previous round.

use vstd::prelude::*;

use crate::cli::UpstreamSpec;
use crate::endpoint::{url_serialization, UpstreamId};
use crate::store::{endpoints_of, listed, UpstreamResolvedEvent};

verus! {

/// Why a round of resolution failed.
pub enum ResolveError {
    /// An address that a DNS name resolved to gave this URL, which is no valid URL.
    InvalidUrl(String),
}

/// The scheme prefix of the URL built for a resolved address.
pub open spec fn http_prefix() -> Seq<char> {
    seq!['h', 't', 't', 'p', ':', '/', '/']
}

/// The URL for a resolved socket address, under the DNS specification's path.
pub open spec fn address_url(address: Seq<char>, path: Seq<char>) -> Seq<char> {
    http_prefix() + address + path
}

/// The endpoints of the resolved `addresses`, in order; `None` when the URL
/// built for one of them does not parse.
pub open spec fn address_endpoints(addresses: Seq<Seq<char>>, path: Seq<char>) -> Option<Seq<Seq<char>>>
    decreases addresses.len(),
{
    if addresses.len() == 0 {
        Some(Seq::empty())
    } else {
        match (
            address_endpoints(addresses.drop_last(), path),
            url_serialization(address_url(addresses.last(), path)),
        ) {
            (Some(prefix), Some(url)) => Some(prefix.push(url)),
            _ => None,
        }
    }
}

/// The endpoints that one specification stands for, given what its DNS
/// lookup returned (`None`: the name did not resolve, and gives no endpoint).
pub open spec fn spec_endpoints(spec: UpstreamSpec, lookup: Option<Seq<Seq<char>>>) -> Option<Seq<Seq<char>>> {
    match spec {
        UpstreamSpec::Raw(url) => Some(seq![url@]),
        UpstreamSpec::Dns(dns) => match lookup {
            None => Some(Seq::empty()),
            Some(addresses) => address_endpoints(addresses, dns.path@),
        },
    }
}

/// The result of looking up specification `i`; a lookup that was not given
/// counts as one that failed.
pub open spec fn lookup_at(lookups: Seq<Option<Seq<Seq<char>>>>, i: int) -> Option<Seq<Seq<char>>> {
    if 0 <= i < lookups.len() {
        lookups[i]
    } else {
        None
    }
}

/// The lookups, with each address taken as its text.
pub open spec fn lookups_view(lookups: Seq<Option<Vec<String>>>) -> Seq<Option<Seq<Seq<char>>>> {
    lookups.map_values(
        |l: Option<Vec<String>>| match l {
            Some(addresses) => Some(addresses@.map_values(|a: String| a@)),
            None => None,
        },
    )
}

/// The endpoints that all specifications stand for, in order; `None` when one
/// of the URLs built for a resolved address does not parse.
pub open spec fn latest_endpoints(specs: Seq<UpstreamSpec>, lookups: Seq<Option<Seq<Seq<char>>>>) -> Option<Seq<Seq<char>>>
    decreases specs.len(),
{
    if specs.len() == 0 {
        Some(Seq::empty())
    } else {
        match (
            latest_endpoints(specs.drop_last(), lookups),
            spec_endpoints(specs.last(), lookup_at(lookups, specs.len() - 1)),
        ) {
            (Some(prefix), Some(more)) => Some(prefix + more),
            _ => None,
        }
    }
}

/// The known endpoints that are still among `latest`, taken from the last to
/// the first.
pub open spec fn still_present(known: Seq<Seq<char>>, latest: Seq<Seq<char>>) -> Seq<Seq<char>>
    decreases known.len(),
{
    if known.len() == 0 {
        Seq::empty()
    } else {
        let rest = still_present(known.drop_first(), latest);
        if latest.contains(known[0]) {
            rest.push(known[0])
        } else {
            rest
        }
    }
}

/// The known endpoints that are no longer among `latest`, taken from the last
/// to the first.
pub open spec fn gone(known: Seq<Seq<char>>, latest: Seq<Seq<char>>) -> Seq<Seq<char>>
    decreases known.len(),
{
    if known.len() == 0 {
        Seq::empty()
    } else {
        let rest = gone(known.drop_first(), latest);
        if latest.contains(known[0]) {
            rest
        } else {
            rest.push(known[0])
        }
    }
}

/// The endpoints of `latest` that are neither in `kept` nor met before,
/// taken from the last to the first, each once.
pub open spec fn fresh(kept: Seq<Seq<char>>, latest: Seq<Seq<char>>) -> Seq<Seq<char>>
    decreases latest.len(),
{
    if latest.len() == 0 {
        Seq::empty()
    } else {
        let prev = fresh(kept, latest.drop_first());
        if (kept + prev).contains(latest[0]) {
            prev
        } else {
            prev.push(latest[0])
        }
    }
}

/// Keeps track of the upstreams that the specifications resolve to.
pub struct UpstreamResolver {
    upstream_specs: Vec<UpstreamSpec>,
    resolved_upstreams: Vec<UpstreamId>,
}

impl UpstreamResolver {
    /// The specifications to resolve.
    pub closed spec fn specs(&self) -> Seq<UpstreamSpec> {
        self.upstream_specs@
    }

    /// The endpoints resolved in the last successful round.
    pub closed spec fn resolved(&self) -> Seq<Seq<char>> {
        endpoints_of(self.resolved_upstreams@)
    }

    /// A resolver that has resolved nothing yet.
    pub fn new(upstream_specs: Vec<UpstreamSpec>) -> (r: UpstreamResolver)
        ensures
            r.specs() == upstream_specs@,
            r.resolved() == Seq::<Seq<char>>::empty(),
    {
        let r = UpstreamResolver { upstream_specs, resolved_upstreams: Vec::new() };
        assert(r.resolved() =~= Seq::<Seq<char>>::empty());
        r
    }

    /// The specifications to resolve; the caller looks up the DNS names among
    /// them before a round.
    pub fn upstream_specs(&self) -> (r: &Vec<UpstreamSpec>)
        ensures
            r@ == self.specs(),
    {
        &self.upstream_specs
    }

    /// The endpoints for the resolved addresses of one DNS specification.
    fn address_upstreams(addresses: &Vec<String>, path: &String, latest: &mut Vec<UpstreamId>) -> (r: Result<(), ResolveError>)
        ensures
            match address_endpoints(addresses@.map_values(|a: String| a@), path@) {
                Some(more) => r is Ok && endpoints_of(final(latest)@) == endpoints_of(old(latest)@) + more,
                None => r is Err,
            },
    {
        let ghost texts = addresses@.map_values(|a: String| a@);
        let ghost start = endpoints_of(latest@);
        let mut k: usize = 0;
        while k < addresses.len()
            invariant
                k <= addresses@.len(),
                texts == addresses@.map_values(|a: String| a@),
                address_endpoints(texts.take(k as int), path@) matches Some(done)
                    && endpoints_of(latest@) == start + done,
            decreases addresses@.len() - k,
        {
            assert(texts.take(k + 1).drop_last() =~= texts.take(k as int));
            let mut url = "http://".to_owned();
            proof {
                reveal_strlit("http://");
            }
            url.append(addresses[k].as_str());
            url.append(path.as_str());
            assert(url@ == address_url(texts.take(k + 1).last(), path@));
            match UpstreamId::parse(url.as_str()) {
                Some(id) => {
                    let ghost before = latest@;
                    latest.push(id);
                    assert(endpoints_of(latest@) =~= endpoints_of(before).push(id@));
                },
                None => {
                    proof {
                        lemma_address_failure_extends(texts, k as int + 1, path@);
                    }
                    return Err(ResolveError::InvalidUrl(url));
                },
            }
            k = k + 1;
        }
        assert(texts.take(addresses@.len() as int) =~= texts);
        Ok(())
    }

    /// The endpoints that the specifications stand for, given the lookups.
    fn latest_upstreams(&self, lookups: &Vec<Option<Vec<String>>>) -> (r: Result<Vec<UpstreamId>, ResolveError>)
        ensures
            match latest_endpoints(self.specs(), lookups_view(lookups@)) {
                Some(latest) => r matches Ok(v) && endpoints_of(v@) == latest,
                None => r is Err,
            },
    {
        let ghost specs = self.upstream_specs@;
        let ghost view = lookups_view(lookups@);
        let mut latest: Vec<UpstreamId> = Vec::new();
        let mut i: usize = 0;
        while i < self.upstream_specs.len()
            invariant
                i <= specs.len(),
                specs == self.upstream_specs@,
                view == lookups_view(lookups@),
                latest_endpoints(specs.take(i as int), view) == Some(endpoints_of(latest@)),
            decreases specs.len() - i,
        {
            assert(specs.take(i + 1).drop_last() =~= specs.take(i as int));
            assert(specs.take(i + 1).last() == specs[i as int]);
            let ghost before = endpoints_of(latest@);
            match &self.upstream_specs[i] {
                UpstreamSpec::Raw(url) => {
                    latest.push(UpstreamId { endpoint: url.clone() });
                    assert(endpoints_of(latest@) =~= before + seq![url@]);
                },
                UpstreamSpec::Dns(dns) => {
                    if i < lookups.len() {
                        match &lookups[i] {
                            Some(addresses) => {
                                match Self::address_upstreams(addresses, &dns.path, &mut latest) {
                                    Ok(()) => {},
                                    Err(e) => {
                                        proof {
                                            lemma_latest_failure_extends(specs, i as int + 1, view);
                                        }
                                        return Err(e);
                                    },
                                }
                            },
                            None => {
                                assert(endpoints_of(latest@) =~= before + Seq::<Seq<char>>::empty());
                            },
                        }
                    } else {
                        assert(endpoints_of(latest@) =~= before + Seq::<Seq<char>>::empty());
                    }
                },
            }
            i = i + 1;
        }
        assert(specs.take(specs.len() as int) =~= specs);
        Ok(latest)
    }

    /// One round of resolution. `lookups[i]` is what looking up the DNS name
    /// of specification `i` returned: the socket addresses it resolved to, as
    /// text, or `None` when it could not be resolved (such a name gives no
    /// upstream this round).
    ///
    /// Fails, changing nothing, when the URL built for a resolved address does
    /// not parse. Otherwise the resolved list becomes the previous endpoints
    /// still present followed by the new ones, and the returned event, if any,
    /// lists what was added and what was removed; there is an event exactly
    /// when something was.
    pub fn run_inner(&mut self, lookups: &Vec<Option<Vec<String>>>) -> (r: Result<Option<UpstreamResolvedEvent>, ResolveError>)
        ensures
            final(self).specs() == old(self).specs(),
            old(self).resolved().no_duplicates() ==> final(self).resolved().no_duplicates(),
            match latest_endpoints(old(self).specs(), lookups_view(lookups@)) {
                None => r is Err && final(self).resolved() == old(self).resolved(),
                Some(latest) => {
                    let kept = still_present(old(self).resolved(), latest);
                    let added = fresh(kept, latest);
                    let removed = gone(old(self).resolved(), latest);
                    &&& final(self).resolved() == kept + added
                    &&& r matches Ok(event) && match event {
                        Some(e) => {
                            &&& endpoints_of(e.addition@) == added
                            &&& endpoints_of(e.removal@) == removed
                            &&& (added.len() > 0 || removed.len() > 0)
                        },
                        None => added.len() == 0 && removed.len() == 0,
                    }
                },
            },
    {
        let mut latest_upstreams = match self.latest_upstreams(lookups) {
            Ok(latest) => latest,
            Err(e) => return Err(e),
        };
        let ghost latest = endpoints_of(latest_upstreams@);
        let ghost known = endpoints_of(self.resolved_upstreams@);
        let mut existing: Vec<UpstreamId> = Vec::new();
        std::mem::swap(&mut existing, &mut self.resolved_upstreams);
        let mut addition: Vec<UpstreamId> = Vec::new();
        let mut removal: Vec<UpstreamId> = Vec::new();
        let mut updated_list: Vec<UpstreamId> = Vec::new();
        assert(known.skip(known.len() as int) =~= Seq::<Seq<char>>::empty());
        while existing.len() > 0
            invariant
                endpoints_of(latest_upstreams@) == latest,
                existing@.len() <= known.len(),
                endpoints_of(existing@) == known.take(existing@.len() as int),
                endpoints_of(updated_list@) == still_present(known.skip(existing@.len() as int), latest),
                endpoints_of(removal@) == gone(known.skip(existing@.len() as int), latest),
            decreases existing@.len(),
        {
            let ghost m = existing@.len() - 1;
            let ghost whole = existing@;
            assert(endpoints_of(whole)[m] == known[m]);
            let existing_upstream = existing.pop().unwrap();
            assert(existing_upstream == whole[m]);
            assert(existing_upstream@ == known[m]);
            assert(known.skip(m).drop_first() =~= known.skip(m + 1));
            assert(known.skip(m)[0] == known[m]);
            assert(endpoints_of(existing@) =~= known.take(m));
            if !listed(&latest_upstreams, &existing_upstream) {
                let ghost before = removal@;
                removal.push(existing_upstream);
                assert(endpoints_of(removal@) =~= endpoints_of(before).push(known[m]));
            } else {
                let ghost before = updated_list@;
                updated_list.push(existing_upstream);
                assert(endpoints_of(updated_list@) =~= endpoints_of(before).push(known[m]));
            }
        }
        assert(known.skip(0) =~= known);
        let ghost kept = endpoints_of(updated_list@);
        let ghost n = latest.len();
        assert(latest.skip(n as int) =~= Seq::<Seq<char>>::empty());
        while latest_upstreams.len() > 0
            invariant
                latest_upstreams@.len() <= n,
                n == latest.len(),
                endpoints_of(latest_upstreams@) == latest.take(latest_upstreams@.len() as int),
                endpoints_of(addition@) == fresh(kept, latest.skip(latest_upstreams@.len() as int)),
                endpoints_of(updated_list@) == kept + endpoints_of(addition@),
            decreases latest_upstreams@.len(),
        {
            let ghost m = latest_upstreams@.len() - 1;
            let ghost whole = latest_upstreams@;
            assert(endpoints_of(whole)[m] == latest[m]);
            let latest_upstream = latest_upstreams.pop().unwrap();
            assert(latest_upstream == whole[m]);
            assert(latest_upstream@ == latest[m]);
            assert(latest.skip(m).drop_first() =~= latest.skip(m + 1));
            assert(latest.skip(m)[0] == latest[m]);
            assert(endpoints_of(latest_upstreams@) =~= latest.take(m));
            if !listed(&updated_list, &latest_upstream) {
                let ghost before_added = addition@;
                let ghost before_list = updated_list@;
                addition.push(latest_upstream.duplicate());
                updated_list.push(latest_upstream);
                assert(endpoints_of(addition@) =~= endpoints_of(before_added).push(latest[m]));
                assert(endpoints_of(updated_list@) =~= endpoints_of(before_list).push(latest[m]));
            }
        }
        assert(latest.skip(0) =~= latest);
        proof {
            if known.no_duplicates() {
                lemma_round_outcome(known, latest);
            }
        }
        let event = if addition.len() > 0 || removal.len() > 0 {
            Some(UpstreamResolvedEvent { addition, removal })
        } else {
            None
        };
        self.resolved_upstreams = updated_list;
        Ok(event)
    }
}

/// Once the URL of one address fails to parse, longer lists fail too.
proof fn lemma_address_failure_extends(addresses: Seq<Seq<char>>, k: int, path: Seq<char>)
    requires
        0 <= k <= addresses.len(),
        address_endpoints(addresses.take(k), path) is None,
    ensures
        address_endpoints(addresses, path) is None,
    decreases addresses.len() - k,
{
    if k < addresses.len() {
        assert(addresses.take(k + 1).drop_last() =~= addresses.take(k));
        lemma_address_failure_extends(addresses, k + 1, path);
    } else {
        assert(addresses.take(k) =~= addresses);
    }
}

/// Once one specification fails, longer lists of specifications fail too.
proof fn lemma_latest_failure_extends(specs: Seq<UpstreamSpec>, k: int, lookups: Seq<Option<Seq<Seq<char>>>>)
    requires
        0 <= k <= specs.len(),
        latest_endpoints(specs.take(k), lookups) is None,
    ensures
        latest_endpoints(specs, lookups) is None,
    decreases specs.len() - k,
{
    if k < specs.len() {
        assert(specs.take(k + 1).drop_last() =~= specs.take(k));
        lemma_latest_failure_extends(specs, k + 1, lookups);
    } else {
        assert(specs.take(k) =~= specs);
    }
}

/// The endpoints still present are exactly the known ones that are in `latest`.
pub proof fn lemma_still_present_members(known: Seq<Seq<char>>, latest: Seq<Seq<char>>)
    ensures
        forall|e: Seq<char>| #[trigger] still_present(known, latest).contains(e) <==> known.contains(e)
            && latest.contains(e),
    decreases known.len(),
{
    if known.len() > 0 {
        let rest = known.drop_first();
        lemma_still_present_members(rest, latest);
        let p = still_present(rest, latest);
        let q = still_present(known, latest);
        assert forall|e: Seq<char>| #[trigger] q.contains(e) <==> known.contains(e) && latest.contains(e) by {
            if q.contains(e) {
                let i = choose|i: int| 0 <= i < q.len() && q[i] == e;
                if latest.contains(known[0]) && i == p.len() {
                    assert(known[0] == e);
                } else {
                    assert(p[i] == e);
                    assert(p.contains(e));
                    let j = choose|j: int| 0 <= j < rest.len() && rest[j] == e;
                    assert(known[j + 1] == e);
                }
            }
            if known.contains(e) && latest.contains(e) {
                let i = choose|i: int| 0 <= i < known.len() && known[i] == e;
                if i == 0 {
                    assert(q[p.len() as int] == e);
                } else {
                    assert(rest[i - 1] == e);
                    assert(p.contains(e));
                    let j = choose|j: int| 0 <= j < p.len() && p[j] == e;
                    assert(q[j] == e);
                }
            }
        }
    }
}

/// The endpoints gone are exactly the known ones that are not in `latest`.
pub proof fn lemma_gone_members(known: Seq<Seq<char>>, latest: Seq<Seq<char>>)
    ensures
        forall|e: Seq<char>| #[trigger] gone(known, latest).contains(e) <==> known.contains(e)
            && !latest.contains(e),
    decreases known.len(),
{
    if known.len() > 0 {
        let rest = known.drop_first();
        lemma_gone_members(rest, latest);
        let p = gone(rest, latest);
        let q = gone(known, latest);
        assert forall|e: Seq<char>| #[trigger] q.contains(e) <==> known.contains(e) && !latest.contains(e) by {
            if q.contains(e) {
                let i = choose|i: int| 0 <= i < q.len() && q[i] == e;
                if !latest.contains(known[0]) && i == p.len() {
                    assert(known[0] == e);
                } else {
                    assert(p[i] == e);
                    assert(p.contains(e));
                    let j = choose|j: int| 0 <= j < rest.len() && rest[j] == e;
                    assert(known[j + 1] == e);
                }
            }
            if known.contains(e) && !latest.contains(e) {
                let i = choose|i: int| 0 <= i < known.len() && known[i] == e;
                if i == 0 {
                    assert(q[p.len() as int] == e);
                } else {
                    assert(rest[i - 1] == e);
                    assert(p.contains(e));
                    let j = choose|j: int| 0 <= j < p.len() && p[j] == e;
                    assert(q[j] == e);
                }
            }
        }
    }
}

/// Without repeated known endpoints, none is repeated among those still present.
pub proof fn lemma_still_present_unique(known: Seq<Seq<char>>, latest: Seq<Seq<char>>)
    requires
        known.no_duplicates(),
    ensures
        still_present(known, latest).no_duplicates(),
    decreases known.len(),
{
    if known.len() > 0 {
        let rest = known.drop_first();
        assert(rest.no_duplicates()) by {
            assert forall|i: int, j: int| 0 <= i < rest.len() && 0 <= j < rest.len() && i != j implies rest[i] != rest[j] by {
                assert(known[i + 1] != known[j + 1]);
            }
        }
        lemma_still_present_unique(rest, latest);
        lemma_still_present_members(rest, latest);
        if latest.contains(known[0]) {
            assert(!rest.contains(known[0])) by {
                if rest.contains(known[0]) {
                    let i = choose|i: int| 0 <= i < rest.len() && rest[i] == known[0];
                    assert(known[i + 1] == known[0]);
                }
            }
            let p = still_present(rest, latest);
            assert(!p.contains(known[0]));
            assert forall|i: int, j: int| 0 <= i < p.push(known[0]).len() && 0 <= j < p.push(known[0]).len() && i != j
                implies p.push(known[0])[i] != p.push(known[0])[j] by {
                if i == p.len() {
                    assert(p[j] != known[0]);
                } else if j == p.len() {
                    assert(p[i] != known[0]);
                }
            }
        }
    }
}

/// The new endpoints come from `latest`, are not among `kept`, are not
/// repeated, and together with `kept` they cover all of `latest`.
pub proof fn lemma_fresh_members(kept: Seq<Seq<char>>, latest: Seq<Seq<char>>)
    ensures
        forall|e: Seq<char>| #[trigger] fresh(kept, latest).contains(e) ==> latest.contains(e) && !kept.contains(e),
        forall|e: Seq<char>| latest.contains(e) ==> #[trigger] (kept + fresh(kept, latest)).contains(e),
        fresh(kept, latest).no_duplicates(),
    decreases latest.len(),
{
    if latest.len() > 0 {
        let rest = latest.drop_first();
        let prev = fresh(kept, rest);
        let x = latest[0];
        lemma_fresh_members(kept, rest);
        let all = kept + prev;
        assert forall|e: Seq<char>| #[trigger] fresh(kept, latest).contains(e) implies latest.contains(e) && !kept.contains(e) by {
            if prev.contains(e) {
                let i = choose|i: int| 0 <= i < rest.len() && rest[i] == e;
                assert(latest[i + 1] == e);
            } else {
                assert(e == x);
                assert(latest[0] == e);
                assert(!all.contains(x));
                if kept.contains(x) {
                    let i = choose|i: int| 0 <= i < kept.len() && kept[i] == x;
                    assert(all[i] == x);
                }
            }
        }
        assert forall|e: Seq<char>| latest.contains(e) implies #[trigger] (kept + fresh(kept, latest)).contains(e) by {
            let f = fresh(kept, latest);
            if e == x {
                if all.contains(x) {
                    let i = choose|i: int| 0 <= i < all.len() && all[i] == x;
                    assert((kept + f)[i] == x);
                } else {
                    assert((kept + f)[kept.len() + f.len() - 1] == x);
                }
            } else {
                let i = choose|i: int| 0 <= i < latest.len() && latest[i] == e;
                assert(rest[i - 1] == e);
                assert((kept + prev).contains(e));
                let j = choose|j: int| 0 <= j < all.len() && all[j] == e;
                assert((kept + f)[j] == e);
            }
        }
        if !all.contains(x) {
            assert(!prev.contains(x)) by {
                if prev.contains(x) {
                    let i = choose|i: int| 0 <= i < prev.len() && prev[i] == x;
                    assert(all[kept.len() + i] == x);
                }
            }
            let f = prev.push(x);
            assert forall|i: int, j: int| 0 <= i < f.len() && 0 <= j < f.len() && i != j implies f[i] != f[j] by {
                if i == prev.len() {
                    assert(prev[j] != x);
                } else if j == prev.len() {
                    assert(prev[i] != x);
                }
            }
        }
    }
}

/// After a round, the resolved endpoints are exactly the latest ones, each
/// once (provided none was repeated before); the added ones were not known
/// before, and the removed ones are exactly the known ones that are gone.
pub proof fn lemma_round_outcome(known: Seq<Seq<char>>, latest: Seq<Seq<char>>)
    requires
        known.no_duplicates(),
    ensures
        forall|e: Seq<char>|
            #[trigger] (still_present(known, latest) + fresh(still_present(known, latest), latest)).contains(e)
                <==> latest.contains(e),
        (still_present(known, latest) + fresh(still_present(known, latest), latest)).no_duplicates(),
        forall|e: Seq<char>| #[trigger] fresh(still_present(known, latest), latest).contains(e) ==> !known.contains(e),
        forall|e: Seq<char>| #[trigger] gone(known, latest).contains(e) <==> known.contains(e) && !latest.contains(e),
{
    let kept = still_present(known, latest);
    let added = fresh(kept, latest);
    lemma_still_present_members(known, latest);
    lemma_still_present_unique(known, latest);
    lemma_fresh_members(kept, latest);
    lemma_gone_members(known, latest);
    let all = kept + added;
    assert forall|e: Seq<char>| #[trigger] all.contains(e) <==> latest.contains(e) by {
        if all.contains(e) {
            let i = choose|i: int| 0 <= i < all.len() && all[i] == e;
            if i < kept.len() {
                assert(kept.contains(e));
            } else {
                assert(added[i - kept.len()] == e);
                assert(added.contains(e));
            }
        }
    }
    assert forall|i: int, j: int| 0 <= i < all.len() && 0 <= j < all.len() && i != j implies all[i] != all[j] by {
        if i < kept.len() && j >= kept.len() {
            assert(added.contains(all[j]));
            assert(kept.contains(all[i]));
        } else if j < kept.len() && i >= kept.len() {
            assert(added.contains(all[i]));
            assert(kept.contains(all[j]));
        }
    }
    assert forall|e: Seq<char>| #[trigger] added.contains(e) implies !known.contains(e) by {
        if known.contains(e) {
            assert(kept.contains(e));
        }
    }
}

/// A round that finds the same endpoints as the ones already resolved
/// changes nothing: nothing is added and nothing removed.
pub proof fn lemma_settled_round_is_quiet(known: Seq<Seq<char>>, latest: Seq<Seq<char>>)
    requires
        forall|e: Seq<char>| known.contains(e) <==> latest.contains(e),
    ensures
        fresh(still_present(known, latest), latest).len() == 0,
        gone(known, latest).len() == 0,
{
    let kept = still_present(known, latest);
    lemma_still_present_members(known, latest);
    lemma_gone_members(known, latest);
    lemma_fresh_members(kept, latest);
    let added = fresh(kept, latest);
    if added.len() > 0 {
        assert(added.contains(added[0]));
        assert(latest.contains(added[0]));
    }
    let g = gone(known, latest);
    if g.len() > 0 {
        assert(g.contains(g[0]));
    }
}

/// Whether the endpoints `e` hold what one specification stands for: a raw
/// specification's URL, or the URL of every address that its own lookup
/// returned, under its own path.
pub open spec fn holds_spec(spec: UpstreamSpec, lookup: Option<Seq<Seq<char>>>, e: Seq<Seq<char>>) -> bool {
    match spec {
        UpstreamSpec::Raw(url) => e.contains(url@),
        UpstreamSpec::Dns(dns) => match lookup {
            None => true,
            Some(addresses) => forall|k: int|
                0 <= k < addresses.len() ==> (#[trigger] url_serialization(address_url(addresses[k], dns.path@)))
                    is Some && e.contains(url_serialization(address_url(addresses[k], dns.path@))->Some_0),
        },
    }
}

/// Each resolved address gives, at its position, the URL built for it.
proof fn lemma_address_endpoints_at(addresses: Seq<Seq<char>>, path: Seq<char>)
    ensures
        address_endpoints(addresses, path) matches Some(p) ==> p.len() == addresses.len() && forall|k: int|
            0 <= k < addresses.len() ==> url_serialization(address_url(addresses[k], path)) == Some(
                #[trigger] p[k],
            ),
    decreases addresses.len(),
{
    if addresses.len() > 0 {
        let rest = addresses.drop_last();
        lemma_address_endpoints_at(rest, path);
        if let Some(p) = address_endpoints(addresses, path) {
            assert forall|k: int| 0 <= k < addresses.len() implies url_serialization(address_url(addresses[k], path))
                == Some(#[trigger] p[k]) by {
                if k < addresses.len() - 1 {
                    assert(rest[k] == addresses[k]);
                }
            }
        }
    }
}

/// What a specification contributes stays held when more endpoints follow.
proof fn lemma_holds_spec_grows(spec: UpstreamSpec, lookup: Option<Seq<Seq<char>>>, a: Seq<Seq<char>>, b: Seq<Seq<char>>)
    requires
        holds_spec(spec, lookup, a),
    ensures
        holds_spec(spec, lookup, a + b),
{
    match spec {
        UpstreamSpec::Raw(url) => {
            let i = choose|i: int| 0 <= i < a.len() && a[i] == url@;
            assert((a + b)[i] == url@);
        },
        UpstreamSpec::Dns(dns) => match lookup {
            None => {},
            Some(addresses) => {
                assert forall|k: int| 0 <= k < addresses.len() implies (#[trigger] url_serialization(
                    address_url(addresses[k], dns.path@),
                )) is Some && (a + b).contains(url_serialization(address_url(addresses[k], dns.path@))->Some_0) by {
                    let u = url_serialization(address_url(addresses[k], dns.path@))->Some_0;
                    let i = choose|i: int| 0 <= i < a.len() && a[i] == u;
                    assert((a + b)[i] == u);
                }
            },
        },
    }
}

/// Whatever a specification contributes is found among the endpoints that
/// come after those of the specifications before it.
proof fn lemma_spec_endpoints_held(spec: UpstreamSpec, lookup: Option<Seq<Seq<char>>>, prefix: Seq<Seq<char>>)
    requires
        spec_endpoints(spec, lookup) is Some,
    ensures
        holds_spec(spec, lookup, prefix + spec_endpoints(spec, lookup)->Some_0),
{
    let more = spec_endpoints(spec, lookup)->Some_0;
    match spec {
        UpstreamSpec::Raw(url) => {
            assert((prefix + more)[prefix.len() as int] == url@);
        },
        UpstreamSpec::Dns(dns) => match lookup {
            None => {},
            Some(addresses) => {
                lemma_address_endpoints_at(addresses, dns.path@);
                assert forall|k: int| 0 <= k < addresses.len() implies (#[trigger] url_serialization(
                    address_url(addresses[k], dns.path@),
                )) is Some && (prefix + more).contains(url_serialization(address_url(addresses[k], dns.path@))->Some_0) by {
                    assert(url_serialization(address_url(addresses[k], dns.path@)) == Some(more[k]));
                    assert((prefix + more)[prefix.len() + k] == more[k]);
                }
            },
        },
    }
}

/// Every specification contributes to the latest endpoints what its own
/// lookup gives: a raw specification its URL, a DNS specification at position
/// `i` the URL of each address in `lookups[i]`, under its own path.
pub proof fn lemma_each_spec_uses_its_own_lookup(specs: Seq<UpstreamSpec>, lookups: Seq<Option<Seq<Seq<char>>>>)
    ensures
        latest_endpoints(specs, lookups) matches Some(e) ==> forall|i: int|
            0 <= i < specs.len() ==> holds_spec(#[trigger] specs[i], lookup_at(lookups, i), e),
    decreases specs.len(),
{
    if specs.len() > 0 {
        let rest = specs.drop_last();
        let n = specs.len() - 1;
        lemma_each_spec_uses_its_own_lookup(rest, lookups);
        if let Some(e) = latest_endpoints(specs, lookups) {
            let prefix = latest_endpoints(rest, lookups)->Some_0;
            let more = spec_endpoints(specs.last(), lookup_at(lookups, n))->Some_0;
            assert(e == prefix + more);
            assert forall|i: int| 0 <= i < specs.len() implies holds_spec(#[trigger] specs[i], lookup_at(lookups, i), e) by {
                if i < n {
                    assert(rest[i] == specs[i]);
                    lemma_holds_spec_grows(specs[i], lookup_at(lookups, i), prefix, more);
                } else {
                    lemma_spec_endpoints_held(specs.last(), lookup_at(lookups, n), prefix);
                }
            }
        }
    }
}

/// The latest endpoints read each DNS specification's lookup at that
/// specification's own position and nowhere else: two lookup lists that agree
/// at the positions of the DNS specifications give the same endpoints.
pub proof fn lemma_latest_reads_lookups_at_dns_positions(
    specs: Seq<UpstreamSpec>,
    first: Seq<Option<Seq<Seq<char>>>>,
    second: Seq<Option<Seq<Seq<char>>>>,
)
    requires
        forall|i: int| 0 <= i < specs.len() && (#[trigger] specs[i]) is Dns ==> lookup_at(first, i) == lookup_at(second, i),
    ensures
        latest_endpoints(specs, first) == latest_endpoints(specs, second),
    decreases specs.len(),
{
    if specs.len() > 0 {
        let rest = specs.drop_last();
        assert forall|i: int| 0 <= i < rest.len() && (#[trigger] rest[i]) is Dns implies lookup_at(first, i) == lookup_at(second, i) by {
            assert(specs[i] == rest[i]);
        }
        lemma_latest_reads_lookups_at_dns_positions(rest, first, second);
        assert(specs[specs.len() - 1] == specs.last());
    }
}

} // verus!
