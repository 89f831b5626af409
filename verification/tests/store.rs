use starknet_lb::endpoint::UpstreamId;
use starknet_lb::head::{ChainHead, ConfirmedHead, PendingHead};
use starknet_lb::routing::{caught_up_indices, eligible_upstreams, newest_head};
use starknet_lb::store::{choose_upstream, endpoint_at, listed, merge_upstreams, Upstream, UpstreamStoreManager};
use starknet_lb::tracker::{BlockSummary, TrackerStep, UpstreamTracker};

fn id(s: &str) -> UpstreamId {
    UpstreamId::parse(s).unwrap()
}

fn confirmed(height: u64) -> ChainHead {
    ChainHead::Confirmed(ConfirmedHead { height })
}

fn pending(height: u64, tx_count: usize) -> ChainHead {
    ChainHead::Pending(PendingHead { height, tx_count })
}

/// Applies a resolution and publishes the resulting list, as the manager's
/// task does.
fn apply<H>(
    manager: &mut UpstreamStoreManager<H>,
    started: Vec<(Upstream, H)>,
    removal: &Vec<UpstreamId>,
) -> Vec<Option<H>> {
    let store = manager.store();
    let existing = store.upstreams();
    let (list, removed) = manager.apply_resolution(started, &existing, removal);
    store.publish(list);
    removed
}

fn ids(upstreams: &[Upstream]) -> Vec<String> {
    upstreams.iter().map(|u| u.id.endpoint.clone()).collect()
}

#[test]
fn upstream_id_parses_and_normalizes() {
    assert_eq!(id("HTTP://Node.Example:80/rpc").endpoint, "http://node.example/rpc");
    assert!(UpstreamId::parse("relative/path").is_none());
    assert!(id("http://a/").same_endpoint(&id("http://A")));
    assert!(!id("http://a/").same_endpoint(&id("http://b/")));
}

#[test]
fn listed_compares_endpoints() {
    let list = vec![id("http://a/"), id("http://b/")];
    assert!(listed(&list, &id("http://b")));
    assert!(!listed(&list, &id("http://c")));
}

#[test]
fn newest_head_picks_the_last_of_equal_heads() {
    assert!(newest_head(&vec![None, None]).is_none());
    let heads = vec![Some(confirmed(4)), None, Some(pending(5, 0)), Some(confirmed(3))];
    match newest_head(&heads) {
        Some(ChainHead::Pending(p)) => assert_eq!((p.height, p.tx_count), (5, 0)),
        other => panic!("unexpected {:?}", other),
    }
    assert_eq!(newest_head(&vec![Some(confirmed(1)), Some(pending(2, 3))]), Some(pending(2, 3)));
}

#[test]
fn only_upstreams_at_the_newest_head_are_eligible() {
    let heads = vec![
        Some(confirmed(10)),
        Some(pending(11, 2)),
        None,
        Some(pending(11, 2)),
        Some(pending(11, 1)),
    ];
    assert_eq!(eligible_upstreams(&heads, &heads), vec![1, 3]);
    assert_eq!(caught_up_indices(&heads, confirmed(10)), vec![0, 1, 3, 4]);
    assert!(eligible_upstreams(&vec![None, None], &heads).is_empty());
}

#[test]
fn heads_read_again_are_tested_against_the_first_newest() {
    let reported = vec![Some(confirmed(5)), Some(confirmed(6))];
    let current = vec![Some(confirmed(7)), Some(confirmed(5))];
    assert_eq!(eligible_upstreams(&reported, &current), vec![0]);
}

#[test]
fn merge_puts_added_first_and_drops_removed() {
    let existing = UpstreamStoreManager::<u8>::new_upstreams(&vec![id("http://a/"), id("http://b/"), id("http://c/")]);
    let added = UpstreamStoreManager::<u8>::new_upstreams(&vec![id("http://d/")]);
    let merged = merge_upstreams(added, &existing, &vec![id("http://b/")]);
    assert_eq!(
        ids(&merged),
        vec!["http://d/".to_string(), "http://a/".to_string(), "http://c/".to_string()]
    );
}

#[test]
fn manager_keeps_one_handle_per_upstream() {
    let mut manager: UpstreamStoreManager<u32> = UpstreamStoreManager::new();
    let added = UpstreamStoreManager::<u32>::new_upstreams(&vec![id("http://a/"), id("http://b/")]);
    let started: Vec<(Upstream, u32)> = added.into_iter().zip(vec![1, 2]).collect();
    let removed = apply(&mut manager, started, &vec![]);
    assert!(removed.is_empty());

    let again = UpstreamStoreManager::<u32>::new_upstreams(&vec![id("http://c/")]);
    let started: Vec<(Upstream, u32)> = again.into_iter().zip(vec![3]).collect();
    let removed = apply(&mut manager, started, &vec![id("http://a/"), id("http://z/")]);
    assert_eq!(removed, vec![Some(1), None]);

    let mut handles = manager.into_tracker_handles();
    handles.sort();
    assert_eq!(handles, vec![2, 3]);
}

#[test]
fn restarted_tracker_replaces_the_old_handle() {
    let mut manager: UpstreamStoreManager<u32> = UpstreamStoreManager::new();
    let first = UpstreamStoreManager::<u32>::new_upstreams(&vec![id("http://a/")]);
    apply(&mut manager, first.into_iter().zip(vec![1]).collect(), &vec![]);
    let second = UpstreamStoreManager::<u32>::new_upstreams(&vec![id("http://a/")]);
    apply(&mut manager, second.into_iter().zip(vec![7]).collect(), &vec![]);
    let removed = apply(&mut manager, vec![], &vec![id("http://a/")]);
    assert_eq!(removed, vec![Some(7)]);
    assert!(manager.into_tracker_handles().is_empty());
}

#[test]
fn store_routes_to_the_upstream_at_the_newest_head() {
    let mut manager: UpstreamStoreManager<u32> = UpstreamStoreManager::new();
    let store = manager.store();
    assert_eq!(store.get_upstream().0, None);

    let added = UpstreamStoreManager::<u32>::new_upstreams(&vec![id("http://a/"), id("http://b/")]);
    let trackers: Vec<UpstreamTracker> = added.iter().map(UpstreamTracker::for_upstream).collect();
    apply(&mut manager, added.into_iter().zip(vec![1, 2]).collect(), &vec![]);

    // No head known yet: no upstream is available.
    assert_eq!(store.get_upstream().0, None);

    match trackers[0].on_tip(BlockSummary::Confirmed { block_number: 10 }) {
        TrackerStep::Publish(head) => trackers[0].publish(head),
        other => panic!("unexpected {:?}", other),
    }
    assert_eq!(store.get_upstream().0, Some("http://a/".to_string()));

    trackers[1].publish(trackers[1].on_parent(3, BlockSummary::Confirmed { block_number: 10 }).unwrap());
    for _ in 0..20 {
        assert_eq!(store.get_upstream().0, Some("http://b/".to_string()));
    }

    trackers[0].publish(trackers[0].on_parent(3, BlockSummary::Confirmed { block_number: 10 }).unwrap());
    let mut seen = vec![];
    for _ in 0..200 {
        let chosen = store.get_upstream().0.unwrap();
        if !seen.contains(&chosen) {
            seen.push(chosen);
        }
    }
    seen.sort();
    assert_eq!(seen, vec!["http://a/".to_string(), "http://b/".to_string()]);

    // Removing an upstream takes it out of routing.
    apply(&mut manager, vec![], &vec![id("http://b/")]);
    for _ in 0..20 {
        assert_eq!(store.get_upstream().0, Some("http://a/".to_string()));
    }
}

#[test]
fn choose_upstream_goes_to_the_newest_head() {
    let upstreams = UpstreamStoreManager::<u8>::new_upstreams(&vec![
        id("http://a/"),
        id("http://b/"),
        id("http://c/"),
    ]);
    let heads = vec![Some(confirmed(10)), Some(pending(6, 5)), None];
    assert_eq!(choose_upstream(&upstreams, &heads, &heads), Some("http://a/".to_string()));
    let none = vec![None, None, None];
    assert_eq!(choose_upstream(&upstreams, &none, &none), None);
    // The newest reported head is pending 6 with 5 transactions, but by the
    // second reading that upstream has no head any more.
    let reported = vec![None, Some(pending(6, 5)), None];
    let current = vec![Some(confirmed(4)), None, None];
    assert_eq!(choose_upstream(&upstreams, &reported, &current), None);
}

#[test]
fn new_manager_routes_nowhere() {
    let manager: UpstreamStoreManager<u8> = UpstreamStoreManager::new();
    assert!(manager.store().upstreams().is_empty());
    assert_eq!(manager.store().get_upstream().0, None);
}

#[test]
fn resolution_publishes_added_then_kept_with_their_heads() {
    let mut manager: UpstreamStoreManager<u8> = UpstreamStoreManager::new();
    let first = UpstreamStoreManager::<u8>::new_upstreams(&vec![id("http://a/"), id("http://b/")]);
    let tracker_a = UpstreamTracker::for_upstream(&first[0]);
    apply(&mut manager, first.into_iter().zip(vec![1, 2]).collect(), &vec![]);
    tracker_a.publish(confirmed(3));
    let second = UpstreamStoreManager::<u8>::new_upstreams(&vec![id("http://c/")]);
    apply(&mut manager, second.into_iter().zip(vec![3]).collect(), &vec![id("http://b/")]);
    let published = manager.store().upstreams();
    assert_eq!(ids(&published), vec!["http://c/".to_string(), "http://a/".to_string()]);
    // The kept upstream keeps the slot its tracker publishes into.
    assert_eq!(manager.store().get_upstream().0, Some("http://a/".to_string()));
}

#[test]
fn the_draw_picks_that_position_among_the_eligible() {
    let upstreams = UpstreamStoreManager::<u8>::new_upstreams(&vec![
        id("http://a/"),
        id("http://b/"),
        id("http://c/"),
    ]);
    let heads = vec![Some(pending(7, 1)), Some(confirmed(3)), Some(pending(7, 1))];
    let available = eligible_upstreams(&heads, &heads);
    assert_eq!(available, vec![0, 2]);
    assert_eq!(endpoint_at(&upstreams, &available, 0), "http://a/");
    assert_eq!(endpoint_at(&upstreams, &available, 1), "http://c/");
}
