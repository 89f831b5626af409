use starknet_lb::endpoint::UpstreamId;
use starknet_lb::head::{ChainHead, ConfirmedHead, PendingHead};
use starknet_lb::store::UpstreamStoreManager;
use starknet_lb::tracker::{BlockSummary, TrackerError, TrackerStep, UpstreamTracker};

fn tracker() -> UpstreamTracker {
    let upstreams =
        UpstreamStoreManager::<()>::new_upstreams(&vec![UpstreamId::parse("http://a/").unwrap()]);
    UpstreamTracker::new(upstreams[0].head.clone())
}

#[test]
fn confirmed_tip_is_published() {
    match tracker().on_tip(BlockSummary::Confirmed { block_number: 42 }) {
        TrackerStep::Publish(head) => {
            assert_eq!(head, ChainHead::Confirmed(ConfirmedHead { height: 42 }))
        }
        other => panic!("unexpected {:?}", other),
    }
}

#[test]
fn pending_tip_asks_for_its_parent() {
    match tracker().on_tip(BlockSummary::Pending { tx_count: 5 }) {
        TrackerStep::FetchParent { tx_count } => assert_eq!(tx_count, 5),
        other => panic!("unexpected {:?}", other),
    }
}

#[test]
fn pending_head_sits_one_above_its_parent() {
    let head = tracker()
        .on_parent(5, BlockSummary::Confirmed { block_number: 41 })
        .unwrap();
    match head {
        ChainHead::Pending(PendingHead { height, tx_count }) => assert_eq!((height, tx_count), (42, 5)),
        other => panic!("unexpected {:?}", other),
    }
}

#[test]
fn pending_parent_is_an_error() {
    let err = tracker()
        .on_parent(5, BlockSummary::Pending { tx_count: 1 })
        .unwrap_err();
    assert_eq!(err, TrackerError::UnexpectedPendingBlock);
    assert_eq!(err.message(), "unexpected pending block");
}
