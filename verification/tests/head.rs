use std::cmp::Ordering;

use starknet_lb::head::{ChainHead, ConfirmedHead, PendingHead};

fn confirmed(height: u64) -> ChainHead {
    ChainHead::Confirmed(ConfirmedHead { height })
}

fn pending(height: u64, tx_count: usize) -> ChainHead {
    ChainHead::Pending(PendingHead { height, tx_count })
}

#[test]
fn empty_pending_block_equals_its_parent() {
    assert_eq!(confirmed(10), pending(11, 0));
    assert_eq!(pending(11, 0), confirmed(10));
    assert_eq!(confirmed(10).cmp(&pending(11, 0)), Ordering::Equal);
    assert_eq!(pending(11, 0).cmp(&confirmed(10)), Ordering::Equal);
}

#[test]
fn pending_block_with_transactions_is_ahead_of_its_parent() {
    assert!(confirmed(10) < pending(11, 1));
    assert!(pending(11, 1) > confirmed(10));
    assert_ne!(confirmed(10), pending(11, 1));
    assert_eq!(confirmed(10).cmp(&pending(11, 3)), Ordering::Less);
}

#[test]
fn pending_block_is_behind_the_next_confirmation() {
    assert!(pending(11, 500) < confirmed(11));
    assert_eq!(confirmed(11).cmp(&pending(11, 500)), Ordering::Greater);
}

#[test]
fn confirmed_heads_order_by_height() {
    assert!(confirmed(3) < confirmed(4));
    assert_eq!(confirmed(4).cmp(&confirmed(4)), Ordering::Equal);
    assert_eq!(confirmed(5).partial_cmp(&confirmed(4)), Some(Ordering::Greater));
    assert_eq!(ConfirmedHead { height: 7 }, ConfirmedHead { height: 7 });
    assert_ne!(ConfirmedHead { height: 7 }, ConfirmedHead { height: 8 });
}

#[test]
fn pending_heads_order_by_height_then_transactions() {
    assert!(pending(5, 9) < pending(6, 0));
    assert!(pending(6, 1) < pending(6, 2));
    assert_eq!(pending(6, 2), pending(6, 2));
    assert_eq!(PendingHead { height: 6, tx_count: 2 }.cmp(&PendingHead { height: 6, tx_count: 1 }), Ordering::Greater);
}

#[test]
fn cross_kind_comparisons_of_components() {
    let c = ConfirmedHead { height: 20 };
    assert_eq!(PendingHead { height: 21, tx_count: 0 }, c);
    assert_eq!(c, PendingHead { height: 21, tx_count: 0 });
    assert_eq!(PendingHead { height: 21, tx_count: 4 }.partial_cmp(&c), Some(Ordering::Greater));
    assert_eq!(PendingHead { height: 20, tx_count: 4 }.partial_cmp(&c), Some(Ordering::Less));
    assert_eq!(PendingHead { height: 0, tx_count: 0 }.partial_cmp(&ConfirmedHead { height: 0 }), Some(Ordering::Less));
    assert_eq!(c.partial_cmp(&PendingHead { height: 22, tx_count: 0 }), Some(Ordering::Less));
    assert_ne!(PendingHead { height: 0, tx_count: 0 }, ConfirmedHead { height: u64::MAX });
    assert_eq!(
        ConfirmedHead { height: u64::MAX }.partial_cmp(&PendingHead { height: u64::MAX, tx_count: 1 }),
        Some(Ordering::Greater)
    );
}

#[test]
fn comparison_is_antisymmetric_and_transitive_on_samples() {
    let heads = [
        confirmed(0),
        confirmed(1),
        pending(1, 0),
        pending(1, 2),
        pending(2, 0),
        pending(2, 5),
        confirmed(2),
        pending(3, 1),
    ];
    for a in heads.iter() {
        for b in heads.iter() {
            assert_eq!(a.cmp(b), b.cmp(a).reverse());
            assert_eq!(a.partial_cmp(b), Some(a.cmp(b)));
            assert_eq!(a == b, a.cmp(b) == Ordering::Equal);
            for c in heads.iter() {
                if a.cmp(b) != Ordering::Greater && b.cmp(c) != Ordering::Greater {
                    assert_ne!(a.cmp(c), Ordering::Greater);
                }
            }
        }
    }
}

#[test]
fn is_behind_is_strictly_older() {
    assert!(confirmed(1).is_behind(&pending(2, 1)));
    assert!(!confirmed(1).is_behind(&pending(2, 0)));
    assert!(!pending(2, 0).is_behind(&confirmed(1)));
}
