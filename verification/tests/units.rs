use std::cmp::Ordering;

use nft_hop::order::{compare_asc, compare_desc};
use nft_hop::store::RateStore;
use nft_hop::types::{Nft, RateCount, TokenUri, TotalStats, UserStats};

fn entry(id: &str, sum: u64, total: u64) -> (String, RateCount) {
    (String::from(id), RateCount { ts: 0, sum, total })
}

fn nft(class_id: &str) -> Nft {
    Nft {
        token: TokenUri {
            contract_addr: String::from("c1"),
            id: String::from("7"),
            data_uri: Some(String::from("ipfs://meta/7")),
        },
        class_id: String::from(class_id),
        chain_id: None,
        index: None,
    }
}

#[test]
fn comparators_rank_by_mean() {
    let tie_a = entry("a", 6, 2); // mean 3
    let tie_b = entry("b", 9, 3); // mean 3
    let top = entry("c", 10, 2); // mean 5

    // highest-first: the greater mean compares as earlier
    assert_eq!(compare_desc(&top, &tie_a), Ordering::Less);
    assert_eq!(compare_desc(&tie_a, &top), Ordering::Greater);
    assert_eq!(compare_desc(&tie_a, &tie_b), Ordering::Equal);

    // lowest-first: the mirror image
    assert_eq!(compare_asc(&top, &tie_a), Ordering::Greater);
    assert_eq!(compare_asc(&tie_a, &top), Ordering::Less);
    assert_eq!(compare_asc(&tie_b, &tie_a), Ordering::Equal);
}

#[test]
fn comparators_avoid_division_precision_loss() {
    // 7/3 vs 9/4: cross-multiplication decides 28 < 27 is false, so 7/3 ranks higher
    let a = entry("a", 7, 3);
    let b = entry("b", 9, 4);
    assert_eq!(compare_desc(&a, &b), Ordering::Less);
    assert_eq!(compare_asc(&a, &b), Ordering::Greater);
}

#[test]
fn items_register_once() {
    let mut s = RateStore::new();
    assert!(s.add_item(nft("x")));
    assert!(!s.add_item(nft("x")));
    assert!(s.add_item(nft("y")));

    let found = s.query_nft_by_class_id(&String::from("x")).unwrap();
    assert_eq!(found.class_id, "x");
    assert_eq!(found.token.data_uri.as_deref(), Some("ipfs://meta/7"));
    assert!(s.query_nft_by_class_id(&String::from("z")).is_none());

    assert_eq!(s.query_nft_by_index(0).unwrap().class_id, "x");
    assert_eq!(s.query_nft_by_index(1).unwrap().class_id, "y");
    assert!(s.query_nft_by_index(2).is_none());
    assert_eq!(s.query_current_nft().unwrap().class_id, "y");
}

#[test]
fn user_stats_record_ratings() {
    let fresh = UserStats::record_rating(None, 42);
    assert_eq!(fresh, UserStats { last_rate_ts: 42, ratings: 1, saves: 0, shares: 0 });

    let grown = UserStats::record_rating(
        Some(UserStats { last_rate_ts: 10, ratings: 3, saves: 2, shares: 1 }),
        50,
    );
    assert_eq!(grown, UserStats { last_rate_ts: 50, ratings: 4, saves: 2, shares: 1 });

    let saturated = UserStats::record_rating(
        Some(UserStats { last_rate_ts: 10, ratings: u64::MAX, saves: 0, shares: 0 }),
        60,
    );
    assert_eq!(saturated.ratings, u64::MAX);
}

#[test]
fn total_stats_record_ratings() {
    let t = TotalStats { nfts: 5, ratings: 9, messages: 2, saves: 1 };
    let t2 = t.record_rating();
    assert_eq!(t2, TotalStats { nfts: 5, ratings: 10, messages: 2, saves: 1 });
    let sat = TotalStats { nfts: 0, ratings: u64::MAX, messages: 0, saves: 0 }.record_rating();
    assert_eq!(sat.ratings, u64::MAX);
}
