use nft_hop::store::RateStore;
use nft_hop::types::{ListKind, ListSort, Nft, RateError, TokenUri, DAY_IN_SECONDS};

fn nft(class_id: &str) -> Nft {
    Nft {
        token: TokenUri {
            contract_addr: String::from("c1"),
            id: String::from("1"),
            data_uri: None,
        },
        class_id: String::from(class_id),
        chain_id: Some(String::from("chain-1")),
        index: None,
    }
}

fn store_with(items: &[&str]) -> RateStore {
    let mut s = RateStore::new();
    for id in items {
        assert!(s.add_item(nft(id)));
    }
    s
}

// a timestamp safely inside the second ranking day
fn day1(offset: u64) -> u64 {
    DAY_IN_SECONDS + offset
}

#[test]
fn accumulates_sum_and_total() {
    let mut s = store_with(&["x"]);
    let x = String::from("x");
    let now = day1(100);
    s.rate(&x, &String::from("r1"), 2, now).unwrap();
    s.rate(&x, &String::from("r2"), 4, now + 1).unwrap();
    let rc = s.rate(&x, &String::from("r3"), 5, now + 2).unwrap();
    assert_eq!(rc.all.total, 3);
    assert_eq!(rc.all.sum, 11);
    let stored = s.query_nft_rate(&x).unwrap();
    assert_eq!(stored.all.total, 3);
    assert_eq!(stored.all.sum, 11);
}

#[test]
fn duplicate_rating_rejected_and_nothing_changes() {
    let mut s = store_with(&["x"]);
    let x = String::from("x");
    let r = String::from("rater");
    let now = day1(100);
    s.rate(&x, &r, 5, now).unwrap();
    let before = s.query_nft_rate(&x).unwrap();
    let board_before = s.query_ranked_list(ListKind::All, ListSort::Highest, now + 5);
    let err = s.rate(&x, &r, 1, now + 10).unwrap_err();
    assert_eq!(err, RateError::DuplicateRating);
    let after = s.query_nft_rate(&x).unwrap();
    assert_eq!(before, after);
    let board_after = s.query_ranked_list(ListKind::All, ListSort::Highest, now + 5);
    assert_eq!(board_before, board_after);
    // the stored sample still carries the first submission
    let sample = s.query_user_rated_nft(&x, &r).unwrap();
    assert_eq!(sample.v, 5);
    assert_eq!(sample.ts, now);
}

#[test]
fn invalid_values_rejected() {
    let mut s = store_with(&["x"]);
    let x = String::from("x");
    let now = day1(0);
    assert_eq!(s.rate(&x, &String::from("r"), 0, now).unwrap_err(), RateError::InvalidValue);
    assert_eq!(s.rate(&x, &String::from("r"), 6, now).unwrap_err(), RateError::InvalidValue);
    // the rejected attempts left no sample behind
    assert!(s.query_user_rated_nft(&x, &String::from("r")).is_none());
}

#[test]
fn unknown_item_rejected() {
    let mut s = store_with(&["x"]);
    let err = s.rate(&String::from("y"), &String::from("r"), 3, day1(0)).unwrap_err();
    assert_eq!(err, RateError::NotFound);
}

#[test]
fn all_time_boards_stay_capped() {
    // MAX_LEN_ALL_TIME is 100: rating 105 items must leave both all-time
    // lists at exactly the cap
    let mut s = RateStore::new();
    let now = day1(50);
    for i in 0..105u32 {
        let id = format!("item{}", i);
        assert!(s.add_item(nft(&id)));
        let v = (i % 5 + 1) as u8;
        s.rate(&id, &String::from("rater"), v, now + i as u64).unwrap();
    }
    let highest = s.query_ranked_list(ListKind::All, ListSort::Highest, now + 200);
    let lowest = s.query_ranked_list(ListKind::All, ListSort::Lowest, now + 200);
    assert_eq!(highest.len(), 100);
    assert_eq!(lowest.len(), 100);
}

#[test]
fn day_bucket_stays_capped() {
    // MAX_LEN_DAY is 10: twelve items rated the same day leave the day
    // bucket at exactly the cap
    let mut s = RateStore::new();
    let now = day1(10);
    for i in 0..12u32 {
        let id = format!("d{}", i);
        assert!(s.add_item(nft(&id)));
        s.rate(&id, &String::from("rater"), 3, now + i as u64).unwrap();
    }
    let day = s.query_ranked_list(ListKind::Day, ListSort::Highest, now + 100);
    assert_eq!(day.len(), 10);
    let day_low = s.query_ranked_list(ListKind::Day, ListSort::Lowest, now + 100);
    assert_eq!(day_low.len(), 10);
}

#[test]
fn ordering_by_cross_multiplication() {
    // averages: a = 6/2 = 3, b = 9/3 = 3 (tie), c = 10/2 = 5
    let mut s = store_with(&["a", "b", "c"]);
    let now = day1(100);
    // a: 5 + 1 = 6 over 2 ratings
    s.rate(&String::from("a"), &String::from("r1"), 5, now).unwrap();
    s.rate(&String::from("a"), &String::from("r2"), 1, now + 1).unwrap();
    // b: 5 + 3 + 1 = 9 over 3 ratings
    s.rate(&String::from("b"), &String::from("r1"), 5, now + 2).unwrap();
    s.rate(&String::from("b"), &String::from("r2"), 3, now + 3).unwrap();
    s.rate(&String::from("b"), &String::from("r3"), 1, now + 4).unwrap();
    // c: 5 + 5 = 10 over 2 ratings
    s.rate(&String::from("c"), &String::from("r1"), 5, now + 5).unwrap();
    s.rate(&String::from("c"), &String::from("r2"), 5, now + 6).unwrap();

    let highest = s.query_ranked_list(ListKind::All, ListSort::Highest, now + 10);
    assert_eq!(highest.len(), 3);
    assert_eq!(highest[0].0.class_id, "c");
    let lowest = s.query_ranked_list(ListKind::All, ListSort::Lowest, now + 10);
    assert_eq!(lowest.len(), 3);
    assert_eq!(lowest[2].0.class_id, "c");
}

#[test]
fn stale_day_buckets_evicted() {
    let mut s = store_with(&["old", "new"]);
    let early = day1(100);
    s.rate(&String::from("old"), &String::from("r"), 4, early).unwrap();
    // the bucket for that day answers queries until a much later submission
    let day = s.query_ranked_list(ListKind::Day, ListSort::Highest, early + 5);
    assert_eq!(day.len(), 1);
    // a submission over 366 day-lengths later purges it
    let late = early + 366 * DAY_IN_SECONDS;
    s.rate(&String::from("new"), &String::from("r"), 2, late).unwrap();
    let gone = s.query_ranked_list(ListKind::Day, ListSort::Highest, early + 5);
    assert!(gone.is_empty());
    let gone_month = s.query_ranked_list(ListKind::Month, ListSort::Highest, early + 5);
    assert!(gone_month.is_empty());
}

#[test]
fn end_to_end_single_day() {
    let mut s = store_with(&["x"]);
    let x = String::from("x");
    let base = day1(10);
    s.rate(&x, &String::from("r1"), 5, base).unwrap();
    s.rate(&x, &String::from("r2"), 5, base + 1).unwrap();
    s.rate(&x, &String::from("r3"), 5, base + 2).unwrap();
    let rc = s.rate(&x, &String::from("r4"), 1, base + 3).unwrap();
    assert_eq!(rc.all.sum, 16);
    assert_eq!(rc.all.total, 4);
    assert_eq!(rc.day.sum, 16);
    assert_eq!(rc.day.total, 4);

    let day = s.query_ranked_list(ListKind::Day, ListSort::Highest, base + 4);
    assert_eq!(day.len(), 1);
    assert_eq!(day[0].0.class_id, "x");
    assert_eq!(day[0].1.sum, 16);
    assert_eq!(day[0].1.total, 4);

    let month = s.query_ranked_list(ListKind::Month, ListSort::Highest, base + 4);
    assert!(month.iter().any(|(n, rc)| n.class_id == "x" && rc.sum == 16 && rc.total == 4));
}

#[test]
fn day_window_check_is_sum_based() {
    // the stored-day currency test adds the stored timestamp to the day
    // start instead of comparing day keys; once the stored timestamp is at
    // least one day-length, it exceeds any in-day remainder, so the day
    // aggregate keeps accumulating even across a day boundary
    let mut s = store_with(&["x"]);
    let x = String::from("x");
    let first = day1(100);
    s.rate(&x, &String::from("r1"), 4, first).unwrap();
    let next_day = 2 * DAY_IN_SECONDS + 50;
    let rc = s.rate(&x, &String::from("r2"), 2, next_day).unwrap();
    assert_eq!(rc.day.total, 2);
    assert_eq!(rc.day.sum, 6);
    assert_eq!(rc.day.ts, next_day);
}

#[test]
fn day_window_resets_in_first_epoch_day() {
    // in the very first day the day start is zero, so the check
    // `stored + 0 > now` fails and every new rating starts the day afresh
    let mut s = store_with(&["x"]);
    let x = String::from("x");
    s.rate(&x, &String::from("r1"), 4, 1000).unwrap();
    let rc = s.rate(&x, &String::from("r2"), 2, 1100).unwrap();
    assert_eq!(rc.day.total, 1);
    assert_eq!(rc.day.sum, 2);
    assert_eq!(rc.day.ts, 0);
    // the all-time aggregate still counts both
    assert_eq!(rc.all.total, 2);
    assert_eq!(rc.all.sum, 6);
}

#[test]
fn month_window_flattens_buckets_without_rollup() {
    let mut s = store_with(&["x"]);
    let x = String::from("x");
    let d1 = day1(10);
    let d2 = 2 * DAY_IN_SECONDS + 10;
    s.rate(&x, &String::from("r1"), 5, d1).unwrap();
    s.rate(&x, &String::from("r2"), 3, d2).unwrap();
    // the item was rated on two days of the window: it appears once per day
    let month = s.query_ranked_list(ListKind::Month, ListSort::Highest, d2 + 5);
    assert_eq!(month.len(), 2);
    assert!(month.iter().all(|(n, _)| n.class_id == "x"));
}

#[test]
fn empty_store_answers_empty() {
    let s = RateStore::new();
    assert!(s.query_ranked_list(ListKind::All, ListSort::Highest, day1(0)).is_empty());
    assert!(s.query_ranked_list(ListKind::Day, ListSort::Lowest, day1(0)).is_empty());
    assert!(s.query_ranked_list(ListKind::Month, ListSort::Highest, day1(0)).is_empty());
    assert!(s.query_nft_rate(&String::from("x")).is_none());
}

#[test]
fn overflow_truncation_keeps_one_key_set() {
    // past the cap, the lowest collection is truncated by the keys the
    // highest collection keeps, so both hold the same items
    let mut s = RateStore::new();
    let now = day1(50);
    for i in 0..104u32 {
        let id = format!("k{}", i);
        assert!(s.add_item(nft(&id)));
        let v = (i % 5 + 1) as u8;
        s.rate(&id, &String::from("rater"), v, now + i as u64).unwrap();
    }
    let highest = s.query_ranked_list(ListKind::All, ListSort::Highest, now);
    let lowest = s.query_ranked_list(ListKind::All, ListSort::Lowest, now);
    let mut hk: Vec<String> = highest.iter().map(|(n, _)| n.class_id.clone()).collect();
    let mut lk: Vec<String> = lowest.iter().map(|(n, _)| n.class_id.clone()).collect();
    hk.sort();
    lk.sort();
    assert_eq!(hk, lk);
}
