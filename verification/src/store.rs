use vstd::prelude::*;

use crate::days::{days_sorted, days_view, Days};
use crate::ranking::{board_view, has_key, positive_totals, sorted_board, unique_keys, Board};
use crate::types::{Nft, Rate, RateCount, RateCounts, MAX_LEN_ALL_TIME, MAX_LEN_DAY, MAX_TS};

verus! {

/// An item with id `k` is on record.
pub open spec fn has_item(items: Seq<Nft>, k: Seq<char>) -> bool {
    exists|i: int| 0 <= i < items.len() && items[i].class_id@ == k
}

/// The index of the item with id `k`.
pub open spec fn item_index(items: Seq<Nft>, k: Seq<char>) -> int {
    choose|i: int| 0 <= i < items.len() && items[i].class_id@ == k
}

/// The item with id `k`.
pub open spec fn item_at(items: Seq<Nft>, k: Seq<char>) -> Nft {
    items[item_index(items, k)]
}

/// No two item records share an id.
pub open spec fn unique_items(items: Seq<Nft>) -> bool {
    forall|i: int, j: int| 0 <= i < j < items.len() ==> items[i].class_id@ != items[j].class_id@
}

/// The pair (item, rater) has a rating sample on record.
pub open spec fn has_rating(rs: Seq<(String, String, Rate)>, k: Seq<char>, rater: Seq<char>) -> bool {
    exists|i: int| 0 <= i < rs.len() && rs[i].0@ == k && rs[i].1@ == rater
}

/// The sample the pair (item, rater) holds.
pub open spec fn rating_at(rs: Seq<(String, String, Rate)>, k: Seq<char>, rater: Seq<char>) -> Rate {
    rs[choose|i: int| 0 <= i < rs.len() && rs[i].0@ == k && rs[i].1@ == rater].2
}

/// At most one sample per (item, rater) pair.
pub open spec fn unique_rating_pairs(rs: Seq<(String, String, Rate)>) -> bool {
    forall|i: int, j: int|
        0 <= i < j < rs.len() ==> !(rs[i].0@ == rs[j].0@ && rs[i].1@ == rs[j].1@)
}

/// The item with id `k` has an aggregate record.
pub open spec fn has_count(cs: Seq<(String, RateCounts)>, k: Seq<char>) -> bool {
    exists|i: int| 0 <= i < cs.len() && cs[i].0@ == k
}

/// The index of the aggregate record keyed `k`.
pub open spec fn count_index(cs: Seq<(String, RateCounts)>, k: Seq<char>) -> int {
    choose|i: int| 0 <= i < cs.len() && cs[i].0@ == k
}

/// The aggregates of the item with id `k`.
pub open spec fn count_at(cs: Seq<(String, RateCounts)>, k: Seq<char>) -> RateCounts {
    cs[count_index(cs, k)].1
}

/// No two aggregate records share a key.
pub open spec fn unique_count_keys(cs: Seq<(String, RateCounts)>) -> bool {
    forall|i: int, j: int| 0 <= i < j < cs.len() ==> cs[i].0@ != cs[j].0@
}

/// A stored aggregate record is sound: both windows count at least one
/// rating, and the day timestamp stays low enough for the currency check.
pub open spec fn count_ok(c: RateCounts) -> bool {
    c.all.total >= 1 && c.day.total >= 1 && c.day.ts <= MAX_TS
}

/// One all-time leaderboard is sound: capped, rank-ordered, keys unique,
/// totals positive, and every entry a copy of its item's current all-time
/// aggregate.
pub open spec fn board_ok(desc: bool, b: Board, cs: Seq<(String, RateCounts)>) -> bool {
    &&& b.len() <= MAX_LEN_ALL_TIME
    &&& sorted_board(desc, b)
    &&& unique_keys(b)
    &&& positive_totals(b)
    &&& forall|i: int| 0 <= i < b.len() ==> #[trigger] has_count(cs, b[i].0)
    &&& forall|i: int|
        #![trigger count_at(cs, b[i].0)]
        0 <= i < b.len() ==> count_at(cs, b[i].0).all == b[i].1
}

/// One day bucket is sound: capped, rank-ordered, keys unique, totals
/// positive, and every key a known item.
pub open spec fn bucket_ok(desc: bool, b: Board, items: Seq<Nft>) -> bool {
    &&& b.len() <= MAX_LEN_DAY
    &&& sorted_board(desc, b)
    &&& unique_keys(b)
    &&& positive_totals(b)
    &&& forall|i: int| 0 <= i < b.len() ==> has_item(items, b[i].0)
}

/// One bucket family is sound: keys strictly descending, every bucket sound.
pub open spec fn days_ok(desc: bool, d: Days, items: Seq<Nft>) -> bool {
    &&& days_sorted(d)
    &&& forall|i: int| 0 <= i < d.len() ==> #[trigger] bucket_ok(desc, d[i].1, items)
}

/// The whole engine state: item records, one rating sample per (item,
/// rater), per-item running aggregates, the two bounded all-time
/// leaderboards, and the two families of bounded day buckets.
pub struct RateStore {
    /// Item records, keyed by their `class_id`.
    pub nfts: Vec<Nft>,
    /// One sample per (item id, rater id) pair, write-once.
    pub ratings: Vec<(String, String, Rate)>,
    /// The authoritative per-item aggregates.
    pub rate_counts: Vec<(String, RateCounts)>,
    /// All-time leaderboard, highest mean first.
    pub rate_ath: Vec<(String, RateCount)>,
    /// All-time leaderboard, lowest mean first.
    pub rate_atl: Vec<(String, RateCount)>,
    /// Day buckets, each sorted highest mean first, keyed by day start.
    pub rate_day_ath: Vec<(u64, Vec<(String, RateCount)>)>,
    /// Day buckets, each sorted lowest mean first, keyed by day start.
    pub rate_day_atl: Vec<(u64, Vec<(String, RateCount)>)>,
}

impl RateStore {
    /// Every invariant the engine maintains across submissions.
    pub open spec fn wf(self) -> bool {
        &&& unique_items(self.nfts@)
        &&& unique_rating_pairs(self.ratings@)
        &&& unique_count_keys(self.rate_counts@)
        &&& forall|i: int|
            0 <= i < self.rate_counts@.len() ==> #[trigger] count_ok(self.rate_counts@[i].1)
        &&& forall|i: int|
            0 <= i < self.rate_counts@.len() ==> has_item(self.nfts@, self.rate_counts@[i].0@)
        &&& board_ok(true, board_view(self.rate_ath@), self.rate_counts@)
        &&& board_ok(false, board_view(self.rate_atl@), self.rate_counts@)
        &&& forall|k: Seq<char>|
            #![auto]
            has_key(board_view(self.rate_ath@), k) <==> has_key(board_view(self.rate_atl@), k)
        &&& days_ok(true, days_view(self.rate_day_ath@), self.nfts@)
        &&& days_ok(false, days_view(self.rate_day_atl@), self.nfts@)
    }

    /// An empty store: no items, no ratings, no rankings.
    pub fn new() -> (s: RateStore)
        ensures
            s.wf(),
            s.nfts@.len() == 0,
            s.ratings@.len() == 0,
            s.rate_counts@.len() == 0,
            s.rate_ath@.len() == 0,
            s.rate_atl@.len() == 0,
            s.rate_day_ath@.len() == 0,
            s.rate_day_atl@.len() == 0,
    {
        RateStore {
            nfts: Vec::new(),
            ratings: Vec::new(),
            rate_counts: Vec::new(),
            rate_ath: Vec::new(),
            rate_atl: Vec::new(),
            rate_day_ath: Vec::new(),
            rate_day_atl: Vec::new(),
        }
    }

    /// Records a new item. Returns whether it was added: an id already on
    /// record leaves the store unchanged.
    pub fn add_item(&mut self, nft: Nft) -> (added: bool)
        requires
            old(self).wf(),
        ensures
            final(self).wf(),
            added == !has_item(old(self).nfts@, nft.class_id@),
            added ==> final(self).nfts@ == old(self).nfts@.push(nft),
            !added ==> final(self).nfts@ == old(self).nfts@,
            final(self).ratings@ == old(self).ratings@,
            final(self).rate_counts@ == old(self).rate_counts@,
            final(self).rate_ath@ == old(self).rate_ath@,
            final(self).rate_atl@ == old(self).rate_atl@,
            final(self).rate_day_ath@ == old(self).rate_day_ath@,
            final(self).rate_day_atl@ == old(self).rate_day_atl@,
    {
        if find_item(&self.nfts, &nft.class_id).is_some() {
            return false;
        }
        let ghost pre = self.nfts@;
        self.nfts.push(nft);
        proof {
            let post = self.nfts@;
            assert forall|i: int, j: int| 0 <= i < j < post.len() implies post[i].class_id@
                != post[j].class_id@ by {
                if j < pre.len() {
                } else {
                    assert(post[j] == nft);
                    if post[i].class_id@ == nft.class_id@ {
                        assert(has_item(pre, nft.class_id@)) by { assert(pre[i] == post[i]) }
                    }
                }
            }
            assert forall|k: Seq<char>| #[trigger] has_item(pre, k) implies has_item(post, k) by {
                let m = choose|m: int| 0 <= m < pre.len() && pre[m].class_id@ == k;
                assert(post[m].class_id@ == k);
            }
            assert forall|i: int|
                0 <= i < self.rate_counts@.len() implies has_item(
                post,
                self.rate_counts@[i].0@,
            ) by {
                assert(has_item(pre, self.rate_counts@[i].0@));
            }
            assert forall|d: bool, dv: Days|
                days_ok(d, dv, pre) implies #[trigger] days_ok(d, dv, post) by {
                assert forall|i: int| 0 <= i < dv.len() implies #[trigger] bucket_ok(
                    d,
                    dv[i].1,
                    post,
                ) by {
                    assert(bucket_ok(d, dv[i].1, pre));
                    assert forall|m: int| 0 <= m < dv[i].1.len() implies has_item(
                        post,
                        dv[i].1[m].0,
                    ) by {
                        assert(has_item(pre, dv[i].1[m].0));
                    }
                }
            }
            assert(days_ok(true, days_view(self.rate_day_ath@), post));
            assert(days_ok(false, days_view(self.rate_day_atl@), post));
        }
        true
    }

    /// The aggregates of one item, where any are on record.
    pub fn query_nft_rate(&self, class_id: &String) -> (r: Option<RateCounts>)
        requires
            self.wf(),
        ensures
            r is Some <==> has_count(self.rate_counts@, class_id@),
            r matches Some(c) ==> c == count_at(self.rate_counts@, class_id@),
    {
        match find_count(&self.rate_counts, class_id) {
            Option::Some(i) => {
                proof {
                    lemma_count_index(self.rate_counts@, class_id@, i as int);
                }
                Option::Some(self.rate_counts[i].1)
            },
            Option::None => Option::None,
        }
    }

    /// The rating sample one rater holds for one item, where one exists.
    pub fn query_user_rated_nft(&self, class_id: &String, addr: &String) -> (r: Option<Rate>)
        requires
            self.wf(),
        ensures
            r is Some <==> has_rating(self.ratings@, class_id@, addr@),
            r matches Some(s) ==> s == rating_at(self.ratings@, class_id@, addr@),
    {
        match find_rating(&self.ratings, class_id, addr) {
            Option::Some(i) => {
                proof {
                    lemma_rating_index(self.ratings@, class_id@, addr@, i as int);
                }
                Option::Some(self.ratings[i].2)
            },
            Option::None => Option::None,
        }
    }

    /// The item at a queue position, where one exists.
    pub fn query_nft_by_index(&self, index: u32) -> (r: Option<Nft>)
        ensures
            r is Some <==> index < self.nfts@.len(),
            r matches Some(n) ==> n == self.nfts@[index as int],
    {
        if (index as usize) < self.nfts.len() {
            Option::Some(self.nfts[index as usize].clone())
        } else {
            Option::None
        }
    }

    /// The most recently recorded item, where any exists.
    pub fn query_current_nft(&self) -> (r: Option<Nft>)
        ensures
            r is Some <==> self.nfts@.len() > 0,
            r matches Some(n) ==> n == self.nfts@.last(),
    {
        if self.nfts.len() > 0 {
            Option::Some(self.nfts[self.nfts.len() - 1].clone())
        } else {
            Option::None
        }
    }

    /// The item record with the given id, where one exists.
    pub fn query_nft_by_class_id(&self, class_id: &String) -> (r: Option<Nft>)
        requires
            self.wf(),
        ensures
            r is Some <==> has_item(self.nfts@, class_id@),
            r matches Some(n) ==> n == item_at(self.nfts@, class_id@),
    {
        match find_item(&self.nfts, class_id) {
            Option::Some(i) => {
                proof {
                    lemma_item_index(self.nfts@, class_id@, i as int);
                }
                Option::Some(self.nfts[i].clone())
            },
            Option::None => Option::None,
        }
    }
}

/// Every leaderboard entry is a copy of its item's current all-time
/// aggregate.
pub proof fn lemma_board_ok_entry(desc: bool, b: Board, cs: Seq<(String, RateCounts)>, i: int)
    requires
        board_ok(desc, b, cs),
        0 <= i < b.len(),
    ensures
        has_count(cs, b[i].0),
        count_at(cs, b[i].0).all == b[i].1,
{
}

/// Every bucket of a sound family is itself sound.
pub proof fn lemma_days_ok_bucket(desc: bool, d: Days, items: Seq<Nft>, i: int)
    requires
        days_ok(desc, d, items),
        0 <= i < d.len(),
    ensures
        bucket_ok(desc, d[i].1, items),
{
}

/// With unique ids, an index holding id `k` is the one the lookup denotes.
pub proof fn lemma_item_index(items: Seq<Nft>, k: Seq<char>, i: int)
    requires
        unique_items(items),
        0 <= i < items.len(),
        items[i].class_id@ == k,
    ensures
        has_item(items, k),
        item_index(items, k) == i,
        item_at(items, k) == items[i],
{
    assert(has_item(items, k)) by {
        assert(0 <= i < items.len() && items[i].class_id@ == k);
    }
    let m = item_index(items, k);
    if m < i {
        assert(items[m].class_id@ != items[i].class_id@);
    } else if i < m {
        assert(items[i].class_id@ != items[m].class_id@);
    }
}

/// With unique keys, an index holding key `k` is the one the lookup denotes.
pub proof fn lemma_count_index(cs: Seq<(String, RateCounts)>, k: Seq<char>, i: int)
    requires
        unique_count_keys(cs),
        0 <= i < cs.len(),
        cs[i].0@ == k,
    ensures
        has_count(cs, k),
        count_index(cs, k) == i,
        count_at(cs, k) == cs[i].1,
{
    assert(has_count(cs, k)) by {
        assert(0 <= i < cs.len() && cs[i].0@ == k);
    }
    let m = count_index(cs, k);
    if m < i {
        assert(cs[m].0@ != cs[i].0@);
    } else if i < m {
        assert(cs[i].0@ != cs[m].0@);
    }
}

/// With one sample per pair, an index holding the pair is the one the
/// lookup denotes.
pub proof fn lemma_rating_index(rs: Seq<(String, String, Rate)>, k: Seq<char>, rater: Seq<char>, i: int)
    requires
        unique_rating_pairs(rs),
        0 <= i < rs.len(),
        rs[i].0@ == k,
        rs[i].1@ == rater,
    ensures
        has_rating(rs, k, rater),
        rating_at(rs, k, rater) == rs[i].2,
{
    assert(has_rating(rs, k, rater)) by {
        assert(0 <= i < rs.len() && rs[i].0@ == k && rs[i].1@ == rater);
    }
    let m = choose|m: int| 0 <= m < rs.len() && rs[m].0@ == k && rs[m].1@ == rater;
    if m < i {
        assert(!(rs[m].0@ == rs[i].0@ && rs[m].1@ == rs[i].1@));
    } else if i < m {
        assert(!(rs[i].0@ == rs[m].0@ && rs[i].1@ == rs[m].1@));
    }
}

/// Position of the item record with the given id.
pub fn find_item(v: &Vec<Nft>, key: &String) -> (r: Option<usize>)
    ensures
        r matches Some(i) ==> i < v.len() && v@[i as int].class_id@ == key@,
        r is None ==> !has_item(v@, key@),
{
    let mut i: usize = 0;
    while i < v.len()
        invariant
            0 <= i <= v.len(),
            forall|m: int| 0 <= m < i ==> v@[m].class_id@ != key@,
        decreases v.len() - i,
    {
        if v[i].class_id.eq(key) {
            return Some(i);
        }
        i += 1;
    }
    None
}

/// Position of the aggregate record with the given key.
pub fn find_count(v: &Vec<(String, RateCounts)>, key: &String) -> (r: Option<usize>)
    ensures
        r matches Some(i) ==> i < v.len() && v@[i as int].0@ == key@,
        r is None ==> !has_count(v@, key@),
{
    let mut i: usize = 0;
    while i < v.len()
        invariant
            0 <= i <= v.len(),
            forall|m: int| 0 <= m < i ==> v@[m].0@ != key@,
        decreases v.len() - i,
    {
        if v[i].0.eq(key) {
            return Some(i);
        }
        i += 1;
    }
    None
}

/// Position of the sample held by the given (item, rater) pair.
pub fn find_rating(v: &Vec<(String, String, Rate)>, key: &String, rater: &String) -> (r: Option<
    usize,
>)
    ensures
        r matches Some(i) ==> i < v.len() && v@[i as int].0@ == key@ && v@[i as int].1@ == rater@,
        r is None ==> !has_rating(v@, key@, rater@),
{
    let mut i: usize = 0;
    while i < v.len()
        invariant
            0 <= i <= v.len(),
            forall|m: int| 0 <= m < i ==> !(v@[m].0@ == key@ && v@[m].1@ == rater@),
        decreases v.len() - i,
    {
        if v[i].0.eq(key) && v[i].1.eq(rater) {
            return Some(i);
        }
        i += 1;
    }
    None
}

} // verus!
