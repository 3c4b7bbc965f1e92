use vstd::prelude::*;

use crate::agg::{fold_all, init_count};
use crate::days::days_view;
use crate::ranking::board_view;
use crate::store::{lemma_days_ok_bucket, RateStore};
use crate::types::{RateCount, MAX_LEN_ALL_TIME, MAX_LEN_DAY};

verus! {

/// The all-time aggregate an item holds after a sequence of accepted
/// ratings, the first of them submitted at `start`: exactly the fold that
/// `rate` applies, one step per accepted value.
pub open spec fn all_time_of(vs: Seq<u8>, start: u64) -> RateCount
    recommends
        vs.len() >= 1,
    decreases vs.len(),
{
    if vs.len() <= 1 {
        init_count(vs[0], start)
    } else {
        fold_all(all_time_of(vs.drop_last(), start), vs.last())
    }
}

/// The exact sum of a sequence of rating values.
pub open spec fn sum_of(vs: Seq<u8>) -> int
    decreases vs.len(),
{
    if vs.len() == 0 {
        0
    } else {
        sum_of(vs.drop_last()) + vs.last()
    }
}

/// Law: after N valid ratings of one item, its all-time aggregate counts
/// exactly N and sums exactly the submitted values — the saturating
/// arithmetic never rounds as long as N stays below a fifth of the `u64`
/// range, which the bound on N rules in.
pub proof fn lemma_all_time_accumulates(vs: Seq<u8>, start: u64)
    requires
        1 <= vs.len(),
        vs.len() <= u64::MAX / 5,
        forall|i: int| 0 <= i < vs.len() ==> 1 <= #[trigger] vs[i] <= 5,
    ensures
        all_time_of(vs, start).total == vs.len(),
        all_time_of(vs, start).sum == sum_of(vs),
        vs.len() <= sum_of(vs) <= 5 * vs.len(),
    decreases vs.len(),
{
    if vs.len() == 1 {
        assert(sum_of(vs) == sum_of(vs.drop_last()) + vs.last());
        assert(vs.drop_last().len() == 0);
        assert(vs.last() == vs[0]);
    } else {
        let pre = vs.drop_last();
        assert forall|i: int| 0 <= i < pre.len() implies 1 <= #[trigger] pre[i] <= 5 by {
            assert(pre[i] == vs[i]);
        }
        lemma_all_time_accumulates(pre, start);
        assert(1 <= vs.last() <= 5) by {
            assert(vs[vs.len() - 1] == vs.last());
        }
    }
}

/// Law: in every reachable store, each all-time leaderboard holds at most
/// `MAX_LEN_ALL_TIME` entries and each day bucket at most `MAX_LEN_DAY` —
/// the bounds are part of the invariant that every submission preserves.
pub proof fn lemma_bounded_boards(s: RateStore)
    requires
        s.wf(),
    ensures
        s.rate_ath@.len() <= MAX_LEN_ALL_TIME,
        s.rate_atl@.len() <= MAX_LEN_ALL_TIME,
        forall|i: int|
            0 <= i < s.rate_day_ath@.len() ==> #[trigger] s.rate_day_ath@[i].1@.len()
                <= MAX_LEN_DAY,
        forall|i: int|
            0 <= i < s.rate_day_atl@.len() ==> #[trigger] s.rate_day_atl@[i].1@.len()
                <= MAX_LEN_DAY,
{
    assert(board_view(s.rate_ath@).len() == s.rate_ath@.len());
    assert(board_view(s.rate_atl@).len() == s.rate_atl@.len());
    assert forall|i: int|
        0 <= i < s.rate_day_ath@.len() implies #[trigger] s.rate_day_ath@[i].1@.len()
        <= MAX_LEN_DAY by {
        lemma_days_ok_bucket(true, days_view(s.rate_day_ath@), s.nfts@, i);
        assert(days_view(s.rate_day_ath@)[i].1.len() == s.rate_day_ath@[i].1@.len());
    }
    assert forall|i: int|
        0 <= i < s.rate_day_atl@.len() implies #[trigger] s.rate_day_atl@[i].1@.len()
        <= MAX_LEN_DAY by {
        lemma_days_ok_bucket(false, days_view(s.rate_day_atl@), s.nfts@, i);
        assert(days_view(s.rate_day_atl@)[i].1.len() == s.rate_day_atl@[i].1@.len());
    }
}

} // verus!
