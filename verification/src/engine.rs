use vstd::prelude::*;

use crate::agg::{day_start_of, fold_counts, folded_counts, year_cutoff_of};
use crate::days::{
    day_at, day_index, days_evict, days_find, days_put, days_sorted, days_view, evict_le, has_day,
    lemma_day_index, lemma_evict_le, lemma_upsert_day, upsert_day, Days,
};
use crate::store::{
    board_ok, bucket_ok, count_at, count_ok, days_ok, find_count, find_item, find_rating,
    has_count, has_item, has_rating, lemma_board_ok_entry, lemma_count_index, lemma_days_ok_bucket,
    unique_count_keys, RateStore,
};
use crate::ranking::{
    board_clone, board_insert, board_keep, board_remove, board_shape, board_view, has_key,
    insert_ordered, keep_keys, lemma_insert_ordered, lemma_keep_keys, lemma_remove_key,
    lemma_trunc, lemma_unique_keys_len, remove_key, trunc, Board,
};
use crate::types::{
    Rate, RateCount, RateCounts, RateError, DAY_IN_SECONDS, MAX_LEN_ALL_TIME, MAX_LEN_DAY, MAX_TS,
};

verus! {

/// The highest-first all-time leaderboard after one write: the item's entry
/// replaced by the new snapshot at its rank position, truncated to capacity.
pub open spec fn ath_after(ath: Board, k: Seq<char>, all: RateCount) -> Board {
    trunc(insert_ordered(true, remove_key(ath, k), (k, all)), MAX_LEN_ALL_TIME as int)
}

/// The lowest-first all-time leaderboard after one write: the item's entry
/// replaced at its rank position. When the highest-ordered collection
/// overflows, the lowest keeps exactly the keys the highest keeps — the
/// truncation is judged by the highest collection, as the stored data
/// exhibits it, not by the lowest collection's own tail.
pub open spec fn atl_after(ath: Board, atl: Board, k: Seq<char>, all: RateCount) -> Board {
    let ath_full = insert_ordered(true, remove_key(ath, k), (k, all));
    let atl_full = insert_ordered(false, remove_key(atl, k), (k, all));
    if ath_full.len() > MAX_LEN_ALL_TIME {
        keep_keys(atl_full, trunc(ath_full, MAX_LEN_ALL_TIME as int))
    } else {
        atl_full
    }
}

/// One bucket family after the write: stale buckets evicted, then the day's
/// bucket rewritten with the item's day snapshot at its rank position,
/// truncated to the day capacity.
pub open spec fn days_after(desc: bool, d: Days, k: Seq<char>, rc: RateCount, now: u64) -> Days {
    let ev = evict_le(d, year_cutoff_of(now));
    let ob = if has_day(ev, day_start_of(now)) {
        day_at(ev, day_start_of(now))
    } else {
        Seq::empty()
    };
    let nb = trunc(insert_ordered(desc, remove_key(ob, k), (k, rc)), MAX_LEN_DAY as int);
    upsert_day(ev, day_start_of(now), nb)
}

/// Some bucket of the family holds entry `x`.
pub open spec fn bucket_entry_of(d: Days, x: (Seq<char>, RateCount)) -> bool {
    exists|a: int| 0 <= a < d.len() && d[a].1.contains(x)
}

/// Both all-time leaderboards stay sound across a write: capped, ordered,
/// keys unique and shared between the two, and every surviving entry either
/// the fresh snapshot or one carried over unchanged.
pub proof fn lemma_all_time_after(ath: Board, atl: Board, k: Seq<char>, all: RateCount)
    requires
        board_shape(true, ath, MAX_LEN_ALL_TIME as int),
        board_shape(false, atl, MAX_LEN_ALL_TIME as int),
        forall|k2: Seq<char>| #![auto] has_key(ath, k2) <==> has_key(atl, k2),
        all.total >= 1,
    ensures
        board_shape(true, ath_after(ath, k, all), MAX_LEN_ALL_TIME as int),
        board_shape(false, atl_after(ath, atl, k, all), MAX_LEN_ALL_TIME as int),
        forall|k2: Seq<char>|
            #![auto]
            has_key(ath_after(ath, k, all), k2) <==> has_key(atl_after(ath, atl, k, all), k2),
        forall|x: (Seq<char>, RateCount)|
            #[trigger] ath_after(ath, k, all).contains(x) ==> x == (k, all) || (ath.contains(x)
                && x.0 != k),
        forall|x: (Seq<char>, RateCount)|
            #[trigger] atl_after(ath, atl, k, all).contains(x) ==> x == (k, all) || (atl.contains(
                x,
            ) && x.0 != k),
        has_key(ath_after(ath, k, all), k) ==> ath_after(ath, k, all).contains((k, all)),
{
    let athr = remove_key(ath, k);
    let atlr = remove_key(atl, k);
    lemma_remove_key(ath, k);
    lemma_remove_key(atl, k);
    let athf = insert_ordered(true, athr, (k, all));
    let atlf = insert_ordered(false, atlr, (k, all));
    lemma_insert_ordered(true, athr, (k, all));
    lemma_insert_ordered(false, atlr, (k, all));
    lemma_trunc(athf, MAX_LEN_ALL_TIME as int);
    let athn = trunc(athf, MAX_LEN_ALL_TIME as int);
    assert forall|k2: Seq<char>| #![auto] has_key(athf, k2) <==> has_key(atlf, k2) by {
        assert(has_key(athf, k2) <==> (has_key(ath, k2) && k2 != k) || k2 == k);
        assert(has_key(atlf, k2) <==> (has_key(atl, k2) && k2 != k) || k2 == k);
    }
    // the fresh snapshot is the unique entry keyed `k` wherever it survives
    assert forall|x: (Seq<char>, RateCount)| #[trigger] athn.contains(x) && x.0 == k implies x == (
        k,
        all,
    ) by {
        assert(athf.contains(x));
    }
    if has_key(athn, k) {
        let i = choose|i: int| 0 <= i < athn.len() && athn[i].0 == k;
        assert(athn.contains(athn[i]));
    }
    if athf.len() > MAX_LEN_ALL_TIME {
        let atln = keep_keys(atlf, athn);
        lemma_keep_keys(atlf, athn);
        assert forall|i: int| 0 <= i < atln.len() implies has_key(athn, atln[i].0) by {
            assert(has_key(atln, atln[i].0)) by {
                assert(0 <= i < atln.len() && atln[i].0 == atln[i].0);
            }
        }
        lemma_unique_keys_len(atln, athn);
        assert(atln.len() <= MAX_LEN_ALL_TIME);
        assert forall|k2: Seq<char>| #![auto] has_key(athn, k2) implies has_key(atln, k2) by {
            assert(has_key(athf, k2));
            assert(has_key(atlf, k2));
        }
        assert(atl_after(ath, atl, k, all) == atln);
    } else {
        // the two leaderboards hold the same keys, so they hold the same
        // number of entries, and the lowest one stays within its cap too
        assert forall|i: int| 0 <= i < atlf.len() implies has_key(athf, atlf[i].0) by {
            assert(has_key(atlf, atlf[i].0)) by {
                assert(0 <= i < atlf.len() && atlf[i].0 == atlf[i].0);
            }
        }
        lemma_unique_keys_len(atlf, athf);
        assert(atlf.len() <= MAX_LEN_ALL_TIME);
        assert(athn == athf);
        assert(atl_after(ath, atl, k, all) == atlf);
    }
}

/// A position for the day key always exists in a strictly ordered family.
spec fn is_upsert_pos(d: Days, k: u64, i: int) -> bool {
    &&& 0 <= i <= d.len()
    &&& forall|j: int| 0 <= j < i ==> d[j].0 > k
    &&& i < d.len() ==> d[i].0 <= k
}

proof fn lemma_upsert_position_exists(d: Days, k: u64)
    requires
        days_sorted(d),
    ensures
        exists|i: int| is_upsert_pos(d, k, i),
    decreases d.len(),
{
    if d.len() == 0 {
        assert(is_upsert_pos(d, k, 0));
    } else if d[0].0 <= k {
        assert(is_upsert_pos(d, k, 0));
    } else {
        let rest = d.drop_first();
        assert(days_sorted(rest)) by {
            assert forall|a: int, b: int| 0 <= a < b < rest.len() implies rest[a].0 > rest[b].0 by {
                assert(rest[a] == d[a + 1] && rest[b] == d[b + 1]);
            }
        }
        lemma_upsert_position_exists(rest, k);
        let i = choose|i: int| is_upsert_pos(rest, k, i);
        assert(is_upsert_pos(d, k, i + 1)) by {
            assert forall|j: int| 0 <= j < i + 1 implies d[j].0 > k by {
                if j > 0 {
                    assert(rest[j - 1] == d[j]);
                }
            }
            if i + 1 < d.len() {
                assert(rest[i] == d[i + 1]);
            }
        }
    }
}

/// A bucket family stays sound across a write: keys strictly ordered and
/// young, every bucket capped and ordered, and every bucket entry either
/// the fresh day snapshot or one carried over from an old bucket.
pub proof fn lemma_days_after(desc: bool, d: Days, k: Seq<char>, rc: RateCount, now: u64)
    requires
        days_sorted(d),
        forall|i: int| 0 <= i < d.len() ==> #[trigger] board_shape(desc, d[i].1, MAX_LEN_DAY as int),
        rc.total >= 1,
    ensures
        days_sorted(days_after(desc, d, k, rc, now)),
        forall|i: int|
            0 <= i < days_after(desc, d, k, rc, now).len() ==> #[trigger] board_shape(
                desc,
                days_after(desc, d, k, rc, now)[i].1,
                MAX_LEN_DAY as int,
            ),
        forall|i: int, m: int|
            0 <= i < days_after(desc, d, k, rc, now).len() && 0 <= m < days_after(
                desc,
                d,
                k,
                rc,
                now,
            )[i].1.len() ==> days_after(desc, d, k, rc, now)[i].1[m] == (k, rc) || bucket_entry_of(
                d,
                days_after(desc, d, k, rc, now)[i].1[m],
            ),
        forall|dk: u64|
            #[trigger] has_day(days_after(desc, d, k, rc, now), dk) ==> dk > year_cutoff_of(now)
                || dk == day_start_of(now),
        has_day(days_after(desc, d, k, rc, now), day_start_of(now)),
{
    let cutoff = year_cutoff_of(now);
    let ds = day_start_of(now);
    let ev = evict_le(d, cutoff);
    lemma_evict_le(d, cutoff);
    let ob = if has_day(ev, ds) {
        day_at(ev, ds)
    } else {
        Seq::empty()
    };
    assert(board_shape(desc, ob, MAX_LEN_DAY as int) && (forall|m: int|
        0 <= m < ob.len() ==> bucket_entry_of(d, ob[m]))) by {
        if has_day(ev, ds) {
            let i = day_index(ev, ds);
            assert(0 <= i < ev.len() && ev[i].0 == ds);
            assert(ev.contains(ev[i]));
            assert(d.contains(ev[i]));
            let a = choose|a: int| 0 <= a < d.len() && d[a] == ev[i];
            assert(board_shape(desc, d[a].1, MAX_LEN_DAY as int));
            assert(ob == ev[i].1);
            assert forall|m: int| 0 <= m < ob.len() implies bucket_entry_of(d, ob[m]) by {
                assert(d[a].1.contains(ob[m])) by {
                    assert(d[a].1[m] == ob[m]);
                }
            }
        }
    }
    let rb = remove_key(ob, k);
    lemma_remove_key(ob, k);
    let ib = insert_ordered(desc, rb, (k, rc));
    lemma_insert_ordered(desc, rb, (k, rc));
    let nb = trunc(ib, MAX_LEN_DAY as int);
    lemma_trunc(ib, MAX_LEN_DAY as int);
    lemma_upsert_position_exists(ev, ds);
    let pos = choose|i: int| is_upsert_pos(ev, ds, i);
    lemma_upsert_day(ev, ds, nb, pos);
    let after = upsert_day(ev, ds, nb);
    assert(days_after(desc, d, k, rc, now) == after);
    assert forall|i: int| 0 <= i < after.len() implies #[trigger] board_shape(
        desc,
        after[i].1,
        MAX_LEN_DAY as int,
    ) by {
        assert(after.contains(after[i]));
        if after[i] == (ds, nb) {
            assert(board_shape(desc, nb, MAX_LEN_DAY as int));
        } else {
            assert(ev.contains(after[i]));
            assert(d.contains(after[i]));
            let a = choose|a: int| 0 <= a < d.len() && d[a] == after[i];
            assert(board_shape(desc, d[a].1, MAX_LEN_DAY as int));
        }
    }
    assert forall|i: int, m: int|
        0 <= i < after.len() && 0 <= m < after[i].1.len() implies after[i].1[m] == (k, rc)
        || bucket_entry_of(d, after[i].1[m]) by {
        assert(after.contains(after[i]));
        if after[i] == (ds, nb) {
            let x = after[i].1[m];
            assert(nb.contains(x)) by {
                assert(nb[m] == x);
            }
            assert(ib.contains(x));
            if x != (k, rc) {
                assert(rb.contains(x));
                assert(ob.contains(x));
                let w = choose|w: int| 0 <= w < ob.len() && ob[w] == x;
                assert(bucket_entry_of(d, ob[w]));
            }
        } else {
            assert(ev.contains(after[i]));
            assert(d.contains(after[i]));
            let a = choose|a: int| 0 <= a < d.len() && d[a] == after[i];
            assert(bucket_entry_of(d, after[i].1[m])) by {
                assert(d[a].1.contains(after[i].1[m])) by {
                    assert(d[a].1[m] == after[i].1[m]);
                }
            }
        }
    }
    assert forall|dk: u64| #[trigger] has_day(after, dk) implies dk > cutoff || dk == ds by {
        if dk != ds {
            assert(has_day(ev, dk));
        }
    }
}

/// Stores the item's new aggregates, replacing its record in place or
/// appending a fresh one; every other record stands untouched.
fn store_count(cs: &mut Vec<(String, RateCounts)>, key: &String, rc: RateCounts)
    requires
        unique_count_keys(old(cs)@),
    ensures
        unique_count_keys(final(cs)@),
        has_count(final(cs)@, key@),
        count_at(final(cs)@, key@) == rc,
        forall|k2: Seq<char>|
            k2 != key@ ==> (#[trigger] has_count(final(cs)@, k2) <==> has_count(old(cs)@, k2)),
        forall|k2: Seq<char>|
            k2 != key@ && has_count(old(cs)@, k2) ==> #[trigger] count_at(final(cs)@, k2)
                == count_at(old(cs)@, k2),
        forall|i: int|
            0 <= i < final(cs)@.len() ==> (final(cs)@[i].0@ == key@ && final(cs)@[i].1 == rc)
                || old(cs)@.contains(final(cs)@[i]),
{
    let ghost pre = cs@;
    match find_count(cs, key) {
        Option::Some(i) => {
            cs.remove(i);
            cs.insert(i, (key.clone(), rc));
            proof {
                let post = cs@;
                let mid = pre.remove(i as int);
                pre.remove_ensures(i as int);
                assert(post.len() == pre.len());
                assert forall|m: int| 0 <= m < pre.len() && m != i implies post[m] == pre[m] by {
                    if m < i {
                        assert(post[m] == mid[m]);
                    } else {
                        assert(post[m] == mid[m - 1]);
                        assert(mid[m - 1] == pre[m]);
                    }
                }
                assert(post[i as int].0@ == key@ && post[i as int].1 == rc);
                assert forall|a: int, b: int| 0 <= a < b < post.len() implies post[a].0@
                    != post[b].0@ by {
                    assert(post[a].0@ == pre[a].0@ && post[b].0@ == pre[b].0@) by {
                        assert(pre[i as int].0@ == key@);
                    }
                }
                lemma_count_index(post, key@, i as int);
                assert forall|k2: Seq<char>| k2 != key@ implies (#[trigger] has_count(post, k2)
                    <==> has_count(pre, k2)) by {
                    if has_count(post, k2) {
                        let m = choose|m: int| 0 <= m < post.len() && post[m].0@ == k2;
                        assert(m != i);
                        assert(pre[m].0@ == k2);
                    }
                    if has_count(pre, k2) {
                        let m = choose|m: int| 0 <= m < pre.len() && pre[m].0@ == k2;
                        assert(m != i) by {
                            assert(pre[i as int].0@ == key@);
                        }
                        assert(post[m].0@ == k2);
                    }
                }
                assert forall|k2: Seq<char>| k2 != key@ && has_count(pre, k2) implies #[trigger]
                    count_at(post, k2) == count_at(pre, k2) by {
                    let m = choose|m: int| 0 <= m < pre.len() && pre[m].0@ == k2;
                    assert(m != i) by {
                        assert(pre[i as int].0@ == key@);
                    }
                    lemma_count_index(pre, k2, m);
                    lemma_count_index(post, k2, m);
                }
                assert forall|m: int|
                    0 <= m < post.len() implies (post[m].0@ == key@ && post[m].1 == rc)
                    || pre.contains(post[m]) by {
                    if m != i {
                        assert(pre[m] == post[m]);
                    }
                }
            }
        },
        Option::None => {
            cs.push((key.clone(), rc));
            proof {
                let post = cs@;
                assert(post.len() == pre.len() + 1);
                assert(post[pre.len() as int].0@ == key@ && post[pre.len() as int].1 == rc);
                assert forall|a: int, b: int| 0 <= a < b < post.len() implies post[a].0@
                    != post[b].0@ by {
                    if b == pre.len() {
                        if post[a].0@ == key@ {
                            assert(has_count(pre, key@)) by {
                                assert(pre[a].0@ == key@);
                            }
                        }
                    }
                }
                lemma_count_index(post, key@, pre.len() as int);
                assert forall|k2: Seq<char>| k2 != key@ implies (#[trigger] has_count(post, k2)
                    <==> has_count(pre, k2)) by {
                    if has_count(post, k2) {
                        let m = choose|m: int| 0 <= m < post.len() && post[m].0@ == k2;
                        assert(m != pre.len());
                        assert(pre[m].0@ == k2);
                    }
                    if has_count(pre, k2) {
                        let m = choose|m: int| 0 <= m < pre.len() && pre[m].0@ == k2;
                        assert(post[m].0@ == k2);
                    }
                }
                assert forall|k2: Seq<char>| k2 != key@ && has_count(pre, k2) implies #[trigger]
                    count_at(post, k2) == count_at(pre, k2) by {
                    let m = choose|m: int| 0 <= m < pre.len() && pre[m].0@ == k2;
                    lemma_count_index(pre, k2, m);
                    lemma_count_index(post, k2, m);
                }
                assert forall|m: int|
                    0 <= m < post.len() implies (post[m].0@ == key@ && post[m].1 == rc)
                    || pre.contains(post[m]) by {
                    if m != pre.len() {
                        assert(pre[m] == post[m]);
                    }
                }
            }
        },
    }
}

/// One bucket family after a write: evicts stale buckets, then rewrites the
/// current day's bucket with the item's day snapshot at its rank position.
fn family_update(
    fam: &Vec<(u64, Vec<(String, RateCount)>)>,
    desc: bool,
    key: &String,
    rc: RateCount,
    now: u64,
) -> (r: Vec<(u64, Vec<(String, RateCount)>)>)
    requires
        days_sorted(days_view(fam@)),
    ensures
        days_view(r@) == days_after(desc, days_view(fam@), key@, rc, now),
{
    let ghost dv = days_view(fam@);
    let day_remainder = now % DAY_IN_SECONDS;
    let year_remainder = now % (366 * DAY_IN_SECONDS);
    proof {
        vstd::arithmetic::div_mod::lemma_mod_decreases(now as nat, DAY_IN_SECONDS as nat);
        vstd::arithmetic::div_mod::lemma_mod_decreases(now as nat, (366 * DAY_IN_SECONDS) as nat);
    }
    let last_day_ts = now - day_remainder;
    let last_year_ts = now - year_remainder;
    proof {
        assert(last_day_ts == day_start_of(now));
        assert(last_year_ts == year_cutoff_of(now));
        lemma_evict_le(dv, last_year_ts);
    }
    let evicted = days_evict(fam, last_year_ts);
    let ghost ev = days_view(evicted@);
    let bucket_src: Vec<(String, RateCount)> = match days_find(&evicted, last_day_ts) {
        Option::Some(i) => {
            proof {
                lemma_day_index(ev, last_day_ts, i as int);
                assert(ev[i as int].1 == board_view(evicted@[i as int].1@));
            }
            board_clone(&evicted[i].1)
        },
        Option::None => Vec::new(),
    };
    proof {
        if has_day(ev, day_start_of(now)) {
            assert(board_view(bucket_src@) == day_at(ev, day_start_of(now)));
        } else {
            assert(board_view(bucket_src@) =~= Seq::<(Seq<char>, RateCount)>::empty());
        }
    }
    let removed = board_remove(&bucket_src, key);
    let mut nb = board_insert(desc, removed, key.clone(), rc);
    let ghost ibv = board_view(nb@);
    nb.truncate(MAX_LEN_DAY);
    proof {
        if ibv.len() > MAX_LEN_DAY {
            assert(board_view(nb@) =~= trunc(ibv, MAX_LEN_DAY as int));
        } else {
            assert(board_view(nb@) == trunc(ibv, MAX_LEN_DAY as int));
        }
    }
    let out = days_put(evicted, last_day_ts, nb);
    proof {
        assert(days_view(out@) == days_after(desc, dv, key@, rc, now));
    }
    out
}

impl RateStore {
    /// Submits one rating for an item: validates the submission, records
    /// the irrevocable (item, rater) sample, folds the all-time and day
    /// aggregates, evicts day buckets older than the rolling cutoff, and
    /// rewrites the bounded rankings — or rejects the submission, in which
    /// case nothing changes. Returns the item's updated aggregates.
    pub fn rate(&mut self, class_id: &String, sender: &String, v: u8, now: u64) -> (result: Result<
        RateCounts,
        RateError,
    >)
        requires
            old(self).wf(),
            now <= MAX_TS,
        ensures
            final(self).wf(),
            final(self).nfts@ == old(self).nfts@,
            result == Err::<RateCounts, RateError>(RateError::NotFound) <==> !has_item(
                old(self).nfts@,
                class_id@,
            ),
            result == Err::<RateCounts, RateError>(RateError::DuplicateRating) <==> has_item(
                old(self).nfts@,
                class_id@,
            ) && has_rating(old(self).ratings@, class_id@, sender@),
            result == Err::<RateCounts, RateError>(RateError::InvalidValue) <==> has_item(
                old(self).nfts@,
                class_id@,
            ) && !has_rating(old(self).ratings@, class_id@, sender@) && !(1 <= v && v <= 5),
            result is Ok <==> has_item(old(self).nfts@, class_id@) && !has_rating(
                old(self).ratings@,
                class_id@,
                sender@,
            ) && 1 <= v && v <= 5,
            result is Err ==> *final(self) == *old(self),
            result matches Ok(rc) ==> rc == folded_counts(
                if has_count(old(self).rate_counts@, class_id@) {
                    Some(count_at(old(self).rate_counts@, class_id@))
                } else {
                    None
                },
                v,
                now,
            ),
            result is Ok ==> final(self).ratings@.len() == old(self).ratings@.len() + 1,
            result is Ok ==> forall|i: int|
                0 <= i < old(self).ratings@.len() ==> final(self).ratings@[i]
                    == old(self).ratings@[i],
            result is Ok ==> final(self).ratings@.last().0@ == class_id@
                && final(self).ratings@.last().1@ == sender@
                && final(self).ratings@.last().2 == (Rate { ts: now, v }),
            result matches Ok(rc) ==> has_count(final(self).rate_counts@, class_id@) && count_at(
                final(self).rate_counts@,
                class_id@,
            ) == rc,
            result is Ok ==> forall|k2: Seq<char>|
                k2 != class_id@ ==> (#[trigger] has_count(final(self).rate_counts@, k2)
                    <==> has_count(old(self).rate_counts@, k2)),
            result is Ok ==> forall|k2: Seq<char>|
                k2 != class_id@ && has_count(old(self).rate_counts@, k2) ==> #[trigger] count_at(
                    final(self).rate_counts@,
                    k2,
                ) == count_at(old(self).rate_counts@, k2),
            result matches Ok(rc) ==> board_view(final(self).rate_ath@) == ath_after(
                board_view(old(self).rate_ath@),
                class_id@,
                rc.all,
            ),
            result matches Ok(rc) ==> board_view(final(self).rate_atl@) == atl_after(
                board_view(old(self).rate_ath@),
                board_view(old(self).rate_atl@),
                class_id@,
                rc.all,
            ),
            result matches Ok(rc) ==> days_view(final(self).rate_day_ath@) == days_after(
                true,
                days_view(old(self).rate_day_ath@),
                class_id@,
                rc.day,
                now,
            ),
            result matches Ok(rc) ==> days_view(final(self).rate_day_atl@) == days_after(
                false,
                days_view(old(self).rate_day_atl@),
                class_id@,
                rc.day,
                now,
            ),
            result is Ok ==> forall|dk: u64|
                #[trigger] has_day(days_view(final(self).rate_day_ath@), dk) ==> dk + 366
                    * DAY_IN_SECONDS > now,
            result is Ok ==> forall|dk: u64|
                #[trigger] has_day(days_view(final(self).rate_day_atl@), dk) ==> dk + 366
                    * DAY_IN_SECONDS > now,
    {
        // validation: every rejection happens before any state changes
        match find_item(&self.nfts, class_id) {
            Option::None => {
                return Err(RateError::NotFound);
            },
            Option::Some(i) => {
                proof {
                    assert(has_item(self.nfts@, class_id@)) by {
                        assert(self.nfts@[i as int].class_id@ == class_id@);
                    }
                }
            },
        }
        match find_rating(&self.ratings, class_id, sender) {
            Option::Some(i) => {
                proof {
                    assert(has_rating(self.ratings@, class_id@, sender@)) by {
                        assert(self.ratings@[i as int].0@ == class_id@ && self.ratings@[i as int].1@
                            == sender@);
                    }
                }
                return Err(RateError::DuplicateRating);
            },
            Option::None => {},
        }
        if v < 1 || v > 5 {
            return Err(RateError::InvalidValue);
        }
        let ghost oath = board_view(old(self).rate_ath@);
        let ghost oatl = board_view(old(self).rate_atl@);
        let ghost odath = days_view(old(self).rate_day_ath@);
        let ghost odatl = days_view(old(self).rate_day_atl@);

        // the irrevocable sample
        self.ratings.push((class_id.clone(), sender.clone(), Rate { ts: now, v }));

        // fold both running aggregates
        let prev: Option<RateCounts> = match find_count(&self.rate_counts, class_id) {
            Option::Some(i) => {
                proof {
                    lemma_count_index(old(self).rate_counts@, class_id@, i as int);
                    assert(count_ok(old(self).rate_counts@[i as int].1));
                }
                Option::Some(self.rate_counts[i].1)
            },
            Option::None => Option::None,
        };
        let rc = fold_counts(prev, v, now);
        proof {
            assert(count_ok(rc));
            assert(rc.all.total >= 1 && rc.day.total >= 1);
        }
        store_count(&mut self.rate_counts, class_id, rc);

        // all-time leaderboards: replace the snapshot, re-rank, retruncate
        proof {
            assert(board_shape(true, oath, MAX_LEN_ALL_TIME as int));
            assert(board_shape(false, oatl, MAX_LEN_ALL_TIME as int));
            lemma_all_time_after(oath, oatl, class_id@, rc.all);
        }
        let removed_ath = board_remove(&self.rate_ath, class_id);
        let ath_full = board_insert(true, removed_ath, class_id.clone(), rc.all);
        let removed_atl = board_remove(&self.rate_atl, class_id);
        let atl_full = board_insert(false, removed_atl, class_id.clone(), rc.all);
        if ath_full.len() > MAX_LEN_ALL_TIME {
            let ghost afv = board_view(ath_full@);
            let mut t = ath_full;
            t.truncate(MAX_LEN_ALL_TIME);
            proof {
                assert(board_view(t@) =~= trunc(afv, MAX_LEN_ALL_TIME as int));
            }
            let kept = board_keep(&atl_full, &t);
            self.rate_ath = t;
            self.rate_atl = kept;
        } else {
            self.rate_ath = ath_full;
            self.rate_atl = atl_full;
        }
        proof {
            assert(board_view(self.rate_ath@) == ath_after(oath, class_id@, rc.all));
            assert(board_view(self.rate_atl@) == atl_after(oath, oatl, class_id@, rc.all));
        }

        // day buckets: evict stale days, then rewrite today's buckets
        proof {
            assert forall|i: int| 0 <= i < odath.len() implies #[trigger] board_shape(
                true,
                odath[i].1,
                MAX_LEN_DAY as int,
            ) by {
                assert(bucket_ok(true, odath[i].1, old(self).nfts@));
            }
            assert forall|i: int| 0 <= i < odatl.len() implies #[trigger] board_shape(
                false,
                odatl[i].1,
                MAX_LEN_DAY as int,
            ) by {
                assert(bucket_ok(false, odatl[i].1, old(self).nfts@));
            }
            lemma_days_after(true, odath, class_id@, rc.day, now);
            lemma_days_after(false, odatl, class_id@, rc.day, now);
        }
        let new_day_ath = family_update(&self.rate_day_ath, true, class_id, rc.day, now);
        self.rate_day_ath = new_day_ath;
        let new_day_atl = family_update(&self.rate_day_atl, false, class_id, rc.day, now);
        self.rate_day_atl = new_day_atl;

        // every invariant holds of the new state
        proof {
            let orl = old(self).ratings@.len() as int;
            assert forall|a: int, b: int| 0 <= a < b < self.ratings@.len() implies !(
            self.ratings@[a].0@ == self.ratings@[b].0@ && self.ratings@[a].1@
                == self.ratings@[b].1@) by {
                if b < orl {
                    assert(self.ratings@[a] == old(self).ratings@[a]
                        && self.ratings@[b] == old(self).ratings@[b]);
                } else {
                    assert(self.ratings@[b].0@ == class_id@ && self.ratings@[b].1@ == sender@);
                    assert(self.ratings@[a] == old(self).ratings@[a]);
                    if self.ratings@[a].0@ == class_id@ && self.ratings@[a].1@ == sender@ {
                        assert(has_rating(old(self).ratings@, class_id@, sender@)) by {
                            assert(old(self).ratings@[a].0@ == class_id@
                                && old(self).ratings@[a].1@ == sender@);
                        }
                    }
                }
            }
            assert forall|i: int| 0 <= i < self.rate_counts@.len() implies #[trigger] count_ok(
                self.rate_counts@[i].1,
            ) by {
                if !(self.rate_counts@[i].0@ == class_id@ && self.rate_counts@[i].1 == rc) {
                    assert(old(self).rate_counts@.contains(self.rate_counts@[i]));
                    let m = choose|m: int|
                        0 <= m < old(self).rate_counts@.len() && old(self).rate_counts@[m]
                            == self.rate_counts@[i];
                    assert(count_ok(old(self).rate_counts@[m].1));
                }
            }
            assert forall|i: int| 0 <= i < self.rate_counts@.len() implies has_item(
                self.nfts@,
                self.rate_counts@[i].0@,
            ) by {
                if self.rate_counts@[i].0@ != class_id@ {
                    assert(old(self).rate_counts@.contains(self.rate_counts@[i]));
                    let m = choose|m: int|
                        0 <= m < old(self).rate_counts@.len() && old(self).rate_counts@[m]
                            == self.rate_counts@[i];
                    assert(has_item(old(self).nfts@, old(self).rate_counts@[m].0@));
                }
            }
            // the two all-time views hold copies of the current aggregates
            let nav = board_view(self.rate_ath@);
            let nlv = board_view(self.rate_atl@);
            assert forall|i: int| 0 <= i < nav.len() implies #[trigger] has_count(
                self.rate_counts@,
                nav[i].0,
            ) by {
                assert(nav.contains(nav[i]));
                if nav[i] != (class_id@, rc.all) {
                    assert(oath.contains(nav[i]) && nav[i].0 != class_id@);
                    let m = choose|m: int| 0 <= m < oath.len() && oath[m] == nav[i];
                    lemma_board_ok_entry(true, oath, old(self).rate_counts@, m);
                }
            }
            assert forall|i: int|
                #![trigger count_at(self.rate_counts@, nav[i].0)]
                0 <= i < nav.len() implies count_at(self.rate_counts@, nav[i].0).all
                == nav[i].1 by {
                assert(nav.contains(nav[i]));
                if nav[i] == (class_id@, rc.all) {
                } else {
                    assert(oath.contains(nav[i]) && nav[i].0 != class_id@);
                    let m = choose|m: int| 0 <= m < oath.len() && oath[m] == nav[i];
                    lemma_board_ok_entry(true, oath, old(self).rate_counts@, m);
                    assert(has_count(old(self).rate_counts@, oath[m].0) && count_at(
                        old(self).rate_counts@,
                        oath[m].0,
                    ).all == oath[m].1);
                }
            }
            assert forall|i: int| 0 <= i < nlv.len() implies #[trigger] has_count(
                self.rate_counts@,
                nlv[i].0,
            ) by {
                assert(nlv.contains(nlv[i]));
                if nlv[i] != (class_id@, rc.all) {
                    assert(oatl.contains(nlv[i]) && nlv[i].0 != class_id@);
                    let m = choose|m: int| 0 <= m < oatl.len() && oatl[m] == nlv[i];
                    lemma_board_ok_entry(false, oatl, old(self).rate_counts@, m);
                }
            }
            assert forall|i: int|
                #![trigger count_at(self.rate_counts@, nlv[i].0)]
                0 <= i < nlv.len() implies count_at(self.rate_counts@, nlv[i].0).all
                == nlv[i].1 by {
                assert(nlv.contains(nlv[i]));
                if nlv[i] == (class_id@, rc.all) {
                } else {
                    assert(oatl.contains(nlv[i]) && nlv[i].0 != class_id@);
                    let m = choose|m: int| 0 <= m < oatl.len() && oatl[m] == nlv[i];
                    lemma_board_ok_entry(false, oatl, old(self).rate_counts@, m);
                    assert(has_count(old(self).rate_counts@, oatl[m].0) && count_at(
                        old(self).rate_counts@,
                        oatl[m].0,
                    ).all == oatl[m].1);
                }
            }
            assert(board_ok(true, nav, self.rate_counts@));
            assert(board_ok(false, nlv, self.rate_counts@));
            // both bucket families stay sound
            let ndv = days_view(self.rate_day_ath@);
            let nlw = days_view(self.rate_day_atl@);
            assert forall|i: int| 0 <= i < ndv.len() implies #[trigger] bucket_ok(
                true,
                ndv[i].1,
                self.nfts@,
            ) by {
                assert(board_shape(true, days_after(true, odath, class_id@, rc.day, now)[i].1, MAX_LEN_DAY as int));
                assert forall|m: int| 0 <= m < ndv[i].1.len() implies has_item(
                    self.nfts@,
                    ndv[i].1[m].0,
                ) by {
                    if ndv[i].1[m] == (class_id@, rc.day) {
                    } else {
                        assert(bucket_entry_of(odath, ndv[i].1[m]));
                        let a = choose|a: int|
                            0 <= a < odath.len() && odath[a].1.contains(ndv[i].1[m]);
                        lemma_days_ok_bucket(true, odath, old(self).nfts@, a);
                        let w = choose|w: int|
                            0 <= w < odath[a].1.len() && odath[a].1[w] == ndv[i].1[m];
                        assert(has_item(old(self).nfts@, odath[a].1[w].0));
                    }
                }
            }
            assert forall|i: int| 0 <= i < nlw.len() implies #[trigger] bucket_ok(
                false,
                nlw[i].1,
                self.nfts@,
            ) by {
                assert(board_shape(false, days_after(false, odatl, class_id@, rc.day, now)[i].1, MAX_LEN_DAY as int));
                assert forall|m: int| 0 <= m < nlw[i].1.len() implies has_item(
                    self.nfts@,
                    nlw[i].1[m].0,
                ) by {
                    if nlw[i].1[m] == (class_id@, rc.day) {
                    } else {
                        assert(bucket_entry_of(odatl, nlw[i].1[m]));
                        let a = choose|a: int|
                            0 <= a < odatl.len() && odatl[a].1.contains(nlw[i].1[m]);
                        lemma_days_ok_bucket(false, odatl, old(self).nfts@, a);
                        let w = choose|w: int|
                            0 <= w < odatl[a].1.len() && odatl[a].1[w] == nlw[i].1[m];
                        assert(has_item(old(self).nfts@, odatl[a].1[w].0));
                    }
                }
            }
            assert(days_ok(true, ndv, self.nfts@));
            assert(days_ok(false, nlw, self.nfts@));
            // no bucket survives from more than the rolling window ago
            assert forall|dk: u64| #[trigger] has_day(ndv, dk) implies dk + 366 * DAY_IN_SECONDS
                > now by {
                assert(dk > year_cutoff_of(now) || dk == day_start_of(now));
            }
            assert forall|dk: u64| #[trigger] has_day(nlw, dk) implies dk + 366 * DAY_IN_SECONDS
                > now by {
                assert(dk > year_cutoff_of(now) || dk == day_start_of(now));
            }
            assert(self.wf());
        }
        Ok(rc)
    }
}

} // verus!
