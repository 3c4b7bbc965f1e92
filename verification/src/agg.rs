use vstd::prelude::*;

use crate::types::{RateCount, RateCounts, DAY_IN_SECONDS, MAX_TS};

verus! {

/// The `u64` a saturating computation leaves of an unbounded value.
pub open spec fn sat64(x: int) -> u64 {
    if x > u64::MAX {
        u64::MAX
    } else {
        x as u64
    }
}

/// Start of the ranking day `now` falls in: `now` floored to the day grid.
pub open spec fn day_start_of(now: u64) -> u64 {
    (now - (now % DAY_IN_SECONDS)) as u64
}

/// The rolling eviction cutoff: `now` floored to the 366-day grid. Day
/// buckets keyed at or below it are purged by the next submission.
pub open spec fn year_cutoff_of(now: u64) -> u64 {
    (now - (now % ((366 * DAY_IN_SECONDS) as u64))) as u64
}

/// A fresh aggregate: one rating of value `v`, stamped `now`.
pub open spec fn init_count(v: u8, now: u64) -> RateCount {
    RateCount { ts: now, sum: v as u64, total: 1 }
}

/// The all-time aggregate folded with one more rating: sum and total grow
/// saturating, and the window timestamp is cleared.
pub open spec fn fold_all(rc: RateCount, v: u8) -> RateCount {
    RateCount { ts: 0, sum: sat64(rc.sum + v), total: sat64(rc.total + 1) }
}

/// Whether the stored day aggregate still counts as current at `now`. This
/// is the sum-based check the stored data exhibits — stored timestamp plus
/// day start exceeding `now` — not an equality test on the day key.
pub open spec fn day_is_current(rc: RateCount, now: u64) -> bool {
    rc.ts + day_start_of(now) > now
}

/// The day aggregate folded with one more rating: accumulate while the
/// stored window still counts as current, stamping the submission time;
/// otherwise start the day afresh at the day start.
pub open spec fn fold_day(rc: RateCount, v: u8, now: u64) -> RateCount {
    if day_is_current(rc, now) {
        RateCount { ts: now, sum: sat64(rc.sum + v), total: sat64(rc.total + 1) }
    } else {
        RateCount { ts: day_start_of(now), sum: v as u64, total: 1 }
    }
}

/// Both aggregates of an item after one accepted rating: an item's first
/// rating starts both windows with the same fresh count.
pub open spec fn folded_counts(rc: Option<RateCounts>, v: u8, now: u64) -> RateCounts {
    match rc {
        Some(c) => RateCounts { all: fold_all(c.all, v), day: fold_day(c.day, v, now) },
        None => RateCounts { all: init_count(v, now), day: init_count(v, now) },
    }
}

/// Computes `folded_counts` at run time.
pub fn fold_counts(rc: Option<RateCounts>, v: u8, now: u64) -> (r: RateCounts)
    requires
        now <= MAX_TS,
        rc matches Some(c) ==> c.day.ts <= MAX_TS,
    ensures
        r == folded_counts(rc, v, now),
{
    match rc {
        Option::Some(c) => {
            let all = RateCount {
                ts: 0,
                sum: c.all.sum.saturating_add(v as u64),
                total: c.all.total.saturating_add(1),
            };
            let day_start = now - now % DAY_IN_SECONDS;
            let day = if c.day.ts + day_start > now {
                RateCount {
                    ts: now,
                    sum: c.day.sum.saturating_add(v as u64),
                    total: c.day.total.saturating_add(1),
                }
            } else {
                RateCount { ts: day_start, sum: v as u64, total: 1 }
            };
            RateCounts { all, day }
        },
        Option::None => {
            let first = RateCount { ts: now, sum: v as u64, total: 1 };
            RateCounts { all: first, day: first }
        },
    }
}

} // verus!
