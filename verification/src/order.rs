use vstd::prelude::*;

use crate::types::RateCount;

verus! {

/// `a`'s mean rating is at least `b`'s, decided by cross-multiplication:
/// `a.sum / a.total >= b.sum / b.total` without any division.
pub open spec fn ranks_geq(a: RateCount, b: RateCount) -> bool {
    a.sum * b.total >= b.sum * a.total
}

/// The order a leaderboard keeps: means descending when `desc` holds
/// (highest first), ascending otherwise (lowest first).
pub open spec fn ordered(desc: bool, a: RateCount, b: RateCount) -> bool {
    if desc {
        ranks_geq(a, b)
    } else {
        ranks_geq(b, a)
    }
}

/// Any two aggregates compare in at least one direction.
pub proof fn lemma_ordered_total(desc: bool, a: RateCount, b: RateCount)
    ensures
        ordered(desc, a, b) || ordered(desc, b, a),
{
}

proof fn lemma_cross_trans(sa: int, ta: int, sb: int, tb: int, sc: int, tc: int)
    by (nonlinear_arith)
    requires
        ta >= 0,
        tb >= 1,
        tc >= 0,
        sa >= 0,
        sb >= 0,
        sc >= 0,
        sa * tb >= sb * ta,
        sb * tc >= sc * tb,
    ensures
        sa * tc >= sc * ta,
{
}

/// The leaderboard order is transitive as long as the middle aggregate has
/// at least one rating; `total >= 1` holds of every stored aggregate.
pub proof fn lemma_ordered_trans(desc: bool, a: RateCount, b: RateCount, c: RateCount)
    requires
        b.total >= 1,
        ordered(desc, a, b),
        ordered(desc, b, c),
    ensures
        ordered(desc, a, c),
{
    if desc {
        lemma_cross_trans(
            a.sum as int,
            a.total as int,
            b.sum as int,
            b.total as int,
            c.sum as int,
            c.total as int,
        );
    } else {
        lemma_cross_trans(
            c.sum as int,
            c.total as int,
            b.sum as int,
            b.total as int,
            a.sum as int,
            a.total as int,
        );
    }
}

/// Decides `ranks_geq` at run time, on 128-bit products that cannot overflow.
pub fn ranks_at_least(a: &RateCount, b: &RateCount) -> (r: bool)
    ensures
        r == ranks_geq(*a, *b),
{
    proof {
        vstd::arithmetic::mul::lemma_mul_upper_bound(
            a.sum as int,
            u64::MAX as int,
            b.total as int,
            u64::MAX as int,
        );
        vstd::arithmetic::mul::lemma_mul_upper_bound(
            b.sum as int,
            u64::MAX as int,
            a.total as int,
            u64::MAX as int,
        );
    }
    let x: u128 = (a.sum as u128) * (b.total as u128);
    let y: u128 = (b.sum as u128) * (a.total as u128);
    x >= y
}

/// Decides `ordered` at run time.
pub fn is_ordered(desc: bool, a: &RateCount, b: &RateCount) -> (r: bool)
    ensures
        r == ordered(desc, *a, *b),
{
    if desc {
        ranks_at_least(a, b)
    } else {
        ranks_at_least(b, a)
    }
}

/// The three-way outcome of comparing two integers.
pub open spec fn cmp_of(x: int, y: int) -> core::cmp::Ordering {
    if x < y {
        core::cmp::Ordering::Less
    } else if x == y {
        core::cmp::Ordering::Equal
    } else {
        core::cmp::Ordering::Greater
    }
}

/// Comparator for highest-first rankings: an entry with the greater mean
/// compares as earlier. Ties in the cross-multiplied means compare equal.
pub fn compare_desc(a: &(String, RateCount), b: &(String, RateCount)) -> (r: core::cmp::Ordering)
    ensures
        r == cmp_of(b.1.sum * a.1.total, a.1.sum * b.1.total),
{
    proof {
        vstd::arithmetic::mul::lemma_mul_upper_bound(
            a.1.sum as int,
            u64::MAX as int,
            b.1.total as int,
            u64::MAX as int,
        );
        vstd::arithmetic::mul::lemma_mul_upper_bound(
            b.1.sum as int,
            u64::MAX as int,
            a.1.total as int,
            u64::MAX as int,
        );
    }
    let avg_a: u128 = (a.1.sum as u128) * (b.1.total as u128);
    let avg_b: u128 = (b.1.sum as u128) * (a.1.total as u128);
    avg_b.cmp(&avg_a)
}

/// Comparator for lowest-first rankings: the mirror of `compare_desc`.
pub fn compare_asc(a: &(String, RateCount), b: &(String, RateCount)) -> (r: core::cmp::Ordering)
    ensures
        r == cmp_of(a.1.sum * b.1.total, b.1.sum * a.1.total),
{
    proof {
        vstd::arithmetic::mul::lemma_mul_upper_bound(
            a.1.sum as int,
            u64::MAX as int,
            b.1.total as int,
            u64::MAX as int,
        );
        vstd::arithmetic::mul::lemma_mul_upper_bound(
            b.1.sum as int,
            u64::MAX as int,
            a.1.total as int,
            u64::MAX as int,
        );
    }
    let avg_a: u128 = (a.1.sum as u128) * (b.1.total as u128);
    let avg_b: u128 = (b.1.sum as u128) * (a.1.total as u128);
    avg_a.cmp(&avg_b)
}

} // verus!
