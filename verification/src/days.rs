use vstd::prelude::*;

use crate::ranking::{board_view, Board};
use crate::types::RateCount;

verus! {

/// The mathematical shape of one family of day buckets: pairs of day key and
/// bucket, kept in strictly descending key order.
pub type Days = Seq<(u64, Board)>;

/// What a stored bucket-family vector denotes.
pub open spec fn days_view(s: Seq<(u64, Vec<(String, RateCount)>)>) -> Days {
    s.map_values(|p: (u64, Vec<(String, RateCount)>)| (p.0, board_view(p.1@)))
}

/// A bucket exists for day key `k`.
pub open spec fn has_day(d: Days, k: u64) -> bool {
    exists|i: int| 0 <= i < d.len() && d[i].0 == k
}

/// The index of the bucket keyed `k`.
pub open spec fn day_index(d: Days, k: u64) -> int {
    choose|i: int| 0 <= i < d.len() && d[i].0 == k
}

/// The bucket keyed `k`.
pub open spec fn day_at(d: Days, k: u64) -> Board {
    d[day_index(d, k)].1
}

/// Day keys strictly descending; no two buckets share a key.
pub open spec fn days_sorted(d: Days) -> bool {
    forall|i: int, j: int| 0 <= i < j < d.len() ==> d[i].0 > d[j].0
}

/// The family without every bucket keyed at or below `cutoff`.
pub open spec fn evict_le(d: Days, cutoff: u64) -> Days
    decreases d.len(),
{
    if d.len() == 0 {
        Seq::empty()
    } else if d[0].0 <= cutoff {
        evict_le(d.drop_first(), cutoff)
    } else {
        seq![d[0]] + evict_le(d.drop_first(), cutoff)
    }
}

/// The family with the bucket keyed `k` replaced by `b`, or with `(k, b)`
/// placed at its key position where no such bucket stood.
pub open spec fn upsert_day(d: Days, k: u64, b: Board) -> Days
    decreases d.len(),
{
    if d.len() == 0 {
        seq![(k, b)]
    } else if d[0].0 == k {
        seq![(k, b)] + d.drop_first()
    } else if d[0].0 > k {
        seq![d[0]] + upsert_day(d.drop_first(), k, b)
    } else {
        seq![(k, b)] + d
    }
}

/// What eviction keeps: exactly the buckets keyed above the cutoff,
/// untouched and in order.
pub proof fn lemma_evict_le(d: Days, cutoff: u64)
    requires
        days_sorted(d),
    ensures
        days_sorted(evict_le(d, cutoff)),
        forall|k: u64| #[trigger] has_day(evict_le(d, cutoff), k) <==> has_day(d, k) && k > cutoff,
        forall|x: (u64, Board)| #[trigger] evict_le(d, cutoff).contains(x) ==> d.contains(x),
        forall|k: u64|
            has_day(d, k) && k > cutoff ==> #[trigger] day_at(evict_le(d, cutoff), k) == day_at(
                d,
                k,
            ),
        evict_le(d, cutoff).len() <= d.len(),
    decreases d.len(),
{
    let ev = evict_le(d, cutoff);
    if d.len() == 0 {
    } else {
        let rest = d.drop_first();
        assert(days_sorted(rest)) by {
            assert forall|i: int, j: int| 0 <= i < j < rest.len() implies rest[i].0 > rest[j].0 by {
                assert(rest[i] == d[i + 1] && rest[j] == d[j + 1]);
            }
        }
        lemma_evict_le(rest, cutoff);
        let er = evict_le(rest, cutoff);
        assert forall|k: u64| #[trigger] has_day(rest, k) implies has_day(d, k) by {
            let i = choose|i: int| 0 <= i < rest.len() && rest[i].0 == k;
            assert(d[i + 1].0 == k);
        }
        assert forall|x: (u64, Board)| rest.contains(x) implies d.contains(x) by {
            let i = choose|i: int| 0 <= i < rest.len() && rest[i] == x;
            assert(d[i + 1] == x);
        }
        if d[0].0 <= cutoff {
            assert(ev =~= er);
            assert forall|k: u64| has_day(d, k) && k > cutoff implies #[trigger] has_day(ev, k)
                && day_at(ev, k) == day_at(d, k) by {
                let i = choose|i: int| 0 <= i < d.len() && d[i].0 == k;
                assert(i != 0);
                assert(has_key_day(rest, k, i - 1)) by { assert(rest[i - 1] == d[i]) }
                assert(has_day(rest, k));
                assert(day_at(rest, k) == day_at(d, k)) by {
                    let m = day_index(rest, k);
                    let m0 = day_index(d, k);
                    assert(rest[m] == d[m + 1]);
                    assert(m + 1 == m0) by {
                        if m + 1 < m0 {
                            assert(d[m + 1].0 > d[m0].0);
                        } else if m0 < m + 1 {
                            assert(d[m0].0 > d[m + 1].0);
                        }
                    }
                }
            }
            assert forall|k: u64| #[trigger] has_day(ev, k) implies has_day(d, k) && k > cutoff by {
                assert(has_day(rest, k));
            }
        } else {
            assert(ev =~= seq![d[0]] + er);
            assert forall|k: u64| #[trigger] has_day(ev, k) implies has_day(d, k) && k > cutoff by {
                let i = choose|i: int| 0 <= i < ev.len() && ev[i].0 == k;
                if i == 0 {
                    assert(d[0].0 == k);
                } else {
                    assert(has_day(er, k)) by { assert(er[i - 1].0 == k) }
                }
            }
            assert forall|k: u64| has_day(d, k) && k > cutoff implies #[trigger] has_day(ev, k) by {
                let i = choose|i: int| 0 <= i < d.len() && d[i].0 == k;
                if i == 0 {
                    assert(ev[0].0 == k);
                } else {
                    assert(has_day(rest, k)) by { assert(rest[i - 1].0 == k) }
                    assert(has_day(er, k));
                    let m = choose|m: int| 0 <= m < er.len() && er[m].0 == k;
                    assert(ev[m + 1].0 == k);
                }
            }
            assert forall|x: (u64, Board)| ev.contains(x) implies d.contains(x) by {
                let i = choose|i: int| 0 <= i < ev.len() && ev[i] == x;
                if i == 0 {
                    assert(d[0] == x);
                } else {
                    assert(er.contains(x)) by { assert(er[i - 1] == x) }
                }
            }
            assert(days_sorted(ev)) by {
                assert forall|i: int, j: int| 0 <= i < j < ev.len() implies ev[i].0 > ev[j].0 by {
                    if i == 0 {
                        assert(er.contains(ev[j])) by { assert(er[j - 1] == ev[j]) }
                        assert(rest.contains(ev[j]));
                        let m = choose|m: int| 0 <= m < rest.len() && rest[m] == ev[j];
                        assert(rest[m] == d[m + 1]);
                    } else {
                        assert(ev[i] == er[i - 1] && ev[j] == er[j - 1]);
                    }
                }
            }
            assert forall|k: u64| has_day(d, k) && k > cutoff implies #[trigger] day_at(ev, k)
                == day_at(d, k) by {
                assert(has_day(ev, k));
                let m = day_index(ev, k);
                let m0 = day_index(d, k);
                assert(0 <= m < ev.len() && ev[m].0 == k);
                assert(0 <= m0 < d.len() && d[m0].0 == k);
                if m == 0 {
                    assert(m0 == 0) by {
                        if m0 > 0 {
                            assert(d[0].0 > d[m0].0);
                            assert(has_day(er, k));
                        }
                    }
                } else {
                    assert(er.contains(ev[m])) by { assert(er[m - 1] == ev[m]) }
                    assert(rest.contains(ev[m]));
                    let w = choose|w: int| 0 <= w < rest.len() && rest[w] == ev[m];
                    assert(rest[w] == d[w + 1]);
                    assert(w + 1 == m0) by {
                        if w + 1 < m0 {
                            assert(d[w + 1].0 > d[m0].0);
                        } else if m0 < w + 1 {
                            assert(d[m0].0 > d[w + 1].0);
                        }
                    }
                }
            }
        }
    }
}

/// Bridge for naming an index witness inside quantified proofs.
spec fn has_key_day(d: Days, k: u64, i: int) -> bool {
    0 <= i < d.len() && d[i].0 == k
}

/// With strictly ordered keys, an index that carries key `k` is the one the
/// lookup denotes.
pub proof fn lemma_day_index(d: Days, k: u64, i: int)
    requires
        days_sorted(d),
        0 <= i < d.len(),
        d[i].0 == k,
    ensures
        has_day(d, k),
        day_index(d, k) == i,
        day_at(d, k) == d[i].1,
{
    assert(has_day(d, k)) by { assert(has_key_day(d, k, i)) }
    let m = day_index(d, k);
    if m < i {
        assert(d[m].0 > d[i].0);
    } else if i < m {
        assert(d[i].0 > d[m].0);
    }
}

/// The shape of an upsert at the key position `i`: a replacement in place
/// where the key already stands, otherwise an insertion at `i`.
proof fn lemma_upsert_day_shape(d: Days, k: u64, b: Board, i: int)
    requires
        days_sorted(d),
        0 <= i <= d.len(),
        forall|j: int| 0 <= j < i ==> d[j].0 > k,
        i < d.len() ==> d[i].0 <= k,
    ensures
        upsert_day(d, k, b) == (if i < d.len() && d[i].0 == k {
            d.update(i, (k, b))
        } else {
            d.take(i) + seq![(k, b)] + d.skip(i)
        }),
    decreases i,
{
    let u = upsert_day(d, k, b);
    if i == 0 {
        if d.len() == 0 {
            assert(u =~= d.take(0) + seq![(k, b)] + d.skip(0));
        } else if d[0].0 == k {
            assert(u =~= d.update(0, (k, b)));
        } else {
            assert(d[0].0 < k);
            assert(u =~= d.take(0) + seq![(k, b)] + d.skip(0));
        }
    } else {
        let rest = d.drop_first();
        assert(days_sorted(rest)) by {
            assert forall|a: int, c: int| 0 <= a < c < rest.len() implies rest[a].0 > rest[c].0 by {
                assert(rest[a] == d[a + 1] && rest[c] == d[c + 1]);
            }
        }
        assert forall|j: int| 0 <= j < i - 1 implies rest[j].0 > k by {
            assert(rest[j] == d[j + 1]);
        }
        assert(i - 1 < rest.len() ==> rest[i - 1].0 <= k) by {
            if i - 1 < rest.len() {
                assert(rest[i - 1] == d[i]);
            }
        }
        lemma_upsert_day_shape(rest, k, b, i - 1);
        assert(d[0].0 > k);
        let ur = upsert_day(rest, k, b);
        assert(u == seq![d[0]] + ur);
        if i < d.len() && d[i].0 == k {
            assert(rest[i - 1].0 == k);
            assert(ur == rest.update(i - 1, (k, b)));
            assert(u =~= d.update(i, (k, b)));
        } else {
            assert(ur == rest.take(i - 1) + seq![(k, b)] + rest.skip(i - 1));
            assert(u =~= d.take(i) + seq![(k, b)] + d.skip(i));
        }
    }
}

/// Replacing the bucket at an index that already carries the key keeps the
/// order and touches nothing else.
proof fn lemma_day_update_props(d: Days, k: u64, b: Board, i: int)
    requires
        days_sorted(d),
        0 <= i < d.len(),
        d[i].0 == k,
    ensures
        days_sorted(d.update(i, (k, b))),
        forall|k2: u64| #[trigger] has_day(d.update(i, (k, b)), k2) <==> has_day(d, k2) || k2 == k,
        day_at(d.update(i, (k, b)), k) == b,
        forall|k2: u64|
            k2 != k && has_day(d, k2) ==> #[trigger] day_at(d.update(i, (k, b)), k2) == day_at(
                d,
                k2,
            ),
        forall|x: (u64, Board)|
            #[trigger] d.update(i, (k, b)).contains(x) ==> d.contains(x) || x == (k, b),
        d.update(i, (k, b)).len() == d.len(),
{
    let r = d.update(i, (k, b));
    assert(days_sorted(r)) by {
        assert forall|a: int, c: int| 0 <= a < c < r.len() implies r[a].0 > r[c].0 by {
            assert(d[a].0 > d[c].0);
        }
    }
    assert forall|k2: u64| #[trigger] has_day(r, k2) implies has_day(d, k2) || k2 == k by {
        let m = choose|m: int| 0 <= m < r.len() && r[m].0 == k2;
        if m != i {
            assert(has_key_day(d, k2, m));
        }
    }
    assert forall|k2: u64| has_day(d, k2) || k2 == k implies #[trigger] has_day(r, k2) by {
        if k2 == k {
            assert(has_key_day(r, k2, i));
        } else {
            let m = choose|m: int| 0 <= m < d.len() && d[m].0 == k2;
            assert(m != i);
            assert(has_key_day(r, k2, m));
        }
    }
    lemma_day_index(r, k, i);
    assert forall|k2: u64| k2 != k && has_day(d, k2) implies #[trigger] day_at(r, k2) == day_at(
        d,
        k2,
    ) by {
        let m = choose|m: int| 0 <= m < d.len() && d[m].0 == k2;
        assert(m != i);
        lemma_day_index(d, k2, m);
        lemma_day_index(r, k2, m);
    }
    assert forall|x: (u64, Board)| r.contains(x) implies d.contains(x) || x == (k, b) by {
        let m = choose|m: int| 0 <= m < r.len() && r[m] == x;
        if m != i {
            assert(d[m] == x);
        }
    }
}

/// Inserting the bucket at the position its key orders it to keeps the
/// order and touches nothing else.
proof fn lemma_day_insert_props(d: Days, k: u64, b: Board, i: int)
    requires
        days_sorted(d),
        0 <= i <= d.len(),
        forall|j: int| 0 <= j < i ==> d[j].0 > k,
        i < d.len() ==> d[i].0 < k,
    ensures
        days_sorted(d.take(i) + seq![(k, b)] + d.skip(i)),
        forall|k2: u64|
            #[trigger] has_day(d.take(i) + seq![(k, b)] + d.skip(i), k2) <==> has_day(d, k2) || k2
                == k,
        day_at(d.take(i) + seq![(k, b)] + d.skip(i), k) == b,
        forall|k2: u64|
            k2 != k && has_day(d, k2) ==> #[trigger] day_at(d.take(i) + seq![(k, b)] + d.skip(i), k2)
                == day_at(d, k2),
        forall|x: (u64, Board)|
            #[trigger] (d.take(i) + seq![(k, b)] + d.skip(i)).contains(x) ==> d.contains(x) || x
                == (k, b),
        (d.take(i) + seq![(k, b)] + d.skip(i)).len() == d.len() + 1,
{
    let r = d.take(i) + seq![(k, b)] + d.skip(i);
    assert(days_sorted(r)) by {
        assert forall|a: int, c: int| 0 <= a < c < r.len() implies r[a].0 > r[c].0 by {
            if a < i {
                assert(r[a] == d[a]);
            }
            if c < i {
                assert(r[c] == d[c]);
            }
            if a > i {
                assert(r[a] == d[a - 1]);
            }
            if c > i {
                assert(r[c] == d[c - 1]);
            }
        }
    }
    assert forall|k2: u64| #[trigger] has_day(r, k2) implies has_day(d, k2) || k2 == k by {
        let m = choose|m: int| 0 <= m < r.len() && r[m].0 == k2;
        if m < i {
            assert(has_key_day(d, k2, m));
        } else if m > i {
            assert(has_key_day(d, k2, m - 1));
        }
    }
    assert forall|k2: u64| has_day(d, k2) || k2 == k implies #[trigger] has_day(r, k2) by {
        if k2 == k {
            assert(has_key_day(r, k2, i));
        } else {
            let m = choose|m: int| 0 <= m < d.len() && d[m].0 == k2;
            if m < i {
                assert(has_key_day(r, k2, m));
            } else {
                assert(has_key_day(r, k2, m + 1));
            }
        }
    }
    lemma_day_index(r, k, i);
    assert forall|k2: u64| k2 != k && has_day(d, k2) implies #[trigger] day_at(r, k2) == day_at(
        d,
        k2,
    ) by {
        let m = choose|m: int| 0 <= m < d.len() && d[m].0 == k2;
        lemma_day_index(d, k2, m);
        if m < i {
            lemma_day_index(r, k2, m);
        } else {
            lemma_day_index(r, k2, m + 1);
        }
    }
    assert forall|x: (u64, Board)| r.contains(x) implies d.contains(x) || x == (k, b) by {
        let m = choose|m: int| 0 <= m < r.len() && r[m] == x;
        if m < i {
            assert(d[m] == x);
        } else if m > i {
            assert(d[m - 1] == x);
        }
    }
}

/// What upserting at the key position `i` yields: the bucket keyed `k`
/// becomes `b`, every other bucket stands untouched, and the strict key
/// order is kept.
pub proof fn lemma_upsert_day(d: Days, k: u64, b: Board, i: int)
    requires
        days_sorted(d),
        0 <= i <= d.len(),
        forall|j: int| 0 <= j < i ==> d[j].0 > k,
        i < d.len() ==> d[i].0 <= k,
    ensures
        upsert_day(d, k, b) == (if i < d.len() && d[i].0 == k {
            d.update(i, (k, b))
        } else {
            d.take(i) + seq![(k, b)] + d.skip(i)
        }),
        days_sorted(upsert_day(d, k, b)),
        forall|k2: u64| #[trigger] has_day(upsert_day(d, k, b), k2) <==> has_day(d, k2) || k2 == k,
        day_at(upsert_day(d, k, b), k) == b,
        forall|k2: u64|
            k2 != k && has_day(d, k2) ==> #[trigger] day_at(upsert_day(d, k, b), k2) == day_at(
                d,
                k2,
            ),
        forall|x: (u64, Board)|
            #[trigger] upsert_day(d, k, b).contains(x) ==> d.contains(x) || x == (k, b),
        upsert_day(d, k, b).len() <= d.len() + 1,
{
    lemma_upsert_day_shape(d, k, b, i);
    if i < d.len() && d[i].0 == k {
        lemma_day_update_props(d, k, b, i);
    } else {
        assert(i < d.len() ==> d[i].0 < k);
        lemma_day_insert_props(d, k, b, i);
    }
}

/// First index whose key is at or below `k`, scanning from the front of a
/// family ordered by descending key.
fn days_pos(v: &Vec<(u64, Vec<(String, RateCount)>)>, k: u64) -> (i: usize)
    ensures
        0 <= i <= v.len(),
        forall|j: int| 0 <= j < i ==> days_view(v@)[j].0 > k,
        i < v.len() ==> days_view(v@)[i as int].0 <= k,
{
    let ghost dv = days_view(v@);
    let mut i: usize = 0;
    while i < v.len()
        invariant
            0 <= i <= v.len(),
            dv == days_view(v@),
            dv.len() == v.len(),
            forall|m: int| 0 <= m < v.len() ==> dv[m] == (v@[m].0, board_view(v@[m].1@)),
            forall|j: int| 0 <= j < i ==> dv[j].0 > k,
        decreases v.len() - i,
    {
        if v[i].0 <= k {
            return i;
        }
        i += 1;
    }
    i
}

/// Index of the bucket keyed exactly `k`, where one exists.
pub fn days_find(v: &Vec<(u64, Vec<(String, RateCount)>)>, k: u64) -> (r: Option<usize>)
    requires
        days_sorted(days_view(v@)),
    ensures
        r matches Some(i) ==> i < v.len() && days_view(v@)[i as int].0 == k,
        r is None ==> !has_day(days_view(v@), k),
{
    let ghost dv = days_view(v@);
    let i = days_pos(v, k);
    if i < v.len() && v[i].0 == k {
        Some(i)
    } else {
        proof {
            if has_day(dv, k) {
                let m = choose|m: int| 0 <= m < dv.len() && dv[m].0 == k;
                if m < i {
                    assert(dv[m].0 > k);
                } else if m > i {
                    assert(dv[i as int].0 > dv[m].0);
                }
            }
        }
        None
    }
}

/// The family with bucket `b` stored under key `k`, replacing any bucket
/// that held that key.
pub fn days_put(v: Vec<(u64, Vec<(String, RateCount)>)>, k: u64, b: Vec<(String, RateCount)>) -> (r:
    Vec<(u64, Vec<(String, RateCount)>)>)
    requires
        days_sorted(days_view(v@)),
    ensures
        days_view(r@) == upsert_day(days_view(v@), k, board_view(b@)),
{
    let ghost dv = days_view(v@);
    let ghost bb = board_view(b@);
    let i = days_pos(&v, k);
    let mut out = v;
    proof {
        lemma_upsert_day(dv, k, bb, i as int);
    }
    if i < out.len() && out[i].0 == k {
        out.remove(i);
        out.insert(i, (k, b));
        proof {
            assert(days_view(out@) =~= dv.update(i as int, (k, bb)));
        }
    } else {
        out.insert(i, (k, b));
        proof {
            assert(days_view(out@) =~= dv.take(i as int) + seq![(k, bb)] + dv.skip(i as int));
        }
    }
    out
}

/// The family without every bucket keyed at or below `cutoff`; survivors are
/// copied over untouched.
pub fn days_evict(v: &Vec<(u64, Vec<(String, RateCount)>)>, cutoff: u64) -> (r: Vec<
    (u64, Vec<(String, RateCount)>),
>)
    ensures
        days_view(r@) == evict_le(days_view(v@), cutoff),
{
    let ghost dv = days_view(v@);
    let mut out: Vec<(u64, Vec<(String, RateCount)>)> = Vec::new();
    let mut i: usize = 0;
    proof {
        assert(dv.skip(0) =~= dv);
        assert(days_view(out@) + evict_le(dv, cutoff) =~= evict_le(dv, cutoff));
    }
    while i < v.len()
        invariant
            0 <= i <= v.len(),
            dv == days_view(v@),
            dv.len() == v.len(),
            forall|m: int| 0 <= m < v.len() ==> dv[m] == (v@[m].0, board_view(v@[m].1@)),
            days_view(out@) + evict_le(dv.skip(i as int), cutoff) == evict_le(dv, cutoff),
        decreases v.len() - i,
    {
        let ghost pre = days_view(out@);
        let ghost tail = dv.skip(i as int);
        assert(tail.len() > 0 && tail[0] == dv[i as int]);
        assert(tail.drop_first() =~= dv.skip(i as int + 1));
        if v[i].0 > cutoff {
            let day_key = v[i].0;
            let bucket = crate::ranking::board_clone(&v[i].1);
            out.push((day_key, bucket));
            assert(days_view(out@) =~= pre + seq![dv[i as int]]);
            assert(evict_le(tail, cutoff) == seq![dv[i as int]] + evict_le(
                dv.skip(i as int + 1),
                cutoff,
            ));
            assert(days_view(out@) + evict_le(dv.skip(i as int + 1), cutoff) =~= evict_le(
                dv,
                cutoff,
            ));
        } else {
            assert(evict_le(tail, cutoff) == evict_le(dv.skip(i as int + 1), cutoff));
        }
        i += 1;
    }
    assert(dv.skip(v.len() as int) =~= Seq::empty());
    assert(days_view(out@) =~= days_view(out@) + evict_le(dv.skip(v.len() as int), cutoff));
    out
}

} // verus!
