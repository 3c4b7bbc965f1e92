use vstd::prelude::*;

use crate::order::{is_ordered, lemma_ordered_total, lemma_ordered_trans, ordered};
use crate::types::RateCount;

verus! {

/// The mathematical shape of one leaderboard: entries of item key and
/// aggregate snapshot, in rank order.
pub type Board = Seq<(Seq<char>, RateCount)>;

/// What a stored leaderboard vector denotes.
pub open spec fn board_view(s: Seq<(String, RateCount)>) -> Board {
    s.map_values(|p: (String, RateCount)| (p.0@, p.1))
}

/// Some entry carries key `k`.
pub open spec fn has_key(s: Board, k: Seq<char>) -> bool {
    exists|i: int| 0 <= i < s.len() && s[i].0 == k
}

/// No two entries share a key.
pub open spec fn unique_keys(s: Board) -> bool {
    forall|i: int, j: int| 0 <= i < j < s.len() ==> s[i].0 != s[j].0
}

/// The entries stand in rank order for direction `desc`.
pub open spec fn sorted_board(desc: bool, s: Board) -> bool {
    forall|i: int, j: int| 0 <= i < j < s.len() ==> ordered(desc, s[i].1, s[j].1)
}

/// Every snapshot counts at least one rating.
pub open spec fn positive_totals(s: Board) -> bool {
    forall|i: int| 0 <= i < s.len() ==> s[i].1.total >= 1
}

/// The entries whose keys satisfy `pred`, keeping their order.
pub open spec fn filter_keys(s: Board, pred: spec_fn(Seq<char>) -> bool) -> Board
    decreases s.len(),
{
    if s.len() == 0 {
        Seq::empty()
    } else if pred(s[0].0) {
        seq![s[0]] + filter_keys(s.drop_first(), pred)
    } else {
        filter_keys(s.drop_first(), pred)
    }
}

/// Holds of every key other than `k`.
pub open spec fn other_than(k: Seq<char>) -> spec_fn(Seq<char>) -> bool {
    |k2: Seq<char>| k2 != k
}

/// Holds of every key that occurs in `keep`.
pub open spec fn occurs_in(keep: Board) -> spec_fn(Seq<char>) -> bool {
    |k2: Seq<char>| has_key(keep, k2)
}

/// The board without any entry keyed `k`.
pub open spec fn remove_key(s: Board, k: Seq<char>) -> Board {
    filter_keys(s, other_than(k))
}

/// The entries of `s` whose key also appears in `keep`.
pub open spec fn keep_keys(s: Board, keep: Board) -> Board {
    filter_keys(s, occurs_in(keep))
}

/// `e` placed before the first entry it ranks at or above.
pub open spec fn insert_ordered(desc: bool, s: Board, e: (Seq<char>, RateCount)) -> Board
    decreases s.len(),
{
    if s.len() == 0 {
        seq![e]
    } else if ordered(desc, e.1, s[0].1) {
        seq![e] + s
    } else {
        seq![s[0]] + insert_ordered(desc, s.drop_first(), e)
    }
}

/// The first `n` entries, or all of them where fewer exist.
pub open spec fn trunc(s: Board, n: int) -> Board {
    if s.len() <= n {
        s
    } else {
        s.take(n)
    }
}

/// A board's structural soundness: capped at `cap`, rank-ordered for
/// direction `desc`, keys unique, every total positive.
pub open spec fn board_shape(desc: bool, b: Board, cap: int) -> bool {
    &&& b.len() <= cap
    &&& sorted_board(desc, b)
    &&& unique_keys(b)
    &&& positive_totals(b)
}

/// What removal keeps: every entry except those keyed `k`, in order.
pub proof fn lemma_remove_key(s: Board, k: Seq<char>)
    ensures
        remove_key(s, k).len() <= s.len(),
        forall|x: (Seq<char>, RateCount)|
            #[trigger] remove_key(s, k).contains(x) <==> s.contains(x) && x.0 != k,
        forall|k2: Seq<char>| #[trigger] has_key(remove_key(s, k), k2) <==> has_key(s, k2) && k2 != k,
        unique_keys(s) ==> unique_keys(remove_key(s, k)),
        sorted_board(true, s) ==> sorted_board(true, remove_key(s, k)),
        sorted_board(false, s) ==> sorted_board(false, remove_key(s, k)),
        positive_totals(s) ==> positive_totals(remove_key(s, k)),
{
    lemma_filter_keys(s, other_than(k));
    assert(forall|k2: Seq<char>| #[trigger] other_than(k)(k2) == (k2 != k));
}

/// What keeping keeps: exactly the entries whose key also stands in `keep`.
pub proof fn lemma_keep_keys(s: Board, keep: Board)
    ensures
        keep_keys(s, keep).len() <= s.len(),
        forall|x: (Seq<char>, RateCount)|
            #[trigger] keep_keys(s, keep).contains(x) <==> s.contains(x) && has_key(keep, x.0),
        forall|k2: Seq<char>|
            #[trigger] has_key(keep_keys(s, keep), k2) <==> has_key(s, k2) && has_key(keep, k2),
        unique_keys(s) ==> unique_keys(keep_keys(s, keep)),
        sorted_board(true, s) ==> sorted_board(true, keep_keys(s, keep)),
        sorted_board(false, s) ==> sorted_board(false, keep_keys(s, keep)),
        positive_totals(s) ==> positive_totals(keep_keys(s, keep)),
{
    lemma_filter_keys(s, occurs_in(keep));
    assert(forall|k2: Seq<char>| #[trigger] occurs_in(keep)(k2) == has_key(keep, k2));
}

/// What filtering keeps: a subsequence, exactly the entries whose key
/// satisfies the predicate, with order, key uniqueness and rank order intact.
pub proof fn lemma_filter_keys(s: Board, pred: spec_fn(Seq<char>) -> bool)
    ensures
        filter_keys(s, pred).len() <= s.len(),
        forall|x: (Seq<char>, RateCount)|
            #[trigger] filter_keys(s, pred).contains(x) <==> s.contains(x) && pred(x.0),
        forall|k2: Seq<char>| #[trigger] has_key(filter_keys(s, pred), k2) <==> has_key(s, k2) && pred(k2),
        unique_keys(s) ==> unique_keys(filter_keys(s, pred)),
        sorted_board(true, s) ==> sorted_board(true, filter_keys(s, pred)),
        sorted_board(false, s) ==> sorted_board(false, filter_keys(s, pred)),
        positive_totals(s) ==> positive_totals(filter_keys(s, pred)),
    decreases s.len(),
{
    if s.len() == 0 {
        assert(filter_keys(s, pred) =~= Seq::empty());
    } else {
        let rest = s.drop_first();
        let fr = filter_keys(rest, pred);
        let f = filter_keys(s, pred);
        lemma_filter_keys(rest, pred);
        assert(forall|x: (Seq<char>, RateCount)| rest.contains(x) ==> s.contains(x)) by {
            assert forall|x: (Seq<char>, RateCount)| rest.contains(x) implies s.contains(x) by {
                let i = choose|i: int| 0 <= i < rest.len() && rest[i] == x;
                assert(s[i + 1] == x);
            }
        }
        if pred(s[0].0) {
            assert(f =~= seq![s[0]] + fr);
            // membership in both directions
            assert forall|x: (Seq<char>, RateCount)| f.contains(x) implies s.contains(x) && pred(
                x.0,
            ) by {
                let i = choose|i: int| 0 <= i < f.len() && f[i] == x;
                if i == 0 {
                    assert(s.contains(x)) by { assert(s[0] == x) }
                } else {
                    assert(fr.contains(x)) by { assert(fr[i - 1] == x) }
                }
            }
            assert forall|x: (Seq<char>, RateCount)| s.contains(x) && pred(x.0) implies f.contains(
                x,
            ) by {
                let i = choose|i: int| 0 <= i < s.len() && s[i] == x;
                if i == 0 {
                    assert(f[0] == x);
                } else {
                    assert(rest[i - 1] == x);
                    assert(fr.contains(x));
                    let j = choose|j: int| 0 <= j < fr.len() && fr[j] == x;
                    assert(f[j + 1] == x);
                }
            }
            // key membership
            assert forall|k2: Seq<char>| #[trigger] has_key(f, k2) implies has_key(s, k2) && pred(
                k2,
            ) by {
                let i = choose|i: int| 0 <= i < f.len() && f[i].0 == k2;
                if i == 0 {
                    assert(s[0].0 == k2);
                } else {
                    assert(has_key(fr, k2)) by { assert(fr[i - 1].0 == k2) }
                    let j = choose|j: int| 0 <= j < rest.len() && rest[j].0 == k2;
                    assert(s[j + 1].0 == k2);
                }
            }
            assert forall|k2: Seq<char>| has_key(s, k2) && pred(k2) implies #[trigger] has_key(
                f,
                k2,
            ) by {
                let i = choose|i: int| 0 <= i < s.len() && s[i].0 == k2;
                if i == 0 {
                    assert(f[0].0 == k2);
                } else {
                    assert(has_key(rest, k2)) by { assert(rest[i - 1].0 == k2) }
                    assert(has_key(fr, k2));
                    let j = choose|j: int| 0 <= j < fr.len() && fr[j].0 == k2;
                    assert(f[j + 1].0 == k2);
                }
            }
            if unique_keys(s) {
                assert(unique_keys(rest)) by {
                    assert forall|i: int, j: int| 0 <= i < j < rest.len() implies rest[i].0
                        != rest[j].0 by {
                        assert(rest[i] == s[i + 1] && rest[j] == s[j + 1]);
                    }
                }
                assert(unique_keys(f)) by {
                    assert forall|i: int, j: int| 0 <= i < j < f.len() implies f[i].0 != f[j].0 by {
                        if i == 0 {
                            assert(has_key(fr, f[j].0)) by { assert(fr[j - 1].0 == f[j].0) }
                            assert(has_key(rest, f[j].0));
                        }
                    }
                }
            }
            assert forall|d: bool| sorted_board(d, s) implies sorted_board(d, f) by {
                assert(sorted_board(d, rest)) by {
                    assert forall|i: int, j: int| 0 <= i < j < rest.len() implies ordered(
                        d,
                        rest[i].1,
                        rest[j].1,
                    ) by {
                        assert(rest[i] == s[i + 1] && rest[j] == s[j + 1]);
                    }
                }
                assert forall|i: int, j: int| 0 <= i < j < f.len() implies ordered(
                    d,
                    f[i].1,
                    f[j].1,
                ) by {
                    if i == 0 {
                        assert(fr.contains(f[j])) by { assert(fr[j - 1] == f[j]) }
                        assert(rest.contains(f[j]));
                        let m = choose|m: int| 0 <= m < rest.len() && rest[m] == f[j];
                        assert(rest[m] == s[m + 1]);
                        assert(ordered(d, s[0].1, s[m + 1].1));
                    }
                }
            }
            if positive_totals(s) {
                assert forall|i: int| 0 <= i < f.len() implies f[i].1.total >= 1 by {
                    if i > 0 {
                        assert(fr.contains(f[i])) by { assert(fr[i - 1] == f[i]) }
                        assert(rest.contains(f[i]));
                        let m = choose|m: int| 0 <= m < rest.len() && rest[m] == f[i];
                        assert(rest[m] == s[m + 1]);
                    }
                }
            }
        } else {
            assert(f =~= fr);
            assert forall|x: (Seq<char>, RateCount)| s.contains(x) && pred(x.0) implies f.contains(
                x,
            ) by {
                let i = choose|i: int| 0 <= i < s.len() && s[i] == x;
                assert(i != 0);
                assert(rest[i - 1] == x);
            }
            assert forall|k2: Seq<char>| has_key(s, k2) && pred(k2) implies #[trigger] has_key(
                f,
                k2,
            ) by {
                let i = choose|i: int| 0 <= i < s.len() && s[i].0 == k2;
                assert(i != 0);
                assert(has_key(rest, k2)) by { assert(rest[i - 1].0 == k2) }
            }
            assert forall|k2: Seq<char>| #[trigger] has_key(f, k2) implies has_key(s, k2) && pred(
                k2,
            ) by {
                assert(has_key(rest, k2));
                let j = choose|j: int| 0 <= j < rest.len() && rest[j].0 == k2;
                assert(s[j + 1].0 == k2);
            }
            assert(unique_keys(s) ==> unique_keys(rest)) by {
                if unique_keys(s) {
                    assert forall|i: int, j: int| 0 <= i < j < rest.len() implies rest[i].0
                        != rest[j].0 by {
                        assert(rest[i] == s[i + 1] && rest[j] == s[j + 1]);
                    }
                }
            }
            assert forall|d: bool| sorted_board(d, s) implies sorted_board(d, f) by {
                assert(sorted_board(d, rest)) by {
                    assert forall|i: int, j: int| 0 <= i < j < rest.len() implies ordered(
                        d,
                        rest[i].1,
                        rest[j].1,
                    ) by {
                        assert(rest[i] == s[i + 1] && rest[j] == s[j + 1]);
                    }
                }
            }
            assert(positive_totals(s) ==> positive_totals(rest)) by {
                if positive_totals(s) {
                    assert forall|i: int| 0 <= i < rest.len() implies rest[i].1.total >= 1 by {
                        assert(rest[i] == s[i + 1]);
                    }
                }
            }
        }
    }
}

/// What ordered insertion yields: one more entry, the new one and the old
/// ones, in rank order, with key uniqueness kept when the key is fresh.
pub proof fn lemma_insert_ordered(desc: bool, s: Board, e: (Seq<char>, RateCount))
    requires
        sorted_board(desc, s),
        positive_totals(s),
        e.1.total >= 1,
    ensures
        insert_ordered(desc, s, e).len() == s.len() + 1,
        forall|x: (Seq<char>, RateCount)|
            #[trigger] insert_ordered(desc, s, e).contains(x) <==> s.contains(x) || x == e,
        forall|k2: Seq<char>|
            #[trigger] has_key(insert_ordered(desc, s, e), k2) <==> has_key(s, k2) || k2 == e.0,
        sorted_board(desc, insert_ordered(desc, s, e)),
        positive_totals(insert_ordered(desc, s, e)),
        unique_keys(s) && !has_key(s, e.0) ==> unique_keys(insert_ordered(desc, s, e)),
    decreases s.len(),
{
    let t = insert_ordered(desc, s, e);
    if s.len() == 0 {
        assert(t =~= seq![e]);
        assert(t.contains(e)) by { assert(t[0] == e) }
        assert(has_key(t, e.0)) by { assert(t[0].0 == e.0) }
    } else if ordered(desc, e.1, s[0].1) {
        assert(t =~= seq![e] + s);
        assert forall|x: (Seq<char>, RateCount)| s.contains(x) || x == e implies t.contains(x) by {
            if x == e {
                assert(t[0] == e);
            } else {
                let i = choose|i: int| 0 <= i < s.len() && s[i] == x;
                assert(t[i + 1] == x);
            }
        }
        assert forall|x: (Seq<char>, RateCount)| t.contains(x) implies s.contains(x) || x == e by {
            let i = choose|i: int| 0 <= i < t.len() && t[i] == x;
            if i > 0 {
                assert(s[i - 1] == x);
            }
        }
        assert forall|k2: Seq<char>| has_key(s, k2) || k2 == e.0 implies #[trigger] has_key(
            t,
            k2,
        ) by {
            if k2 == e.0 {
                assert(t[0].0 == k2);
            } else {
                let i = choose|i: int| 0 <= i < s.len() && s[i].0 == k2;
                assert(t[i + 1].0 == k2);
            }
        }
        assert forall|k2: Seq<char>| #[trigger] has_key(t, k2) implies has_key(s, k2) || k2
            == e.0 by {
            let i = choose|i: int| 0 <= i < t.len() && t[i].0 == k2;
            if i > 0 {
                assert(s[i - 1].0 == k2);
            }
        }
        assert forall|i: int, j: int| 0 <= i < j < t.len() implies ordered(desc, t[i].1, t[j].1) by {
            if i == 0 {
                if j > 1 {
                    lemma_ordered_trans(desc, e.1, s[0].1, s[j - 1].1);
                }
            } else {
                assert(t[i] == s[i - 1] && t[j] == s[j - 1]);
            }
        }
    } else {
        let rest = s.drop_first();
        assert(unique_keys(s) ==> unique_keys(rest) && !has_key(rest, s[0].0)) by {
            if unique_keys(s) {
                assert forall|i: int, j: int| 0 <= i < j < rest.len() implies rest[i].0
                    != rest[j].0 by {
                    assert(rest[i] == s[i + 1] && rest[j] == s[j + 1]);
                }
                if has_key(rest, s[0].0) {
                    let i = choose|i: int| 0 <= i < rest.len() && rest[i].0 == s[0].0;
                    assert(s[i + 1].0 == s[0].0);
                }
            }
        }
        assert(sorted_board(desc, rest) && positive_totals(rest)) by {
            assert forall|i: int, j: int| 0 <= i < j < rest.len() implies ordered(
                desc,
                rest[i].1,
                rest[j].1,
            ) by {
                assert(rest[i] == s[i + 1] && rest[j] == s[j + 1]);
            }
            assert forall|i: int| 0 <= i < rest.len() implies rest[i].1.total >= 1 by {
                assert(rest[i] == s[i + 1]);
            }
        }
        assert(!has_key(s, e.0) ==> !has_key(rest, e.0)) by {
            if has_key(rest, e.0) {
                let i = choose|i: int| 0 <= i < rest.len() && rest[i].0 == e.0;
                assert(s[i + 1].0 == e.0);
            }
        }
        lemma_insert_ordered(desc, rest, e);
        let tr = insert_ordered(desc, rest, e);
        assert(t =~= seq![s[0]] + tr);
        assert forall|x: (Seq<char>, RateCount)| t.contains(x) implies s.contains(x) || x == e by {
            let i = choose|i: int| 0 <= i < t.len() && t[i] == x;
            if i == 0 {
                assert(s[0] == x);
            } else {
                assert(tr.contains(x)) by { assert(tr[i - 1] == x) }
                if x != e {
                    assert(rest.contains(x));
                    let m = choose|m: int| 0 <= m < rest.len() && rest[m] == x;
                    assert(s[m + 1] == x);
                }
            }
        }
        assert forall|x: (Seq<char>, RateCount)| s.contains(x) || x == e implies t.contains(x) by {
            if x == e {
                assert(tr.contains(e));
                let m = choose|m: int| 0 <= m < tr.len() && tr[m] == e;
                assert(t[m + 1] == e);
            } else {
                let i = choose|i: int| 0 <= i < s.len() && s[i] == x;
                if i == 0 {
                    assert(t[0] == x);
                } else {
                    assert(rest[i - 1] == x);
                    assert(tr.contains(x));
                    let m = choose|m: int| 0 <= m < tr.len() && tr[m] == x;
                    assert(t[m + 1] == x);
                }
            }
        }
        assert forall|k2: Seq<char>| #[trigger] has_key(t, k2) implies has_key(s, k2) || k2
            == e.0 by {
            let i = choose|i: int| 0 <= i < t.len() && t[i].0 == k2;
            if i == 0 {
                assert(s[0].0 == k2);
            } else {
                assert(has_key(tr, k2)) by { assert(tr[i - 1].0 == k2) }
                if k2 != e.0 {
                    let m = choose|m: int| 0 <= m < rest.len() && rest[m].0 == k2;
                    assert(s[m + 1].0 == k2);
                }
            }
        }
        assert forall|k2: Seq<char>| has_key(s, k2) || k2 == e.0 implies #[trigger] has_key(
            t,
            k2,
        ) by {
            if k2 == e.0 || !(exists|i: int| 0 <= i < s.len() && s[i].0 == k2 && i == 0) {
                if k2 == e.0 {
                    assert(has_key(tr, k2));
                } else {
                    let i = choose|i: int| 0 <= i < s.len() && s[i].0 == k2;
                    if i == 0 {
                        assert(t[0].0 == k2);
                    } else {
                        assert(has_key(rest, k2)) by { assert(rest[i - 1].0 == k2) }
                        assert(has_key(tr, k2));
                    }
                }
                if has_key(tr, k2) {
                    let m = choose|m: int| 0 <= m < tr.len() && tr[m].0 == k2;
                    assert(t[m + 1].0 == k2);
                }
            } else {
                assert(t[0].0 == k2);
            }
        }
        // rank order: s[0] stands before everything now in the tail
        lemma_ordered_total(desc, e.1, s[0].1);
        assert forall|i: int, j: int| 0 <= i < j < t.len() implies ordered(desc, t[i].1, t[j].1) by {
            if i == 0 {
                assert(tr.contains(t[j])) by { assert(tr[j - 1] == t[j]) }
                if t[j] == e {
                    assert(ordered(desc, s[0].1, e.1));
                } else {
                    assert(rest.contains(t[j]));
                    let m = choose|m: int| 0 <= m < rest.len() && rest[m] == t[j];
                    assert(rest[m] == s[m + 1]);
                    assert(ordered(desc, s[0].1, s[m + 1].1));
                }
            } else {
                assert(t[i] == tr[i - 1] && t[j] == tr[j - 1]);
                assert(ordered(desc, tr[i - 1].1, tr[j - 1].1));
            }
        }
        assert forall|i: int| 0 <= i < t.len() implies t[i].1.total >= 1 by {
            if i > 0 {
                assert(t[i] == tr[i - 1]);
            }
        }
        if unique_keys(s) && !has_key(s, e.0) {
            assert forall|i: int, j: int| 0 <= i < j < t.len() implies t[i].0 != t[j].0 by {
                if i == 0 {
                    assert(has_key(tr, t[j].0)) by { assert(tr[j - 1].0 == t[j].0) }
                } else {
                    assert(t[i] == tr[i - 1] && t[j] == tr[j - 1]);
                }
            }
        }
    }
}

/// Truncation keeps a prefix: entries, order, uniqueness and bounds follow.
pub proof fn lemma_trunc(s: Board, n: int)
    requires
        n >= 0,
    ensures
        trunc(s, n).len() == if s.len() <= n { s.len() as int } else { n },
        forall|x: (Seq<char>, RateCount)| #[trigger] trunc(s, n).contains(x) ==> s.contains(x),
        forall|k2: Seq<char>| #[trigger] has_key(trunc(s, n), k2) ==> has_key(s, k2),
        unique_keys(s) ==> unique_keys(trunc(s, n)),
        sorted_board(true, s) ==> sorted_board(true, trunc(s, n)),
        sorted_board(false, s) ==> sorted_board(false, trunc(s, n)),
        positive_totals(s) ==> positive_totals(trunc(s, n)),
{
    let t = trunc(s, n);
    assert(forall|i: int| 0 <= i < t.len() ==> t[i] == s[i]);
    assert forall|x: (Seq<char>, RateCount)| t.contains(x) implies s.contains(x) by {
        let i = choose|i: int| 0 <= i < t.len() && t[i] == x;
        assert(s[i] == x);
    }
    assert forall|k2: Seq<char>| #[trigger] has_key(t, k2) implies has_key(s, k2) by {
        let i = choose|i: int| 0 <= i < t.len() && t[i].0 == k2;
        assert(s[i].0 == k2);
    }
}

/// A board whose keys all occur in another board with unique keys can hold
/// no more entries than that board.
pub proof fn lemma_unique_keys_len(s: Board, t: Board)
    requires
        unique_keys(s),
        unique_keys(t),
        forall|i: int| 0 <= i < s.len() ==> has_key(t, s[i].0),
    ensures
        s.len() <= t.len(),
    decreases s.len(),
{
    if s.len() > 0 {
        let last = s.last();
        assert(has_key(t, last.0)) by { assert(s[s.len() - 1].0 == last.0) }
        let j = choose|j: int| 0 <= j < t.len() && t[j].0 == last.0;
        let t2 = t.remove(j);
        let s2 = s.drop_last();
        assert(unique_keys(s2)) by {
            assert(forall|i: int| 0 <= i < s2.len() ==> s2[i] == s[i]);
        }
        assert(unique_keys(t2)) by {
            assert forall|a: int, b: int| 0 <= a < b < t2.len() implies t2[a].0 != t2[b].0 by {
                let a0 = if a < j { a } else { a + 1 };
                let b0 = if b < j { b } else { b + 1 };
                assert(t2[a] == t[a0] && t2[b] == t[b0]);
            }
        }
        assert forall|i: int| 0 <= i < s2.len() implies has_key(t2, s2[i].0) by {
            assert(s2[i] == s[i]);
            assert(has_key(t, s[i].0));
            let m = choose|m: int| 0 <= m < t.len() && t[m].0 == s[i].0;
            assert(s[i].0 != last.0) by { assert(s[s.len() - 1].0 == last.0) }
            assert(m != j);
            if m < j {
                assert(t2[m] == t[m]);
            } else {
                assert(t2[m - 1] == t[m]);
            }
        }
        lemma_unique_keys_len(s2, t2);
    }
}

/// Run-time lookup on a leaderboard vector.
pub fn board_has(v: &Vec<(String, RateCount)>, key: &String) -> (r: bool)
    ensures
        r == has_key(board_view(v@), key@),
{
    let ghost bv = board_view(v@);
    let mut i: usize = 0;
    while i < v.len()
        invariant
            0 <= i <= v.len(),
            bv == board_view(v@),
            bv.len() == v.len(),
            forall|m: int| 0 <= m < v.len() ==> bv[m] == (v@[m].0@, v@[m].1),
            forall|m: int| 0 <= m < i ==> bv[m].0 != key@,
        decreases v.len() - i,
    {
        if v[i].0.eq(key) {
            assert(bv[i as int].0 == key@);
            return true;
        }
        i += 1;
    }
    false
}

/// The board vector without any entry keyed `key`; the survivors keep their
/// order.
pub fn board_remove(v: &Vec<(String, RateCount)>, key: &String) -> (r: Vec<(String, RateCount)>)
    ensures
        board_view(r@) == remove_key(board_view(v@), key@),
{
    let ghost bv = board_view(v@);
    let ghost pred = other_than(key@);
    let mut out: Vec<(String, RateCount)> = Vec::new();
    let mut i: usize = 0;
    proof {
        assert(bv.skip(0) =~= bv);
        assert(board_view(out@) + filter_keys(bv, pred) =~= filter_keys(bv, pred));
    }
    while i < v.len()
        invariant
            0 <= i <= v.len(),
            bv == board_view(v@),
            pred == other_than(key@),
            bv.len() == v.len(),
            forall|m: int| 0 <= m < v.len() ==> bv[m] == (v@[m].0@, v@[m].1),
            board_view(out@) + filter_keys(bv.skip(i as int), pred) == filter_keys(bv, pred),
        decreases v.len() - i,
    {
        let ghost pre = board_view(out@);
        let ghost tail = bv.skip(i as int);
        assert(tail.len() > 0 && tail[0] == bv[i as int]);
        assert(tail.drop_first() =~= bv.skip(i as int + 1));
        if !v[i].0.eq(key) {
            let k = v[i].0.clone();
            let rc = v[i].1;
            out.push((k, rc));
            assert(board_view(out@) =~= pre + seq![bv[i as int]]) by {
                assert(out@[out@.len() - 1].0@ == bv[i as int].0);
            }
            assert(filter_keys(tail, pred) == seq![bv[i as int]] + filter_keys(
                bv.skip(i as int + 1),
                pred,
            ));
            assert(board_view(out@) + filter_keys(bv.skip(i as int + 1), pred) =~= filter_keys(
                bv,
                pred,
            ));
        } else {
            assert(filter_keys(tail, pred) == filter_keys(bv.skip(i as int + 1), pred));
        }
        i += 1;
    }
    assert(bv.skip(v.len() as int) =~= Seq::empty());
    assert(board_view(out@) =~= board_view(out@) + filter_keys(bv.skip(v.len() as int), pred));
    assert(board_view(out@) == remove_key(bv, key@));
    out
}

/// Ordered insertion lands at the first index whose entry the new one ranks
/// at or above.
proof fn lemma_insert_position(desc: bool, s: Board, e: (Seq<char>, RateCount), i: int)
    requires
        0 <= i <= s.len(),
        forall|j: int| 0 <= j < i ==> !ordered(desc, e.1, s[j].1),
        i < s.len() ==> ordered(desc, e.1, s[i].1),
    ensures
        insert_ordered(desc, s, e) == s.take(i) + seq![e] + s.skip(i),
    decreases i,
{
    if i == 0 {
        if s.len() == 0 {
            assert(insert_ordered(desc, s, e) =~= s.take(0) + seq![e] + s.skip(0));
        } else {
            assert(seq![e] + s =~= s.take(0) + seq![e] + s.skip(0));
        }
    } else {
        let rest = s.drop_first();
        assert forall|j: int| 0 <= j < i - 1 implies !ordered(desc, e.1, rest[j].1) by {
            assert(rest[j] == s[j + 1]);
        }
        assert(i - 1 < rest.len() ==> ordered(desc, e.1, rest[i - 1].1)) by {
            if i - 1 < rest.len() {
                assert(rest[i - 1] == s[i]);
            }
        }
        lemma_insert_position(desc, rest, e, i - 1);
        assert(!ordered(desc, e.1, s[0].1));
        assert(seq![s[0]] + (rest.take(i - 1) + seq![e] + rest.skip(i - 1)) =~= s.take(i) + seq![e]
            + s.skip(i));
    }
}

/// First index at which `rc` may stand in the rank order, scanning from the
/// front.
fn insert_pos(desc: bool, v: &Vec<(String, RateCount)>, rc: &RateCount) -> (i: usize)
    ensures
        0 <= i <= v.len(),
        forall|j: int| 0 <= j < i ==> !ordered(desc, *rc, board_view(v@)[j].1),
        i < v.len() ==> ordered(desc, *rc, board_view(v@)[i as int].1),
{
    let ghost bv = board_view(v@);
    let mut i: usize = 0;
    while i < v.len()
        invariant
            0 <= i <= v.len(),
            bv == board_view(v@),
            bv.len() == v.len(),
            forall|m: int| 0 <= m < v.len() ==> bv[m] == (v@[m].0@, v@[m].1),
            forall|j: int| 0 <= j < i ==> !ordered(desc, *rc, bv[j].1),
        decreases v.len() - i,
    {
        if is_ordered(desc, rc, &v[i].1) {
            return i;
        }
        i += 1;
    }
    i
}

/// The board vector with `(key, rc)` placed at its rank position.
pub fn board_insert(desc: bool, v: Vec<(String, RateCount)>, key: String, rc: RateCount) -> (r:
    Vec<(String, RateCount)>)
    ensures
        board_view(r@) == insert_ordered(desc, board_view(v@), (key@, rc)),
{
    let ghost bv = board_view(v@);
    let i = insert_pos(desc, &v, &rc);
    let mut out = v;
    let ghost e = (key@, rc);
    out.insert(i, (key, rc));
    proof {
        lemma_insert_position(desc, bv, e, i as int);
        assert(board_view(out@) =~= bv.take(i as int) + seq![e] + bv.skip(i as int));
    }
    out
}

/// The entries of `v` whose key also stands in `keep`, in their order.
pub fn board_keep(v: &Vec<(String, RateCount)>, keep: &Vec<(String, RateCount)>) -> (r: Vec<
    (String, RateCount),
>)
    ensures
        board_view(r@) == keep_keys(board_view(v@), board_view(keep@)),
{
    let ghost bv = board_view(v@);
    let ghost pred = occurs_in(board_view(keep@));
    let mut out: Vec<(String, RateCount)> = Vec::new();
    let mut i: usize = 0;
    proof {
        assert(bv.skip(0) =~= bv);
        assert(board_view(out@) + filter_keys(bv, pred) =~= filter_keys(bv, pred));
    }
    while i < v.len()
        invariant
            0 <= i <= v.len(),
            bv == board_view(v@),
            pred == occurs_in(board_view(keep@)),
            bv.len() == v.len(),
            forall|m: int| 0 <= m < v.len() ==> bv[m] == (v@[m].0@, v@[m].1),
            board_view(out@) + filter_keys(bv.skip(i as int), pred) == filter_keys(bv, pred),
        decreases v.len() - i,
    {
        let ghost pre = board_view(out@);
        let ghost tail = bv.skip(i as int);
        assert(tail.len() > 0 && tail[0] == bv[i as int]);
        assert(tail.drop_first() =~= bv.skip(i as int + 1));
        if board_has(keep, &v[i].0) {
            let k = v[i].0.clone();
            let rc = v[i].1;
            out.push((k, rc));
            assert(board_view(out@) =~= pre + seq![bv[i as int]]) by {
                assert(out@[out@.len() - 1].0@ == bv[i as int].0);
            }
            assert(filter_keys(tail, pred) == seq![bv[i as int]] + filter_keys(
                bv.skip(i as int + 1),
                pred,
            ));
            assert(board_view(out@) + filter_keys(bv.skip(i as int + 1), pred) =~= filter_keys(
                bv,
                pred,
            ));
        } else {
            assert(filter_keys(tail, pred) == filter_keys(bv.skip(i as int + 1), pred));
        }
        i += 1;
    }
    assert(bv.skip(v.len() as int) =~= Seq::empty());
    assert(board_view(out@) =~= board_view(out@) + filter_keys(bv.skip(v.len() as int), pred));
    out
}

/// A copy of the board vector, entry for entry.
pub fn board_clone(v: &Vec<(String, RateCount)>) -> (r: Vec<(String, RateCount)>)
    ensures
        board_view(r@) == board_view(v@),
{
    let ghost bv = board_view(v@);
    let mut out: Vec<(String, RateCount)> = Vec::new();
    let mut i: usize = 0;
    while i < v.len()
        invariant
            0 <= i <= v.len(),
            bv == board_view(v@),
            bv.len() == v.len(),
            forall|m: int| 0 <= m < v.len() ==> bv[m] == (v@[m].0@, v@[m].1),
            board_view(out@) == bv.take(i as int),
        decreases v.len() - i,
    {
        let ghost pre = board_view(out@);
        out.push((v[i].0.clone(), v[i].1));
        assert(board_view(out@) =~= pre + seq![bv[i as int]]) by {
            assert(out@[out@.len() - 1].0@ == bv[i as int].0);
        }
        assert(pre + seq![bv[i as int]] =~= bv.take(i as int + 1));
        i += 1;
    }
    assert(bv.take(v.len() as int) =~= bv);
    out
}

/// Appends a copy of every entry of `src` to `acc`.
pub fn board_extend(acc: &mut Vec<(String, RateCount)>, src: &Vec<(String, RateCount)>)
    ensures
        board_view(final(acc)@) == board_view(old(acc)@) + board_view(src@),
{
    let ghost base = board_view(old(acc)@);
    let ghost sv = board_view(src@);
    let mut i: usize = 0;
    proof {
        assert(board_view(acc@) =~= base + sv.take(0));
    }
    while i < src.len()
        invariant
            0 <= i <= src.len(),
            sv == board_view(src@),
            sv.len() == src.len(),
            forall|m: int| 0 <= m < src.len() ==> sv[m] == (src@[m].0@, src@[m].1),
            board_view(acc@) == base + sv.take(i as int),
        decreases src.len() - i,
    {
        let ghost pre = board_view(acc@);
        acc.push((src[i].0.clone(), src[i].1));
        assert(board_view(acc@) =~= pre + seq![sv[i as int]]) by {
            assert(acc@[acc@.len() - 1].0@ == sv[i as int].0);
        }
        assert(pre + seq![sv[i as int]] =~= base + sv.take(i as int + 1));
        i += 1;
    }
    assert(base + sv.take(src.len() as int) =~= base + sv);
}

} // verus!
