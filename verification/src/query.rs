use vstd::prelude::*;

use crate::agg::day_start_of;
use crate::days::{day_at, days_view, has_day, lemma_day_index, Days};
use crate::ranking::{board_clone, board_extend, board_view, Board};
use crate::store::{
    find_item, has_count, has_item, item_at, lemma_days_ok_bucket, lemma_item_index, unique_items,
    RateStore,
};
use crate::types::{ListKind, ListSort, Nft, RateCount, DAY_IN_SECONDS};

verus! {

/// How far back the trailing-month window reaches: thirty day-lengths
/// before the day start, floored at the epoch.
pub open spec fn month_low_of(now: u64) -> u64 {
    if day_start_of(now) >= 30 * DAY_IN_SECONDS {
        (day_start_of(now) - 30 * DAY_IN_SECONDS) as u64
    } else {
        0
    }
}

/// Every entry of every bucket keyed within `[lo, hi]`, buckets in their
/// stored (descending key) order, flattened without deduplication: an item
/// rated on several days of the window appears once per day.
pub open spec fn flatten_range(d: Days, lo: int, hi: int) -> Board
    decreases d.len(),
{
    if d.len() == 0 {
        Seq::empty()
    } else if lo <= d[0].0 && d[0].0 <= hi {
        d[0].1 + flatten_range(d.drop_first(), lo, hi)
    } else {
        flatten_range(d.drop_first(), lo, hi)
    }
}

/// The key/aggregate entries a ranked-list query selects, in the order the
/// store ranks them.
pub open spec fn ranked_pairs(s: RateStore, kind: ListKind, sort: ListSort, now: u64) -> Board {
    match kind {
        ListKind::All => match sort {
            ListSort::Highest => board_view(s.rate_ath@),
            ListSort::Lowest => board_view(s.rate_atl@),
        },
        ListKind::Day => {
            let fam = match sort {
                ListSort::Highest => days_view(s.rate_day_ath@),
                ListSort::Lowest => days_view(s.rate_day_atl@),
            };
            if has_day(fam, day_start_of(now)) {
                day_at(fam, day_start_of(now))
            } else {
                Seq::empty()
            }
        },
        ListKind::Month => {
            let fam = match sort {
                ListSort::Highest => days_view(s.rate_day_ath@),
                ListSort::Lowest => days_view(s.rate_day_atl@),
            };
            flatten_range(fam, month_low_of(now) as int, day_start_of(now) as int)
        },
    }
}

/// Every flattened entry comes from some bucket of the family.
proof fn lemma_flatten_range_entries(d: Days, lo: int, hi: int)
    ensures
        forall|i: int|
            0 <= i < flatten_range(d, lo, hi).len() ==> crate::engine::bucket_entry_of(
                d,
                #[trigger] flatten_range(d, lo, hi)[i],
            ),
    decreases d.len(),
{
    if d.len() > 0 {
        let rest = d.drop_first();
        lemma_flatten_range_entries(rest, lo, hi);
        let f = flatten_range(d, lo, hi);
        let fr = flatten_range(rest, lo, hi);
        assert forall|x: (Seq<char>, RateCount)|
            crate::engine::bucket_entry_of(rest, x) implies crate::engine::bucket_entry_of(
            d,
            x,
        ) by {
            let a = choose|a: int| 0 <= a < rest.len() && rest[a].1.contains(x);
            assert(d[a + 1].1.contains(x)) by {
                assert(rest[a] == d[a + 1]);
            }
        }
        if lo <= d[0].0 && d[0].0 <= hi {
            assert forall|i: int| 0 <= i < f.len() implies crate::engine::bucket_entry_of(
                d,
                #[trigger] f[i],
            ) by {
                if i < d[0].1.len() {
                    assert(d[0].1.contains(f[i])) by {
                        assert(d[0].1[i] == f[i]);
                    }
                } else {
                    assert(crate::engine::bucket_entry_of(rest, fr[i - d[0].1.len()]));
                }
            }
        }
    }
}

/// Looks up the item record of each selected entry and pairs it with the
/// entry's aggregate snapshot, keeping the order.
fn attach_items(items: &Vec<Nft>, pairs: &Vec<(String, RateCount)>) -> (r: Vec<(Nft, RateCount)>)
    requires
        unique_items(items@),
        forall|i: int|
            0 <= i < board_view(pairs@).len() ==> has_item(items@, board_view(pairs@)[i].0),
    ensures
        r@.len() == pairs@.len(),
        forall|i: int|
            0 <= i < r@.len() ==> r@[i].1 == board_view(pairs@)[i].1 && r@[i].0 == item_at(
                items@,
                board_view(pairs@)[i].0,
            ) && r@[i].0.class_id@ == board_view(pairs@)[i].0,
{
    let ghost bv = board_view(pairs@);
    let mut out: Vec<(Nft, RateCount)> = Vec::new();
    let mut i: usize = 0;
    while i < pairs.len()
        invariant
            0 <= i <= pairs.len(),
            bv == board_view(pairs@),
            bv.len() == pairs.len(),
            forall|m: int| 0 <= m < pairs.len() ==> bv[m] == (pairs@[m].0@, pairs@[m].1),
            unique_items(items@),
            forall|m: int| 0 <= m < bv.len() ==> has_item(items@, bv[m].0),
            out@.len() == i,
            forall|m: int|
                0 <= m < i ==> out@[m].1 == bv[m].1 && out@[m].0 == item_at(items@, bv[m].0)
                    && out@[m].0.class_id@ == bv[m].0,
        decreases pairs.len() - i,
    {
        match find_item(items, &pairs[i].0) {
            Option::Some(j) => {
                proof {
                    lemma_item_index(items@, pairs@[i as int].0@, j as int);
                }
                out.push((items[j].clone(), pairs[i].1));
            },
            Option::None => {
                proof {
                    assert(has_item(items@, bv[i as int].0));
                    assert(false);
                }
            },
        }
        i += 1;
    }
    out
}

impl RateStore {
    /// Answers a ranked-list query: the full all-time leaderboard, the
    /// current day's bucket (absent bucket: empty result, not an error), or
    /// the trailing-month flattening of day buckets, each entry paired with
    /// its item record, in the stored rank order.
    pub fn query_ranked_list(&self, kind: ListKind, sort: ListSort, now: u64) -> (r: Vec<
        (Nft, RateCount),
    >)
        requires
            self.wf(),
        ensures
            r@.len() == ranked_pairs(*self, kind, sort, now).len(),
            forall|i: int|
                0 <= i < r@.len() ==> r@[i].1 == ranked_pairs(*self, kind, sort, now)[i].1
                    && r@[i].0 == item_at(self.nfts@, ranked_pairs(*self, kind, sort, now)[i].0)
                    && r@[i].0.class_id@ == ranked_pairs(*self, kind, sort, now)[i].0,
    {
        let ghost want = ranked_pairs(*self, kind, sort, now);
        let pairs: Vec<(String, RateCount)> = match kind {
            ListKind::All => {
                let b = match sort {
                    ListSort::Highest => board_clone(&self.rate_ath),
                    ListSort::Lowest => board_clone(&self.rate_atl),
                };
                proof {
                    let bv = board_view(b@);
                    assert forall|i: int| 0 <= i < bv.len() implies has_item(
                        self.nfts@,
                        bv[i].0,
                    ) by {
                        assert(has_count(self.rate_counts@, bv[i].0));
                        let m = choose|m: int|
                            0 <= m < self.rate_counts@.len() && self.rate_counts@[m].0@ == bv[i].0;
                        assert(has_item(self.nfts@, self.rate_counts@[m].0@));
                    }
                }
                b
            },
            ListKind::Day => {
                proof {
                    vstd::arithmetic::div_mod::lemma_mod_decreases(
                        now as nat,
                        DAY_IN_SECONDS as nat,
                    );
                }
                let ds = now - now % DAY_IN_SECONDS;
                let fam: &Vec<(u64, Vec<(String, RateCount)>)> = match sort {
                    ListSort::Highest => &self.rate_day_ath,
                    ListSort::Lowest => &self.rate_day_atl,
                };
                let ghost desc = (sort is Highest);
                let ghost dv = days_view(fam@);
                match crate::days::days_find(fam, ds) {
                    Option::Some(i) => {
                        proof {
                            lemma_day_index(dv, ds, i as int);
                            lemma_days_ok_bucket(desc, dv, self.nfts@, i as int);
                        }
                        board_clone(&fam[i].1)
                    },
                    Option::None => {
                        let empty: Vec<(String, RateCount)> = Vec::new();
                        proof {
                            assert(board_view(empty@) =~= Seq::<(Seq<char>, RateCount)>::empty());
                        }
                        empty
                    },
                }
            },
            ListKind::Month => {
                proof {
                    vstd::arithmetic::div_mod::lemma_mod_decreases(
                        now as nat,
                        DAY_IN_SECONDS as nat,
                    );
                }
                let ds = now - now % DAY_IN_SECONDS;
                let lo = if ds >= 30 * DAY_IN_SECONDS {
                    ds - 30 * DAY_IN_SECONDS
                } else {
                    0
                };
                let fam: &Vec<(u64, Vec<(String, RateCount)>)> = match sort {
                    ListSort::Highest => &self.rate_day_ath,
                    ListSort::Lowest => &self.rate_day_atl,
                };
                let ghost desc = (sort is Highest);
                let ghost dv = days_view(fam@);
                let mut acc: Vec<(String, RateCount)> = Vec::new();
                let mut i: usize = 0;
                proof {
                    assert(dv.skip(0) =~= dv);
                    assert(board_view(acc@) + flatten_range(dv, lo as int, ds as int)
                        =~= flatten_range(dv, lo as int, ds as int));
                }
                while i < fam.len()
                    invariant
                        0 <= i <= fam.len(),
                        dv == days_view(fam@),
                        dv.len() == fam.len(),
                        forall|m: int|
                            0 <= m < fam.len() ==> dv[m] == (fam@[m].0, board_view(fam@[m].1@)),
                        board_view(acc@) + flatten_range(dv.skip(i as int), lo as int, ds as int)
                            == flatten_range(dv, lo as int, ds as int),
                    decreases fam.len() - i,
                {
                    let ghost tail = dv.skip(i as int);
                    assert(tail.len() > 0 && tail[0] == dv[i as int]);
                    assert(tail.drop_first() =~= dv.skip(i as int + 1));
                    if lo <= fam[i].0 && fam[i].0 <= ds {
                        let ghost pre = board_view(acc@);
                        board_extend(&mut acc, &fam[i].1);
                        assert(flatten_range(tail, lo as int, ds as int) == dv[i as int].1
                            + flatten_range(dv.skip(i as int + 1), lo as int, ds as int));
                        assert(board_view(acc@) + flatten_range(
                            dv.skip(i as int + 1),
                            lo as int,
                            ds as int,
                        ) =~= flatten_range(dv, lo as int, ds as int));
                    } else {
                        assert(flatten_range(tail, lo as int, ds as int) == flatten_range(
                            dv.skip(i as int + 1),
                            lo as int,
                            ds as int,
                        ));
                    }
                    i += 1;
                }
                proof {
                    assert(dv.skip(fam.len() as int) =~= Seq::empty());
                    assert(board_view(acc@) =~= board_view(acc@) + flatten_range(
                        dv.skip(fam.len() as int),
                        lo as int,
                        ds as int,
                    ));
                    lemma_flatten_range_entries(dv, lo as int, ds as int);
                    let bv = board_view(acc@);
                    assert forall|m: int| 0 <= m < bv.len() implies has_item(
                        self.nfts@,
                        bv[m].0,
                    ) by {
                        assert(crate::engine::bucket_entry_of(dv, bv[m]));
                        let a = choose|a: int| 0 <= a < dv.len() && dv[a].1.contains(bv[m]);
                        lemma_days_ok_bucket(desc, dv, self.nfts@, a);
                        let w = choose|w: int| 0 <= w < dv[a].1.len() && dv[a].1[w] == bv[m];
                        assert(has_item(self.nfts@, dv[a].1[w].0));
                    }
                }
                acc
            },
        };
        proof {
            assert(board_view(pairs@) == want);
        }
        attach_items(&self.nfts, &pairs)
    }
}

} // verus!
