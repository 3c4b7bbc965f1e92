use vstd::prelude::*;

verus! {

/// Length in seconds of one ranking day: a fixed epoch-relative window,
/// not a calendar day.
pub const DAY_IN_SECONDS: u64 = 986400;

/// Capacity of each all-time leaderboard (highest and lowest).
pub const MAX_LEN_ALL_TIME: usize = 100;

/// Capacity of each per-day bucket (highest and lowest).
pub const MAX_LEN_DAY: usize = 10;

/// Largest timestamp the engine accepts. Keeping timestamps at or below
/// half the `u64` range lets the day-window currency check, which adds two
/// timestamps, stay free of overflow.
pub const MAX_TS: u64 = u64::MAX / 2;

/// One rater's irrevocable rating of one item: the submission time and the
/// value, always in `1..=5`.
#[derive(Clone, Copy, Debug, PartialEq, Eq)]
pub struct Rate {
    pub ts: u64,
    pub v: u8,
}

/// A running aggregate: `sum / total` stands for the mean rating, never
/// computed as a division. `ts` tracks the window the aggregate belongs to.
#[derive(Clone, Copy, Debug, PartialEq, Eq)]
pub struct RateCount {
    pub ts: u64,
    pub sum: u64,
    pub total: u64,
}

/// The two live aggregates of one item: all-time and current day.
#[derive(Clone, Copy, Debug, PartialEq, Eq)]
pub struct RateCounts {
    pub all: RateCount,
    pub day: RateCount,
}

/// Process-wide counters, updated outside the ranking engine except for
/// the rating tally.
#[derive(Clone, Copy, Debug, PartialEq, Eq)]
pub struct TotalStats {
    pub nfts: u64,
    pub ratings: u64,
    pub messages: u64,
    pub saves: u64,
}

/// Per-user counters; the ranking engine touches only the rating tally and
/// the last rating time.
#[derive(Clone, Copy, Debug, PartialEq, Eq)]
pub struct UserStats {
    pub last_rate_ts: u64,
    pub ratings: u64,
    pub saves: u64,
    pub shares: u64,
}

/// Where an item's metadata lives.
#[derive(Debug, PartialEq, Eq)]
pub struct TokenUri {
    /// Address of the collection the token belongs to.
    pub contract_addr: String,
    /// Token id within the collection.
    pub id: String,
    /// Optional metadata location.
    pub data_uri: Option<String>,
}

/// A rated item.
#[derive(Debug, PartialEq, Eq)]
pub struct Nft {
    pub token: TokenUri,
    /// Stable item id; the key under which the item is rated.
    pub class_id: String,
    /// Chain the item lives on, if recorded.
    pub chain_id: Option<String>,
    /// The queue place.
    pub index: Option<u64>,
}

/// Direction of a ranked-list query.
#[derive(Clone, Copy, Debug, PartialEq, Eq)]
pub enum ListSort {
    Highest,
    Lowest,
}

/// Time horizon of a ranked-list query.
#[derive(Clone, Copy, Debug, PartialEq, Eq)]
pub enum ListKind {
    All,
    Day,
    Month,
}

/// Why a rating submission was rejected. Every rejection happens before any
/// state changes.
#[derive(Clone, Copy, Debug, PartialEq, Eq)]
pub enum RateError {
    /// The item does not exist.
    NotFound,
    /// The rater already has a rating for this item.
    DuplicateRating,
    /// The rating value lies outside `1..=5`.
    InvalidValue,
}

impl Clone for TokenUri {
    fn clone(&self) -> (r: Self)
        ensures
            r == *self,
    {
        TokenUri {
            contract_addr: self.contract_addr.clone(),
            id: self.id.clone(),
            data_uri: clone_opt_string(&self.data_uri),
        }
    }
}

impl Clone for Nft {
    fn clone(&self) -> (r: Self)
        ensures
            r == *self,
    {
        Nft {
            token: self.token.clone(),
            class_id: self.class_id.clone(),
            chain_id: clone_opt_string(&self.chain_id),
            index: self.index,
        }
    }
}

/// Clones an optional string, keeping its value.
fn clone_opt_string(o: &Option<String>) -> (r: Option<String>)
    ensures
        r == *o,
{
    match o {
        Option::Some(s) => Option::Some(s.clone()),
        Option::None => Option::None,
    }
}

impl UserStats {
    /// The per-user counters after one accepted rating at time `now`:
    /// the tally grows by one (saturating) and the last rating time moves,
    /// starting from zeroed counters where none existed yet.
    pub fn record_rating(stats: Option<UserStats>, now: u64) -> (r: UserStats)
        ensures
            stats matches Some(s) ==> r == (UserStats {
                last_rate_ts: now,
                ratings: if s.ratings + 1 > u64::MAX { u64::MAX } else { (s.ratings + 1) as u64 },
                ..s
            }),
            stats is None ==> r == (UserStats { last_rate_ts: now, ratings: 1, saves: 0, shares: 0 }),
    {
        match stats {
            Option::Some(s) => UserStats {
                last_rate_ts: now,
                ratings: s.ratings.saturating_add(1),
                saves: s.saves,
                shares: s.shares,
            },
            Option::None => UserStats { last_rate_ts: now, ratings: 1, saves: 0, shares: 0 },
        }
    }
}

impl TotalStats {
    /// The process-wide counters after one accepted rating: only the rating
    /// tally grows, by one, saturating.
    pub fn record_rating(self) -> (r: TotalStats)
        ensures
            r == (TotalStats {
                ratings: if self.ratings + 1 > u64::MAX { u64::MAX } else { (self.ratings + 1) as u64 },
                ..self
            }),
    {
        TotalStats { ratings: self.ratings.saturating_add(1), ..self }
    }
}

} // verus!
