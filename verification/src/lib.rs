//! A live leaderboard of rated items, ranked by mean rating without
//! floating-point arithmetic, across three time horizons (all-time, current
//! day, trailing month) under fixed storage bounds. Each (item, rater) pair
//! may rate once, forever; every write keeps the bounded indexes sorted,
//! truncated, and free of stale day buckets.

pub mod agg;
pub mod days;
pub mod engine;
pub mod laws;
pub mod order;
pub mod query;
pub mod ranking;
pub mod store;
pub mod types;
