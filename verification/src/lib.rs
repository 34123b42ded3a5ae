//! Indexes over blocks of 32-bit integers that answer how often a value occurs in a block
//! without a scan of the block, where they can.
//!
//! The modules whose names start with `user` are different strategies. Each builds the
//! index of a block with `build_idx`, answers queries from it with `query_idx`, and proves
//! with `answers_are_counts` that an answer is the number of occurrences.

pub mod addition;
pub mod benchmark;
pub mod bitmap;
pub mod bloom;
pub mod bytes;
pub mod compressed;
pub mod deltas;
pub mod double;
pub mod exact;
pub mod frequencies;
pub mod hashing;
pub mod minmax;
pub mod order;
pub mod pairs;
pub mod parameter;
pub mod percentile;
pub mod sizing;
pub mod sort;
pub mod statistics;
pub mod table;
pub mod tally;
pub mod topk;
pub mod user;
pub mod user_adaptive_v1;
pub mod user_adaptive_v3;
pub mod user_bitmap_counts_v1;
pub mod user_cheetos_v1;
pub mod user_cheetos_v2;
pub mod user_cheetos_v3;
pub mod user_cheetos_v7;
pub mod user_compressed;
pub mod user_heavy_hitters_v1;
pub mod varint;
