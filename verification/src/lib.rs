//! A record store in two representations: an append-only log of JSON lines
//! per collection, which is the truth and can be kept under version control,
//! and a cache derived from it for lookups and filtered listings.
//!
//! The library holds what is decided and computed: the log format and its
//! reconciliation by id, the rules for names and ids, the meaning of filters
//! and the statements that a relational cache is asked to run, the rebuild
//! of the cache and the test for staleness, and the three-way merge of logs.
//! Files and the database itself are the caller's business.

pub mod clock;
pub mod filter;
pub mod json;
pub mod jsonl;
pub mod keyed;
pub mod like;
pub mod merge;
pub mod models;
pub mod order;
pub mod plan;
pub mod record;
pub mod store;
pub mod tables;
pub mod text;
pub mod typed;
pub mod version;

pub use filter::{Filter, FilterOp};
pub use models::now_ms;
pub use record::{IndexValue, Record};
pub use store::Store;
