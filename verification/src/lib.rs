//! Minimum-cost re-encoding of a short byte string with a small ordered
//! dictionary of repeated substrings.
//!
//! A pattern is a substring of one to twelve bytes together with a way to
//! refer to its matches. Applying it replaces every run of consecutive
//! matches by one placeholder byte. The search tries every admissible
//! chain of patterns and keeps a cheapest one; the driver runs the search
//! in batches of bounded depth.

pub mod apply;
pub mod chain;
pub mod cost;
pub mod driver;
pub mod memo;
pub mod model;
pub mod order;
pub mod search;
pub mod types;

pub use crate::apply::{apply_pattern, Applied};
pub use crate::cost::{count_cost, FAKE, MAX_PATTERNS};
pub use crate::driver::{commit_batch, solve};
pub use crate::memo::Memo;
pub use crate::search::{solve_brute, solve_brute_with};
pub use crate::types::{Pat, Sol};
