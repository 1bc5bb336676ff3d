//! An ordered map from keys to values, kept as a skip list whose links
//! carry widths, so that the entry of a given rank is found as quickly as the
//! entry of a given key.
pub mod entries;
pub mod levels;
pub mod list;
pub mod order;
pub mod random;

pub use list::SkipList;
pub use order::{int_comparator, IntOrder, KeyOrder, ReverseIntOrder};
