//! Ranks the rows of a small table of strings by their edit distance to a query.
//!
//! [`Lev`] holds a reusable Wagner–Fischer matrix behind a lock; [`Table`] keeps
//! fixed-width rows and orders them by the best distance found among their cells.
pub mod distance;
pub mod lev;
pub mod query;
pub mod table;

pub use lev::{Lev, LevError};
pub use query::{search_key, search_rows, DEFAULT_TAKE};
pub use table::{Rows, Table, UNMATCHED};
