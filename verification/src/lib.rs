//! Rule-driven cleaning and ordering of a search-path list.
//!
//! A path list is a string of directory entries joined by
//! [`PATH_LIST_DELIMITER`]. A rule document ([`SortFile`]) says which entries
//! survive, into which ordered groups they fall, and how each group is sorted:
//!
//! 1. [`OsPathHandler::get_path`] splits the list into its entries.
//! 2. [`OsPathHandler::new`] filters them.
//! 3. [`OsPathHandler::create_full_path`] groups them by the match list.
//! 4. [`FullPath::sort`] sorts each group.
//! 5. [`FullPath::to_string`] joins the groups into one list again.
//!
//! [`PathSort::sort_path_list`] does all five in one call, and [`laws`] states
//! what holds of the result: nothing is made up, nothing is lost where a
//! catch-all rule stands in the match list, and sorting twice is sorting
//! once. [`View`] writes the summary of one directory of the list.

pub mod classes;
pub mod classifier;
pub mod counts;
pub mod entry;
pub mod filter;
pub mod laws;
pub mod list;
pub mod path_sort;
pub mod representation;
pub mod seqs;
pub mod sorter;
pub mod text;
pub mod view;

pub use crate::entry::{PATH_LIST_DELIMITER, PATH_SEPARATOR};
pub use crate::path_sort::{FullPath, OsPathHandler, PathElements, PathSort};
pub use crate::representation::{Order, Path, Rules, Sort, SortFile};
pub use crate::view::View;
