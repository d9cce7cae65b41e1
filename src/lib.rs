//! A plain-text catalog of EPUB books.
//!
//! The catalog is a column-aligned table, one book per line, whose fields are
//! separated by the delimiter `"  /"` (`codec`). A directory scan is merged
//! into it (`reconcile`): books whose file is gone are dropped, and new files
//! get a new entry (`book::create_book`) with a page estimate (`pages`). The
//! result is sorted stably by one field (`sort`). The module `laws` and
//! `roundtrip` state and prove how these operations fit together.

pub mod book;
pub mod codec;
pub mod laws;
pub mod pages;
pub mod reconcile;
pub mod roundtrip;
pub mod sort;
pub mod split;
pub mod text;
pub mod timestamp;

pub use book::{create_book, Book, EpubData, SortBy};
pub use codec::{decode_library, library_to_string, line_to_book, FormatError};
pub use pages::{estimate_pages, CHARS_PER_PAGE};
pub use reconcile::{merge_library, new_paths, reconcile};
pub use sort::{parse_sorting_option, sort_library};
pub use timestamp::{create_timestamp, timestamp_from_date};
