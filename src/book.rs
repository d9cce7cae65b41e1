//! The catalog record and the keys it can be sorted by.

use vstd::prelude::*;
use crate::pages::{estimate_pages, page_estimate, sections_len};
use crate::text::{text_le, text_le_str, texts};

verus! {

/// One cataloged ebook. `path` is its identity: a catalog holds at most one
/// book per path.
#[derive(Clone, Debug)]
pub struct Book {
    /// Date it was added, as the decimal digits `YYMMDD`.
    pub timestamp: u32,
    pub read: bool,
    pub title: String,
    pub author: String,
    /// Empty when the book belongs to no series.
    pub series: String,
    /// Approximate page count.
    pub pages: usize,
    pub path: String,
}

/// A book with its text fields as character sequences.
pub struct BookView {
    pub timestamp: u32,
    pub read: bool,
    pub title: Seq<char>,
    pub author: Seq<char>,
    pub series: Seq<char>,
    pub pages: usize,
    pub path: Seq<char>,
}

impl View for Book {
    type V = BookView;

    open spec fn view(&self) -> BookView {
        BookView {
            timestamp: self.timestamp,
            read: self.read,
            title: self.title@,
            author: self.author@,
            series: self.series@,
            pages: self.pages,
            path: self.path@,
        }
    }
}

/// The views of a sequence of books.
pub open spec fn views(s: Seq<Book>) -> Seq<BookView> {
    s.map_values(|b: Book| b@)
}

/// The marker that the read column shows.
pub open spec fn read_marker(read: bool) -> Seq<char> {
    if read {
        seq!['*']
    } else {
        seq![' ']
    }
}

impl Book {
    /// The marker shown in the read column: `*` for a read book, a blank otherwise.
    pub fn read_symbol(&self) -> (r: String)
        ensures
            r@ == read_marker(self.read),
    {
        if self.read {
            proof {
                reveal_strlit("*");
            }
            String::from_str("*")
        } else {
            proof {
                reveal_strlit(" ");
            }
            String::from_str(" ")
        }
    }
}

/// The field a catalog is sorted by.
#[derive(Clone, Copy, PartialEq, Eq, Debug, Structural)]
pub enum SortBy {
    Date,
    Read,
    Title,
    Author,
    Pages,
    Series,
}

/// `a` may come before `b` when sorting by `by`: numbers ascending, unread
/// before read, text in code point order.
pub open spec fn key_le(a: BookView, b: BookView, by: SortBy) -> bool {
    match by {
        SortBy::Date => a.timestamp <= b.timestamp,
        SortBy::Read => !a.read || b.read,
        SortBy::Title => text_le(a.title, b.title),
        SortBy::Author => text_le(a.author, b.author),
        SortBy::Pages => a.pages <= b.pages,
        SortBy::Series => text_le(a.series, b.series),
    }
}

/// Compares two books by the field `by`, in the order of `key_le`.
pub fn book_le(a: &Book, b: &Book, by: SortBy) -> (r: bool)
    ensures
        r == key_le(a@, b@, by),
{
    match by {
        SortBy::Date => a.timestamp <= b.timestamp,
        SortBy::Read => !a.read || b.read,
        SortBy::Title => text_le_str(a.title.as_str(), b.title.as_str()),
        SortBy::Author => text_le_str(a.author.as_str(), b.author.as_str()),
        SortBy::Pages => a.pages <= b.pages,
        SortBy::Series => text_le_str(a.series.as_str(), b.series.as_str()),
    }
}

/// What is read from an EPUB file for a new catalog entry: its title and
/// author metadata, where present, and the text of its reading-order sections.
#[derive(Clone, Debug)]
pub struct EpubData {
    pub title: Option<String>,
    pub author: Option<String>,
    pub sections: Vec<String>,
}

pub open spec fn unknown_title() -> Seq<char> {
    seq!['U', 'n', 'k', 'n', 'o', 'w', 'n', ' ', 't', 'i', 't', 'l', 'e']
}

pub open spec fn unknown_author() -> Seq<char> {
    seq!['U', 'n', 'k', 'n', 'o', 'w', 'n', ' ', 'a', 'u', 't', 'h', 'o', 'r']
}

/// The view of an optional text, or `default` when absent.
pub open spec fn text_or(t: Option<String>, default: Seq<char>) -> Seq<char> {
    match t {
        Some(s) => s@,
        None => default,
    }
}

/// A new catalog entry for the file at `epub_path`, added on `timestamp`:
/// unread, in no series, with the page estimate of its sections.
pub fn create_book(epub_path: &str, data: EpubData, timestamp: u32) -> (r: Book)
    requires
        sections_len(texts(data.sections@)) <= usize::MAX,
    ensures
        r.timestamp == timestamp,
        !r.read,
        r.title@ == text_or(data.title, unknown_title()),
        r.author@ == text_or(data.author, unknown_author()),
        r.series@ == Seq::<char>::empty(),
        r.pages == page_estimate(texts(data.sections@)),
        r.path@ == epub_path@,
{
    let pages = estimate_pages(&data.sections);
    let title = match data.title {
        Some(t) => t,
        None => {
            proof {
                reveal_strlit("Unknown title");
            }
            String::from_str("Unknown title")
        },
    };
    let author = match data.author {
        Some(a) => a,
        None => {
            proof {
                reveal_strlit("Unknown author");
            }
            String::from_str("Unknown author")
        },
    };
    Book {
        timestamp,
        read: false,
        title,
        author,
        series: String::new(),
        pages,
        path: String::from_str(epub_path),
    }
}

} // verus!
