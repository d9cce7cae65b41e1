use txlib::book::EpubData;
use txlib::reconcile::merge_library;
use txlib::sort::sort_by_name;
use txlib::{
    create_book, create_timestamp, decode_library, estimate_pages, library_to_string, new_paths,
    parse_sorting_option, reconcile, sort_library, timestamp_from_date, Book, SortBy,
};

fn book(timestamp: u32, read: bool, title: &str, pages: usize, series: &str, path: &str) -> Book {
    Book {
        timestamp,
        read,
        title: title.to_string(),
        author: "Someone".to_string(),
        series: series.to_string(),
        pages,
        path: path.to_string(),
    }
}

fn strings(v: &[&str]) -> Vec<String> {
    v.iter().map(|s| s.to_string()).collect()
}

fn paths(books: &[Book]) -> Vec<String> {
    books.iter().map(|b| b.path.clone()).collect()
}

#[test]
fn page_estimate_boundaries() {
    let s = "x".repeat(4000);
    assert_eq!(estimate_pages(&vec![s]), 2);
    let s = "x".repeat(3999);
    assert_eq!(estimate_pages(&vec![s]), 1);
    let parts = vec!["ab\n".repeat(1000), "\n\n".to_string(), "y".repeat(2000)];
    assert_eq!(estimate_pages(&parts), 2);
    let parts = vec!["é".repeat(1999), "\n".repeat(50)];
    assert_eq!(estimate_pages(&parts), 0);
    assert_eq!(estimate_pages(&vec![]), 0);
}

#[test]
fn new_book_fields() {
    let data = EpubData { title: None, author: Some("Ann".to_string()), sections: vec!["z".repeat(4100)] };
    let b = create_book("/lib/x.epub", data, 240115);
    assert_eq!(b.timestamp, 240115);
    assert!(!b.read);
    assert_eq!(b.title, "Unknown title");
    assert_eq!(b.author, "Ann");
    assert_eq!(b.series, "");
    assert_eq!(b.pages, 2);
    assert_eq!(b.path, "/lib/x.epub");
    let data = EpubData { title: Some("T".to_string()), author: None, sections: vec![] };
    let b = create_book("p", data, 1);
    assert_eq!(b.title, "T");
    assert_eq!(b.author, "Unknown author");
    assert_eq!(b.pages, 0);
}

#[test]
fn timestamps() {
    assert_eq!(timestamp_from_date(2024, 1, 15), 240115);
    assert_eq!(timestamp_from_date(1999, 12, 31), 991231);
    assert_eq!(timestamp_from_date(2000, 2, 3), 203);
    let now = create_timestamp();
    let day = now % 100;
    let month = (now / 100) % 100;
    assert!(now <= 991231);
    assert!((1..=12).contains(&month));
    assert!((1..=31).contains(&day));
}

#[test]
fn sorting_options() {
    assert_eq!(parse_sorting_option("date"), SortBy::Date);
    assert_eq!(parse_sorting_option("r"), SortBy::Read);
    assert_eq!(parse_sorting_option("READ"), SortBy::Read);
    assert_eq!(parse_sorting_option("Title"), SortBy::Title);
    assert_eq!(parse_sorting_option("A"), SortBy::Author);
    assert_eq!(parse_sorting_option("pages"), SortBy::Pages);
    assert_eq!(parse_sorting_option("S"), SortBy::Series);
    assert_eq!(parse_sorting_option("unknown"), SortBy::Date);
    assert_eq!(parse_sorting_option(""), SortBy::Date);
    assert_eq!(sort_by_name("Title"), SortBy::Date);
    assert_eq!(sort_by_name("title"), SortBy::Title);
}

#[test]
fn sort_is_stable() {
    let mut lib = vec![
        book(3, false, "b", 10, "", "1"),
        book(1, true, "a", 5, "", "2"),
        book(2, false, "c", 10, "", "3"),
        book(1, false, "d", 5, "", "4"),
    ];
    sort_library(&mut lib, &SortBy::Pages, false);
    assert_eq!(paths(&lib), strings(&["2", "4", "1", "3"]));
    sort_library(&mut lib, &SortBy::Date, false);
    assert_eq!(paths(&lib), strings(&["2", "4", "3", "1"]));
    sort_library(&mut lib, &SortBy::Read, false);
    assert_eq!(paths(&lib), strings(&["4", "3", "1", "2"]));
}

#[test]
fn sort_then_reverse_is_descending_with_ties_reversed() {
    let lib = vec![
        book(0, false, "w", 10, "", "1"),
        book(0, false, "x", 5, "", "2"),
        book(0, false, "y", 10, "", "3"),
        book(0, false, "z", 7, "", "4"),
    ];
    let mut asc = lib.clone();
    sort_library(&mut asc, &SortBy::Pages, false);
    assert_eq!(paths(&asc), strings(&["2", "4", "1", "3"]));
    let mut desc = lib.clone();
    sort_library(&mut desc, &SortBy::Pages, true);
    assert_eq!(paths(&desc), strings(&["3", "1", "4", "2"]));
}

#[test]
fn text_sort_uses_code_point_order() {
    let mut lib = vec![
        book(0, false, "b", 1, "é", "1"),
        book(0, false, "B", 1, "e", "2"),
        book(0, false, "a", 1, "", "3"),
        book(0, false, "ab", 1, "E", "4"),
    ];
    sort_library(&mut lib, &SortBy::Title, false);
    assert_eq!(paths(&lib), strings(&["2", "3", "4", "1"]));
    sort_library(&mut lib, &SortBy::Series, false);
    assert_eq!(paths(&lib), strings(&["3", "4", "2", "1"]));
}

#[test]
fn reconcile_keeps_found_and_adds_new() {
    let persisted = vec![
        book(1, true, "kept", 3, "S", "/a.epub"),
        book(2, false, "gone", 3, "", "/b.epub"),
    ];
    let found = strings(&["/a.epub", "/c.epub", "/d.epub"]);
    let wanted = new_paths(&persisted, &found);
    assert_eq!(wanted, strings(&["/c.epub", "/d.epub"]));
    let created = vec![book(9, false, "new", 1, "", "/c.epub")];
    let result = reconcile(persisted, &found, created);
    assert_eq!(paths(&result), strings(&["/a.epub", "/c.epub"]));
    assert!(result[0].read);
    assert_eq!(result[0].series, "S");
    assert_eq!(result[0].timestamp, 1);
    assert_eq!(result[1].timestamp, 9);
}

#[test]
fn reconcile_skips_created_book_for_known_path() {
    let persisted = vec![book(1, true, "old", 3, "", "/a.epub")];
    let found = strings(&["/a.epub"]);
    let created = vec![book(9, false, "dup", 1, "", "/a.epub")];
    let result = reconcile(persisted, &found, created);
    assert_eq!(result.len(), 1);
    assert_eq!(result[0].title, "old");
}

#[test]
fn missing_catalog_gives_discovered_files() {
    let persisted = decode_library("").unwrap();
    let found = strings(&["/x.epub", "/y.epub"]);
    let wanted = new_paths(&persisted, &found);
    assert_eq!(wanted, found);
    let created: Vec<Book> = wanted
        .iter()
        .map(|p| create_book(p, EpubData { title: None, author: None, sections: vec![] }, 240115))
        .collect();
    let result = merge_library(persisted, &found, created, &SortBy::Date, false);
    assert_eq!(paths(&result), found);
    assert!(result.iter().all(|b| !b.read && b.series.is_empty() && b.timestamp == 240115));
}

#[test]
fn loading_twice_gives_same_books() {
    let persisted = vec![
        book(5, true, "a", 30, "", "/a.epub"),
        book(3, false, "b", 10, "X", "/b.epub"),
        book(4, false, "gone", 1, "", "/g.epub"),
    ];
    let found = strings(&["/a.epub", "/b.epub", "/n.epub"]);
    let created = vec![book(6, false, "n", 20, "", "/n.epub")];
    let first = merge_library(persisted, &found, created, &SortBy::Pages, true);
    let text = library_to_string(&first);
    let reread = decode_library(&text).unwrap();
    assert!(new_paths(&reread, &found).is_empty());
    let second = merge_library(reread, &found, vec![], &SortBy::Pages, true);
    assert_eq!(library_to_string(&second), text);
    assert_eq!(paths(&second), strings(&["/a.epub", "/n.epub", "/b.epub"]));
}

#[test]
fn section_lengths_fit() {
    assert!(txlib::pages::text_len_fits(&vec!["ab\n".to_string(), "c".repeat(10)]));
    assert!(txlib::pages::text_len_fits(&vec![]));
    assert_eq!(txlib::pages::count_text_chars("a\nb\n\nc"), 3);
}
