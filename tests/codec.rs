use txlib::codec::{adjust_string_len, book_to_line, get_max_column_sizes, tabulate_string};
use txlib::{decode_library, library_to_string, line_to_book, Book, FormatError};

fn book(timestamp: u32, read: bool, title: &str, author: &str, pages: usize, series: &str, path: &str) -> Book {
    Book {
        timestamp,
        read,
        title: title.to_string(),
        author: author.to_string(),
        series: series.to_string(),
        pages,
        path: path.to_string(),
    }
}

fn same(a: &Book, b: &Book) -> bool {
    a.timestamp == b.timestamp
        && a.read == b.read
        && a.title == b.title
        && a.author == b.author
        && a.series == b.series
        && a.pages == b.pages
        && a.path == b.path
}

#[test]
fn empty_catalog_is_header_only() {
    let text = library_to_string(&[]);
    assert_eq!(text, "DATE    /R   /TITLE  /AUTHOR  /PG  /SERIES  /PATH  /");
}

#[test]
fn encode_pads_columns_to_widest_field() {
    let books = vec![
        book(240115, true, "Dune", "Frank Herbert", 412, "Dune", "/b/dune.epub"),
        book(231201, false, "Emma", "Jane Austen", 7, "", "/b/emma.epub"),
    ];
    let text = library_to_string(&books);
    let expected = "DATE    /R   /TITLE  /AUTHOR         /PG   /SERIES  /PATH          /\n\
                    240115  /*   /Dune   /Frank Herbert  /412  /Dune    //b/dune.epub  /\n\
                    231201  /    /Emma   /Jane Austen    /7    /        //b/emma.epub  /";
    assert_eq!(text, expected);
}

#[test]
fn widths_count_characters_not_bytes() {
    let books = vec![book(240115, false, "Éé", "Zoë", 1, "", "p")];
    let widths = get_max_column_sizes(&books);
    assert_eq!(widths, [6, 2, 5, 6, 2, 6, 4]);
    let books = vec![book(240115, false, "Ééééééé", "Zoë", 1, "", "p")];
    assert_eq!(get_max_column_sizes(&books)[2], 7);
}

#[test]
fn adjust_string_len_pads_and_delimits() {
    assert_eq!(adjust_string_len("ab", 4), "ab    /");
    assert_eq!(adjust_string_len("é", 3), "é    /");
    assert_eq!(adjust_string_len("abcdef", 2), "abcdef  /");
    assert_eq!(adjust_string_len("", 0), "  /");
}

#[test]
fn tabulate_and_book_line() {
    let cols: Vec<String> = ["1", "2", "3", "4", "5", "6", "7"].iter().map(|s| s.to_string()).collect();
    assert_eq!(tabulate_string(&cols, &[2, 1, 1, 1, 1, 1, 1]), "1   /2  /3  /4  /5  /6  /7  /\n");
    let b = book(5, true, "T", "A", 12, "S", "P");
    assert_eq!(book_to_line(&b, [6, 2, 1, 1, 2, 1, 1]), "5       /*   /T  /A  /12  /S  /P  /\n");
}

#[test]
fn round_trip_keeps_books_and_order() {
    let books = vec![
        book(240115, true, "Dune", "Frank Herbert", 412, "Dune", "/b/dune.epub"),
        book(999999, false, "A / B", "X  Y", 0, "", "/b/a b.epub"),
        book(7, false, "Ünïcödé", "Å", 123456, "Série", "/b/u.epub"),
    ];
    let text = library_to_string(&books);
    let back = decode_library(&text).unwrap();
    assert_eq!(back.len(), books.len());
    for (a, b) in back.iter().zip(books.iter()) {
        assert!(same(a, b));
    }
}

#[test]
fn decode_skips_blank_and_comment_lines() {
    let text = [
        "DATE  /R /TITLE /AUTHOR /PG /SERIES /PATH /",
        "",
        "# a comment  /x  /",
        "   \t",
        "240115  /*   /Dune  /Herbert  /412  /Dune  //b/dune.epub  /",
        "",
    ]
    .join("\n");
    let text = text.as_str();
    let books = decode_library(text).unwrap();
    assert_eq!(books.len(), 1);
    assert!(same(&books[0], &book(240115, true, "Dune", "Herbert", 412, "Dune", "/b/dune.epub")));
}

#[test]
fn decode_empty_text_gives_no_books() {
    assert_eq!(decode_library("").unwrap().len(), 0);
    assert_eq!(decode_library("DATE  /R  /TITLE  /AUTHOR  /PG  /SERIES  /PATH  /").unwrap().len(), 0);
}

#[test]
fn malformed_pages_field_decodes_as_zero() {
    let text = "header\n240115  /    /Emma  /Austen  /lots  /  /emma.epub  /";
    let books = decode_library(text).unwrap();
    assert_eq!(books.len(), 1);
    assert_eq!(books[0].pages, 0);
    assert_eq!(books[0].timestamp, 240115);
    assert_eq!(books[0].title, "Emma");
    assert_eq!(books[0].path, "emma.epub");
}

#[test]
fn malformed_date_field_decodes_as_sentinel() {
    let b = line_to_book("24-01-15  /*  /T  /A  /+17  /S  /P  /").unwrap();
    assert_eq!(b.timestamp, 999999);
    assert!(b.read);
    assert_eq!(b.pages, 17);
    let b = line_to_book("99999999999  /  /T  /A  /-3  /S  /P  /").unwrap();
    assert_eq!(b.timestamp, 999999);
    assert!(!b.read);
    assert_eq!(b.pages, 0);
}

#[test]
fn line_with_too_few_fields_is_rejected() {
    assert!(line_to_book("240115  /  /T  /A  /1  /S").is_none());
    assert!(line_to_book("a  /b  /c  /d  /e  /f  /g").is_some());
    let text = "header\n240115  /  /T  /A  /1  /S  /P  /\n# ok\nnot a record\n";
    assert_eq!(decode_library(text).err(), Some(FormatError { line: 4 }));
}
